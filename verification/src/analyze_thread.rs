//! Message reconstructor: rebuilds a serial byte stream from the samples of a
//! logic-analyzer capture in CSV form, cuts it into messages at line feeds,
//! and finds out which message types the capture holds.

use crate::number::is_digit;
use crate::text::{
    chars_of, copy_range, count_char, first_index_of, same_chars, string_of, string_views, trim,
    trim_chars, views,
};
use vstd::prelude::*;

verus! {

/// One sample of the capture: its time field as written, and the token of
/// the MOSI column.
#[derive(Debug)]
pub struct LogicAnalyzerRow {
    pub time: String,
    pub mosi: String,
}

/// A reconstructed message: the time field of the sample that began it, as
/// written in the capture, and its text.
#[derive(Debug)]
pub struct LogMessage {
    pub timestamp: String,
    pub content: String,
}

/// A sample as a value.
pub struct Row {
    pub time: Seq<char>,
    pub token: Seq<char>,
}

/// A message as a value.
pub struct Message {
    pub timestamp: Seq<char>,
    pub content: Seq<char>,
}

impl View for LogicAnalyzerRow {
    type V = Row;

    open spec fn view(&self) -> Row {
        Row { time: self.time@, token: self.mosi@ }
    }
}

impl View for LogMessage {
    type V = Message;

    open spec fn view(&self) -> Message {
        Message { timestamp: self.timestamp@, content: self.content@ }
    }
}

/// The samples of a vector as values.
pub open spec fn row_views(v: Seq<LogicAnalyzerRow>) -> Seq<Row> {
    Seq::new(v.len(), |i: int| v[i]@)
}

/// The messages of a vector as values.
pub open spec fn message_views(v: Seq<LogMessage>) -> Seq<Message> {
    Seq::new(v.len(), |i: int| v[i]@)
}

/// Why a capture could not be read.
#[derive(Clone, Copy, Debug, PartialEq, Eq, Structural)]
pub enum LogicError {
    /// The header row could not be read.
    Csv,
    /// The header row has no column `Time [s]`.
    MissingTimeColumn,
    /// The header row has no column `MOSI`.
    MissingMosiColumn,
    /// The record with this index could not be read.
    CsvRecord(usize),
    /// The record with this index is too short to hold a time field.
    MissingTimeField(usize),
    /// The time field of the record with this index is no number.
    BadTime(usize),
    /// The record with this index is too short to hold a MOSI field.
    MissingMosiField(usize),
}

impl LogicError {
    /// The text of the error.
    pub open spec fn text(&self) -> Seq<char> {
        match self {
            LogicError::Csv => "CSV error in the header row"@,
            LogicError::MissingTimeColumn => "Missing 'Time [s]' column"@,
            LogicError::MissingMosiColumn => "Missing 'MOSI' column"@,
            LogicError::CsvRecord(_) => "CSV error in a record"@,
            LogicError::MissingTimeField(_) => "Missing time field"@,
            LogicError::BadTime(_) => "invalid float literal"@,
            LogicError::MissingMosiField(_) => "Missing MOSI field"@,
        }
    }

    /// The text of the error as a string.
    pub fn message(&self) -> (s: String)
        ensures
            s@ == self.text(),
    {
        match self {
            LogicError::Csv => "CSV error in the header row".to_owned(),
            LogicError::MissingTimeColumn => "Missing 'Time [s]' column".to_owned(),
            LogicError::MissingMosiColumn => "Missing 'MOSI' column".to_owned(),
            LogicError::CsvRecord(_) => "CSV error in a record".to_owned(),
            LogicError::MissingTimeField(_) => "Missing time field".to_owned(),
            LogicError::BadTime(_) => "invalid float literal".to_owned(),
            LogicError::MissingMosiField(_) => "Missing MOSI field".to_owned(),
        }
    }
}

/// The header row of the CSV text `data`, or `None` where it cannot be read.
pub uninterp spec fn csv_header(data: Seq<u8>, has_headers: bool, flexible: bool) -> Option<
    Seq<Seq<char>>,
>;

/// The records of the CSV text `data` in order, each with its fields, or
/// `None` in the place of a record that cannot be read.
pub uninterp spec fn csv_records(data: Seq<u8>, has_headers: bool, flexible: bool) -> Seq<
    Option<Seq<Seq<char>>>,
>;

/// Reads the header row of a CSV text.
///
/// Trusted: builds a reader with `csv::ReaderBuilder` over the bytes and
/// calls `csv::Reader::headers`, which parses the first row and fails where
/// that row is not valid UTF-8. The outcome depends on the bytes and the two
/// settings alone.
#[verifier::external_body]
fn read_header(data: &[u8], has_headers: bool, flexible: bool) -> (r: Option<Vec<String>>)
    ensures
        match r {
            Some(h) => csv_header(data@, has_headers, flexible) == Some(string_views(h@)),
            None => csv_header(data@, has_headers, flexible) is None,
        },
{
    let mut reader = csv::ReaderBuilder::new().has_headers(has_headers).flexible(
        flexible,
    ).from_reader(data);
    match reader.headers() {
        Ok(h) => Some(h.iter().map(|s| s.to_string()).collect()),
        Err(_) => None,
    }
}

/// Reads the records of a CSV text.
///
/// Trusted: builds a reader with `csv::ReaderBuilder` over the bytes and
/// walks `csv::Reader::into_records`, which yields every record after the
/// header row in order, and an error in the place of a record that is not
/// valid UTF-8 or, unless the reader is flexible, has another number of
/// fields than the first. The outcome depends on the bytes and the two
/// settings alone.
#[verifier::external_body]
fn read_records(data: &[u8], has_headers: bool, flexible: bool) -> (r: Vec<Option<Vec<String>>>)
    ensures
        r@.len() == csv_records(data@, has_headers, flexible).len(),
        forall|i: int|
            0 <= i < r@.len() ==> match #[trigger] r@[i] {
                Some(f) => csv_records(data@, has_headers, flexible)[i] == Some(
                    string_views(f@),
                ),
                None => csv_records(data@, has_headers, flexible)[i] is None,
            },
{
    let reader = csv::ReaderBuilder::new().has_headers(has_headers).flexible(
        flexible,
    ).from_reader(data);
    reader.into_records().map(
        |r| r.ok().map(|rec| rec.iter().map(|s| s.to_string()).collect()),
    ).collect()
}

/// The name of the time column.
pub open spec fn time_column() -> Seq<char> {
    seq!['T', 'i', 'm', 'e', ' ', '[', 's', ']']
}

/// The name of the column of signal values.
pub open spec fn mosi_column() -> Seq<char> {
    seq!['M', 'O', 'S', 'I']
}

/// The token of a zero byte, read as a space.
pub open spec fn nul_token() -> Seq<char> {
    seq!['N', 'U', 'L']
}

/// The token of a space.
pub open spec fn sp_token() -> Seq<char> {
    seq!['(', 'S', 'P', ')']
}

/// The token of a line feed, which ends a segment.
pub open spec fn lf_token() -> Seq<char> {
    seq!['L', 'F', ' ']
}

/// The index of the first column with the given name, or -1.
pub open spec fn column_index(header: Seq<Seq<char>>, name: Seq<char>) -> int
    decreases header.len(),
{
    if header.len() == 0 {
        -1
    } else {
        let before = column_index(header.drop_last(), name);
        if before >= 0 {
            before
        } else if header.last() == name {
            header.len() - 1
        } else {
            -1
        }
    }
}

fn find_column(header: &Vec<String>, name: &Vec<char>) -> (r: Option<usize>)
    ensures
        match r {
            Some(i) => i == column_index(string_views(header@), name@) && i < header.len(),
            None => column_index(string_views(header@), name@) == -1,
        },
{
    let ghost all = string_views(header@);
    let mut i: usize = 0;
    assert(all.take(0) =~= Seq::<Seq<char>>::empty());
    while i < header.len()
        invariant
            i <= header.len(),
            all == string_views(header@),
            column_index(all.take(i as int), name@) == -1,
        decreases header.len() - i,
    {
        assert(all.take(i + 1).drop_last() == all.take(i as int));
        assert(all.take(i + 1).last() == header[i as int]@);
        let field = chars_of(header[i].as_str());
        if same_chars(&field, name) {
            proof {
                lemma_column_found(all, i as int + 1, name@);
            }
            return Some(i);
        }
        i += 1;
    }
    assert(all.take(all.len() as int) == all);
    None
}

proof fn lemma_column_found(header: Seq<Seq<char>>, k: int, name: Seq<char>)
    requires
        0 <= k <= header.len(),
        column_index(header.take(k), name) >= 0,
    ensures
        column_index(header, name) == column_index(header.take(k), name),
    decreases header.len() - k,
{
    if k == header.len() {
        assert(header.take(k) == header);
    } else {
        assert(header.drop_last().take(k) == header.take(k));
        lemma_column_found(header.drop_last(), k, name);
    }
}

/// How many digits `s` starts with.
pub open spec fn digit_run(s: Seq<char>) -> nat
    decreases s.len(),
{
    if s.len() > 0 && is_digit(s[0]) {
        1 + digit_run(s.skip(1))
    } else {
        0
    }
}

/// `s` without one leading sign.
pub open spec fn unsigned(s: Seq<char>) -> Seq<char> {
    if s.len() > 0 && (s[0] == '+' || s[0] == '-') {
        s.skip(1)
    } else {
        s
    }
}

/// An ASCII letter in lower case; any other character as it is.
pub open spec fn lower(c: char) -> char {
    if 65 <= c as u32 <= 90 {
        ((c as u32) + 32) as char
    } else {
        c
    }
}

/// `s` with its ASCII letters in lower case.
pub open spec fn lowered(s: Seq<char>) -> Seq<char> {
    Seq::new(s.len(), |i: int| lower(s[i]))
}

/// Whether `s` names infinity or not-a-number, in any case of letters.
pub open spec fn is_special_number(s: Seq<char>) -> bool {
    lowered(s) == seq!['i', 'n', 'f'] || lowered(s) == seq!['n', 'a', 'n'] || lowered(s) == seq![
        'i',
        'n',
        'f',
        'i',
        'n',
        'i',
        't',
        'y',
    ]
}

/// Whether `s` is an exponent: `e` or `E`, an optional sign, and at least
/// one digit.
pub open spec fn is_exponent(s: Seq<char>) -> bool {
    &&& s.len() > 0
    &&& (s[0] == 'e' || s[0] == 'E')
    &&& unsigned(s.skip(1)).len() > 0
    &&& digit_run(unsigned(s.skip(1))) == unsigned(s.skip(1)).len()
}

/// Whether `s` is a number in decimal notation without a sign: digits with
/// at most one point among them, at least one digit in all, and an optional
/// exponent.
pub open spec fn is_decimal_number(s: Seq<char>) -> bool {
    let whole = digit_run(s);
    let rest = s.skip(whole as int);
    if rest.len() > 0 && rest[0] == '.' {
        let fraction = digit_run(rest.skip(1));
        let tail = rest.skip(1 + fraction as int);
        whole + fraction >= 1 && (tail.len() == 0 || is_exponent(tail))
    } else {
        whole >= 1 && (rest.len() == 0 || is_exponent(rest))
    }
}

/// Whether `s` is a time in seconds as a floating-point number: an optional
/// sign, then a decimal number, or `inf`, `infinity` or `nan`. White space is
/// not accepted.
pub open spec fn is_time_text(s: Seq<char>) -> bool {
    is_special_number(unsigned(s)) || is_decimal_number(unsigned(s))
}

/// Counts the digits of `s` from index `from` on.
fn count_digits(s: &Vec<char>, from: usize) -> (r: usize)
    requires
        from <= s.len(),
    ensures
        r == digit_run(s@.skip(from as int)),
        from + r <= s.len(),
{
    let mut i: usize = from;
    while i < s.len() && 48 <= s[i] as u32 && s[i] as u32 <= 57
        invariant
            from <= i <= s.len(),
            digit_run(s@.skip(from as int)) == (i - from) + digit_run(s@.skip(i as int)),
        decreases s.len() - i,
    {
        assert(s@.skip(i as int).skip(1) == s@.skip(i + 1));
        i += 1;
    }
    i - from
}

fn lower_char(c: char) -> (r: char)
    ensures
        r == lower(c),
{
    let n: u32 = c as u32;
    if 65 <= n && n <= 90 {
        if n == 65 { 'a' } else if n == 66 { 'b' } else if n == 67 { 'c' } else if n == 68 { 'd' }
        else if n == 69 { 'e' } else if n == 70 { 'f' } else if n == 71 { 'g' } else if n == 72 { 'h' }
        else if n == 73 { 'i' } else if n == 74 { 'j' } else if n == 75 { 'k' } else if n == 76 { 'l' }
        else if n == 77 { 'm' } else if n == 78 { 'n' } else if n == 79 { 'o' } else if n == 80 { 'p' }
        else if n == 81 { 'q' } else if n == 82 { 'r' } else if n == 83 { 's' } else if n == 84 { 't' }
        else if n == 85 { 'u' } else if n == 86 { 'v' } else if n == 87 { 'w' } else if n == 88 { 'x' }
        else if n == 89 { 'y' } else { 'z' }
    } else {
        c
    }
}

fn is_special(s: &Vec<char>, from: usize) -> (r: bool)
    requires
        from <= s.len(),
    ensures
        r == is_special_number(s@.skip(from as int)),
{
    let mut low: Vec<char> = Vec::new();
    let mut i: usize = from;
    let ghost body = s@.skip(from as int);
    while i < s.len()
        invariant
            from <= i <= s.len(),
            body == s@.skip(from as int),
            low@.len() == i - from,
            forall|k: int| 0 <= k < i - from ==> low@[k] == lower(#[trigger] body[k]),
        decreases s.len() - i,
    {
        low.push(lower_char(s[i]));
        i += 1;
    }
    assert(low@ =~= lowered(body));
    let inf = vec!['i', 'n', 'f'];
    assert(inf@ =~= seq!['i', 'n', 'f']);
    let nan = vec!['n', 'a', 'n'];
    assert(nan@ =~= seq!['n', 'a', 'n']);
    let infinity = vec!['i', 'n', 'f', 'i', 'n', 'i', 't', 'y'];
    assert(infinity@ =~= seq!['i', 'n', 'f', 'i', 'n', 'i', 't', 'y']);
    same_chars(&low, &inf) || same_chars(&low, &nan) || same_chars(&low, &infinity)
}

fn is_exponent_at(s: &Vec<char>, from: usize) -> (r: bool)
    requires
        from <= s.len(),
    ensures
        r == is_exponent(s@.skip(from as int)),
{
    let ghost tail = s@.skip(from as int);
    if from == s.len() {
        return false;
    }
    assert(tail[0] == s@[from as int]);
    if s[from] != 'e' && s[from] != 'E' {
        return false;
    }
    let mut at: usize = from + 1;
    assert(tail.skip(1) == s@.skip(from + 1));
    if at < s.len() && (s[at] == '+' || s[at] == '-') {
        assert(s@.skip(from + 1).skip(1) == s@.skip(from + 2));
        at += 1;
    }
    assert(unsigned(tail.skip(1)) == s@.skip(at as int));
    let digits = count_digits(s, at);
    digits > 0 && at + digits == s.len()
}

/// Whether a field holds a time in seconds.
pub fn is_time_field(field: &str) -> (r: bool)
    ensures
        r == is_time_text(field@),
{
    let s = chars_of(field);
    let start: usize = if s.len() > 0 && (s[0] == '+' || s[0] == '-') {
        1
    } else {
        0
    };
    assert(unsigned(s@) == s@.skip(start as int));
    if is_special(&s, start) {
        return true;
    }
    let ghost body = s@.skip(start as int);
    let whole = count_digits(&s, start);
    let mid: usize = start + whole;
    assert(body.skip(whole as int) == s@.skip(mid as int));
    if mid < s.len() && s[mid] == '.' {
        assert(s@.skip(mid as int).skip(1) == s@.skip(mid + 1));
        let fraction = count_digits(&s, mid + 1);
        let end: usize = mid + 1 + fraction;
        assert(s@.skip(mid as int).skip(1 + fraction) == s@.skip(end as int));
        whole + fraction >= 1 && (end == s.len() || is_exponent_at(&s, end))
    } else {
        whole >= 1 && (mid == s.len() || is_exponent_at(&s, mid))
    }
}

/// The reconstruction as it stands after some samples: the messages found,
/// the characters of the segment under way, and the time of the sample that
/// began it, if any has.
pub struct Scan {
    pub messages: Seq<Message>,
    pub buffer: Seq<char>,
    pub start: Option<Seq<char>>,
}

/// Whether a segment is accepted as a message: cut of the white space at
/// its ends, it holds exactly one colon.
pub open spec fn is_message(content: Seq<char>) -> bool {
    count_char(content, ':') == 1
}

/// One sample. A segment without a start takes the time of the sample. Then
/// `NUL` and `(SP)` add a space to the segment; `LF ` ends it; another token
/// of one character adds that character; any other token adds nothing.
pub open spec fn scan_row(s: Scan, row: Row) -> Scan {
    let start = match s.start {
        Some(t) => t,
        None => row.time,
    };
    if row.token == nul_token() || row.token == sp_token() {
        Scan { messages: s.messages, buffer: s.buffer.push(' '), start: Some(start) }
    } else if row.token == lf_token() {
        let content = trim(s.buffer);
        Scan {
            messages: if is_message(content) {
                s.messages.push(Message { timestamp: start, content })
            } else {
                s.messages
            },
            buffer: Seq::empty(),
            start: None,
        }
    } else if row.token.len() == 1 {
        Scan { messages: s.messages, buffer: s.buffer.push(row.token[0]), start: Some(start) }
    } else {
        Scan { messages: s.messages, buffer: s.buffer, start: Some(start) }
    }
}

/// The reconstruction before the first sample.
pub open spec fn empty_scan() -> Scan {
    Scan { messages: Seq::empty(), buffer: Seq::empty(), start: None }
}

/// The samples in order, from a given standing.
pub open spec fn scan_from(s: Scan, rows: Seq<Row>) -> Scan
    decreases rows.len(),
{
    if rows.len() == 0 {
        s
    } else {
        scan_row(scan_from(s, rows.drop_last()), rows.last())
    }
}

/// The messages that a sequence of samples holds.
pub open spec fn messages_of(rows: Seq<Row>) -> Seq<Message> {
    scan_from(empty_scan(), rows).messages
}

/// Whether a segment holds exactly one colon.
pub fn validate_message_content(content: &str) -> (r: bool)
    ensures
        r == is_message(content@),
{
    let chars = chars_of(content);
    has_one_colon(&chars)
}

fn has_one_colon(chars: &Vec<char>) -> (r: bool)
    ensures
        r == is_message(chars@),
{
    let mut count: usize = 0;
    let mut i: usize = 0;
    while i < chars.len()
        invariant
            i <= chars.len(),
            count == count_char(chars@.take(i as int), ':'),
            count <= i,
        decreases chars.len() - i,
    {
        assert(chars@.take(i + 1).drop_last() == chars@.take(i as int));
        if chars[i] == ':' {
            count += 1;
        }
        i += 1;
    }
    assert(chars@.take(chars@.len() as int) == chars@);
    count == 1
}

/// Rebuilds the messages from the samples of a capture.
pub fn reconstruct_messages(rows: &Vec<LogicAnalyzerRow>) -> (r: Vec<LogMessage>)
    ensures
        message_views(r@) == messages_of(row_views(rows@)),
{
    let ghost all = row_views(rows@);
    let mut messages: Vec<LogMessage> = Vec::new();
    let mut buffer: Vec<char> = Vec::new();
    let mut start: Option<String> = None;
    let nul = vec!['N', 'U', 'L'];
    assert(nul@ =~= nul_token());
    let sp = vec!['(', 'S', 'P', ')'];
    assert(sp@ =~= sp_token());
    let lf = vec!['L', 'F', ' '];
    assert(lf@ =~= lf_token());
    let mut i: usize = 0;
    assert(all.take(0) =~= Seq::<Row>::empty());
    assert(message_views(messages@) =~= Seq::<Message>::empty());
    while i < rows.len()
        invariant
            i <= rows.len(),
            all == row_views(rows@),
            nul@ == nul_token(),
            sp@ == sp_token(),
            lf@ == lf_token(),
            scan_from(empty_scan(), all.take(i as int)).messages == message_views(messages@),
            scan_from(empty_scan(), all.take(i as int)).buffer == buffer@,
            match start {
                Some(t) => scan_from(empty_scan(), all.take(i as int)).start == Some(t@),
                None => scan_from(empty_scan(), all.take(i as int)).start is None,
            },
        decreases rows.len() - i,
    {
        assert(all.take(i + 1).drop_last() == all.take(i as int));
        assert(all.take(i + 1).last() == rows[i as int]@);
        let row = &rows[i];
        let began: String = match start {
            Some(t) => t,
            None => row.time.clone(),
        };
        let token = chars_of(row.mosi.as_str());
        if same_chars(&token, &nul) || same_chars(&token, &sp) {
            buffer.push(' ');
            start = Some(began);
        } else if same_chars(&token, &lf) {
            let content = trim_chars(&buffer);
            if has_one_colon(&content) {
                let ghost before = message_views(messages@);
                let message = LogMessage { timestamp: began, content: string_of(&content) };
                let ghost added = message@;
                messages.push(message);
                assert(message_views(messages@) =~= before.push(added));
            }
            buffer = Vec::new();
            start = None;
        } else if token.len() == 1 {
            buffer.push(token[0]);
            start = Some(began);
        } else {
            start = Some(began);
        }
        i += 1;
    }
    assert(all.take(all.len() as int) == all);
    messages
}

/// What one record gives: a sample, or the first thing that is wrong with
/// it. `i` is the index of the record.
pub open spec fn row_of(fields: Seq<Seq<char>>, time_at: int, mosi_at: int, i: int) -> Result<
    Row,
    LogicError,
> {
    if time_at >= fields.len() {
        Err(LogicError::MissingTimeField(i as usize))
    } else if !is_time_text(fields[time_at]) {
        Err(LogicError::BadTime(i as usize))
    } else if mosi_at >= fields.len() {
        Err(LogicError::MissingMosiField(i as usize))
    } else {
        Ok(Row { time: fields[time_at], token: fields[mosi_at] })
    }
}

/// The samples that the records give, or the error of the first record
/// that gives none.
pub open spec fn rows_of(records: Seq<Option<Seq<Seq<char>>>>, time_at: int, mosi_at: int) -> Result<
    Seq<Row>,
    LogicError,
>
    decreases records.len(),
{
    if records.len() == 0 {
        Ok(Seq::empty())
    } else {
        match rows_of(records.drop_last(), time_at, mosi_at) {
            Err(e) => Err(e),
            Ok(rows) => match records.last() {
                None => Err(LogicError::CsvRecord((records.len() - 1) as usize)),
                Some(fields) => match row_of(fields, time_at, mosi_at, records.len() - 1) {
                    Err(e) => Err(e),
                    Ok(row) => Ok(rows.push(row)),
                },
            },
        }
    }
}

proof fn lemma_rows_error_stays(
    records: Seq<Option<Seq<Seq<char>>>>,
    k: int,
    time_at: int,
    mosi_at: int,
)
    requires
        0 <= k <= records.len(),
        rows_of(records.take(k), time_at, mosi_at) is Err,
    ensures
        rows_of(records, time_at, mosi_at) == rows_of(records.take(k), time_at, mosi_at),
    decreases records.len() - k,
{
    if k == records.len() {
        assert(records.take(k) == records);
    } else {
        assert(records.drop_last().take(k) == records.take(k));
        lemma_rows_error_stays(records.drop_last(), k, time_at, mosi_at);
    }
}

/// The messages of a capture, given its header row and its records as the
/// CSV reader hands them out.
pub open spec fn messages_of_table(
    header: Option<Seq<Seq<char>>>,
    records: Seq<Option<Seq<Seq<char>>>>,
) -> Result<Seq<Message>, LogicError> {
    match header {
        None => Err(LogicError::Csv),
        Some(h) => if column_index(h, time_column()) < 0 {
            Err(LogicError::MissingTimeColumn)
        } else if column_index(h, mosi_column()) < 0 {
            Err(LogicError::MissingMosiColumn)
        } else {
            match rows_of(records, column_index(h, time_column()), column_index(h, mosi_column())) {
                Err(e) => Err(e),
                Ok(rows) => Ok(messages_of(rows)),
            }
        },
    }
}

/// The records of a vector as values.
pub open spec fn record_views(v: Seq<Option<Vec<String>>>) -> Seq<Option<Seq<Seq<char>>>> {
    Seq::new(
        v.len(),
        |i: int|
            match v[i] {
                Some(f) => Some(string_views(f@)),
                None => None,
            },
    )
}

/// A header row as a value.
pub open spec fn header_view(h: Option<Vec<String>>) -> Option<Seq<Seq<char>>> {
    match h {
        Some(f) => Some(string_views(f@)),
        None => None,
    }
}

/// Rebuilds the messages of a capture from its header row and its records;
/// `None` stands for a row that the CSV reader could not read.
pub fn messages_from_table(header: &Option<Vec<String>>, records: &Vec<Option<Vec<String>>>) -> (r:
    Result<Vec<LogMessage>, LogicError>)
    ensures
        match r {
            Ok(m) => messages_of_table(header_view(*header), record_views(records@)) == Ok::<
                Seq<Message>,
                LogicError,
            >(message_views(m@)),
            Err(e) => messages_of_table(header_view(*header), record_views(records@)) == Err::<
                Seq<Message>,
                LogicError,
            >(e),
        },
{
    let h = match header {
        Some(h) => h,
        None => {
            return Err(LogicError::Csv);
        },
    };
    let time_name = vec!['T', 'i', 'm', 'e', ' ', '[', 's', ']'];
    assert(time_name@ =~= time_column());
    let mosi_name = vec!['M', 'O', 'S', 'I'];
    assert(mosi_name@ =~= mosi_column());
    let time_at = match find_column(h, &time_name) {
        Some(i) => i,
        None => {
            return Err(LogicError::MissingTimeColumn);
        },
    };
    let mosi_at = match find_column(h, &mosi_name) {
        Some(i) => i,
        None => {
            return Err(LogicError::MissingMosiColumn);
        },
    };
    let ghost all = record_views(records@);
    let ghost hv = string_views(h@);
    let mut rows: Vec<LogicAnalyzerRow> = Vec::new();
    let mut i: usize = 0;
    assert(all.take(0) =~= Seq::<Option<Seq<Seq<char>>>>::empty());
    assert(row_views(rows@) =~= Seq::<Row>::empty());
    while i < records.len()
        invariant
            i <= records.len(),
            all == record_views(records@),
            header_view(*header) == Some(hv),
            column_index(hv, time_column()) == time_at,
            column_index(hv, mosi_column()) == mosi_at,
            rows_of(all.take(i as int), time_at as int, mosi_at as int) == Ok::<
                Seq<Row>,
                LogicError,
            >(row_views(rows@)),
        decreases records.len() - i,
    {
        assert(all.take(i + 1).drop_last() == all.take(i as int));
        assert(all.take(i + 1).last() == all[i as int]);
        let ghost before = row_views(rows@);
        match &records[i] {
            None => {
                assert(all[i as int] is None);
                proof {
                    lemma_rows_error_stays(all, i + 1, time_at as int, mosi_at as int);
                }
                return Err(LogicError::CsvRecord(i));
            },
            Some(fields) => {
                let ghost f = string_views(fields@);
                assert(all[i as int] == Some(f));
                if time_at >= fields.len() {
                    proof {
                        lemma_rows_error_stays(all, i + 1, time_at as int, mosi_at as int);
                    }
                    return Err(LogicError::MissingTimeField(i));
                }
                assert(f[time_at as int] == fields[time_at as int]@);
                if !is_time_field(fields[time_at].as_str()) {
                    proof {
                        lemma_rows_error_stays(all, i + 1, time_at as int, mosi_at as int);
                    }
                    return Err(LogicError::BadTime(i));
                }
                if mosi_at >= fields.len() {
                    proof {
                        lemma_rows_error_stays(all, i + 1, time_at as int, mosi_at as int);
                    }
                    return Err(LogicError::MissingMosiField(i));
                }
                assert(f[mosi_at as int] == fields[mosi_at as int]@);
                let row = LogicAnalyzerRow {
                    time: fields[time_at].clone(),
                    mosi: fields[mosi_at].clone(),
                };
                let ghost added = row@;
                rows.push(row);
                assert(row_views(rows@) =~= before.push(added));
            },
        }
        i += 1;
    }
    assert(all.take(all.len() as int) == all);
    Ok(reconstruct_messages(&rows))
}

/// The messages of the CSV capture `data`.
pub open spec fn messages_of_capture(data: Seq<u8>) -> Result<Seq<Message>, LogicError> {
    messages_of_table(csv_header(data, true, true), csv_records(data, true, true))
}

/// Reads a CSV capture and rebuilds its messages. The capture has a header
/// row with the columns `Time [s]` and `MOSI`; other columns are passed over,
/// and records may differ in length.
pub fn process_logic_data(data: &[u8]) -> (r: Result<Vec<LogMessage>, LogicError>)
    ensures
        match r {
            Ok(m) => messages_of_capture(data@) == Ok::<Seq<Message>, LogicError>(
                message_views(m@),
            ),
            Err(e) => messages_of_capture(data@) == Err::<Seq<Message>, LogicError>(e),
        },
{
    let header = read_header(data, true, true);
    let records = read_records(data, true, true);
    assert(record_views(records@) =~= csv_records(data@, true, true));
    messages_from_table(&header, &records)
}

/// The type of a message: what stands before its first colon, or all of
/// it where it holds none.
pub open spec fn type_of(content: Seq<char>) -> Seq<char> {
    content.take(first_index_of(content, ':'))
}

/// Whether a text holds a colon.
pub open spec fn has_colon(content: Seq<char>) -> bool {
    first_index_of(content, ':') < content.len()
}

/// The index of the first colon of `s`, or its length.
fn colon_index(s: &Vec<char>) -> (r: usize)
    ensures
        r == first_index_of(s@, ':'),
        r <= s.len(),
{
    let mut i: usize = 0;
    assert(s@.skip(0) == s@);
    while i < s.len() && s[i] != ':'
        invariant
            i <= s.len(),
            first_index_of(s@, ':') == i + first_index_of(s@.skip(i as int), ':'),
        decreases s.len() - i,
    {
        assert(s@.skip(i as int).skip(1) == s@.skip(i + 1));
        i += 1;
    }
    i
}

fn message_type(content: &Vec<char>) -> (r: Vec<char>)
    ensures
        r@ == type_of(content@),
{
    let at = colon_index(content);
    let r = copy_range(content, 0, at);
    assert(content@.subrange(0, at as int) == content@.take(at as int));
    r
}

fn contains_type(types: &Vec<Vec<char>>, t: &Vec<char>) -> (r: bool)
    ensures
        r == views(types@).contains(t@),
{
    let mut i: usize = 0;
    while i < types.len()
        invariant
            i <= types.len(),
            forall|k: int| 0 <= k < i ==> views(types@)[k] != t@,
        decreases types.len() - i,
    {
        if same_chars(&types[i], t) {
            assert(views(types@)[i as int] == t@);
            return true;
        }
        i += 1;
    }
    false
}

fn chars_of_all(v: &Vec<String>) -> (r: Vec<Vec<char>>)
    ensures
        views(r@) == string_views(v@),
{
    let mut r: Vec<Vec<char>> = Vec::new();
    let mut i: usize = 0;
    while i < v.len()
        invariant
            i <= v.len(),
            r.len() == i,
            forall|k: int| 0 <= k < i ==> (#[trigger] r[k])@ == v[k]@,
        decreases v.len() - i,
    {
        r.push(chars_of(v[i].as_str()));
        i += 1;
    }
    assert(views(r@) =~= string_views(v@));
    r
}

fn strings_of(v: &Vec<Vec<char>>) -> (r: Vec<String>)
    ensures
        string_views(r@) == views(v@),
{
    let mut r: Vec<String> = Vec::new();
    let mut i: usize = 0;
    while i < v.len()
        invariant
            i <= v.len(),
            r.len() == i,
            forall|k: int| 0 <= k < i ==> (#[trigger] r[k])@ == v[k]@,
        decreases v.len() - i,
    {
        r.push(string_of(&v[i]));
        i += 1;
    }
    assert(string_views(r@) =~= views(v@));
    r
}

/// Whether the type of a message is one of the given types.
pub fn validate_message_type(message: &str, types: &Vec<String>) -> (r: bool)
    ensures
        r == string_views(types@).contains(type_of(message@)),
{
    let content = chars_of(message);
    let t = message_type(&content);
    let all = chars_of_all(types);
    contains_type(&all, &t)
}

/// The types of the messages that hold a colon, each once, in the order in
/// which they first occur.
pub open spec fn distinct_types(msgs: Seq<Message>) -> Seq<Seq<char>>
    decreases msgs.len(),
{
    if msgs.len() == 0 {
        Seq::empty()
    } else {
        let before = distinct_types(msgs.drop_last());
        let t = type_of(msgs.last().content);
        if has_colon(msgs.last().content) && !before.contains(t) {
            before.push(t)
        } else {
            before
        }
    }
}

/// When and how type names are taken for noise.
#[derive(Debug)]
pub struct NoiseFilter {
    /// The filter is used where there are more distinct types than this.
    pub max_types: usize,
    /// A type that holds one of these characters is noise.
    pub denylist: Vec<char>,
}

/// The characters that no type name holds.
pub open spec fn standard_denylist() -> Seq<char> {
    seq![
        '#',
        '!',
        '$',
        '%',
        '&',
        '*',
        '(',
        ')',
        '=',
        '+',
        '-',
        '_',
        '[',
        ']',
        '{',
        '}',
        ';',
        ':',
        '<',
        '>',
        '/',
        '\\',
        '?',
        '@',
        '`',
        ' ',
        '~',
    ]
}

impl NoiseFilter {
    /// The usual filter: used above 20 distinct types, with the punctuation
    /// characters and the space as denylist.
    pub fn standard() -> (r: NoiseFilter)
        ensures
            r.max_types == 20,
            r.denylist@ == standard_denylist(),
    {
        let denylist = vec![
            '#',
            '!',
            '$',
            '%',
            '&',
            '*',
            '(',
            ')',
            '=',
            '+',
            '-',
            '_',
            '[',
            ']',
            '{',
            '}',
            ';',
            ':',
            '<',
            '>',
            '/',
            '\\',
            '?',
            '@',
            '`',
            ' ',
            '~',
        ];
        assert(denylist@ =~= standard_denylist());
        NoiseFilter { max_types: 20, denylist }
    }
}

/// Whether a type name is noise: it is empty, starts with a decimal digit,
/// or holds a character of the denylist.
pub open spec fn is_noise(t: Seq<char>, deny: Seq<char>) -> bool {
    t.len() == 0 || is_digit(t[0]) || exists|k: int| 0 <= k < t.len() && deny.contains(#[trigger] t[k])
}

/// The types that are no noise, in their order.
pub open spec fn without_noise(types: Seq<Seq<char>>, deny: Seq<char>) -> Seq<Seq<char>>
    decreases types.len(),
{
    if types.len() == 0 {
        Seq::empty()
    } else if is_noise(types.last(), deny) {
        without_noise(types.drop_last(), deny)
    } else {
        without_noise(types.drop_last(), deny).push(types.last())
    }
}

/// The types that messages are kept for: all that were found, or, where
/// there are more than `max` of them, those that are no noise.
pub open spec fn allowlist(types: Seq<Seq<char>>, max: int, deny: Seq<char>) -> Seq<Seq<char>> {
    if types.len() > max {
        without_noise(types, deny)
    } else {
        types
    }
}

/// The messages whose type is among `allow`, in their order.
pub open spec fn select(msgs: Seq<Message>, allow: Seq<Seq<char>>) -> Seq<Message>
    decreases msgs.len(),
{
    if msgs.len() == 0 {
        Seq::empty()
    } else if allow.contains(type_of(msgs.last().content)) {
        select(msgs.drop_last(), allow).push(msgs.last())
    } else {
        select(msgs.drop_last(), allow)
    }
}

fn contains_char(v: &Vec<char>, c: char) -> (r: bool)
    ensures
        r == v@.contains(c),
{
    let mut i: usize = 0;
    while i < v.len()
        invariant
            i <= v.len(),
            forall|k: int| 0 <= k < i ==> v@[k] != c,
        decreases v.len() - i,
    {
        if v[i] == c {
            return true;
        }
        i += 1;
    }
    false
}

fn is_noise_type(t: &Vec<char>, deny: &Vec<char>) -> (r: bool)
    ensures
        r == is_noise(t@, deny@),
{
    if t.len() == 0 {
        return true;
    }
    let first: u32 = t[0] as u32;
    if 48 <= first && first <= 57 {
        return true;
    }
    let mut i: usize = 0;
    while i < t.len()
        invariant
            i <= t.len(),
            forall|k: int| 0 <= k < i ==> !deny@.contains(#[trigger] t@[k]),
        decreases t.len() - i,
    {
        if contains_char(deny, t[i]) {
            return true;
        }
        i += 1;
    }
    false
}

fn types_in(messages: &Vec<LogMessage>) -> (r: Vec<Vec<char>>)
    ensures
        views(r@) == distinct_types(message_views(messages@)),
{
    let ghost all = message_views(messages@);
    let mut types: Vec<Vec<char>> = Vec::new();
    let mut i: usize = 0;
    assert(all.take(0) =~= Seq::<Message>::empty());
    assert(views(types@) =~= Seq::<Seq<char>>::empty());
    while i < messages.len()
        invariant
            i <= messages.len(),
            all == message_views(messages@),
            views(types@) == distinct_types(all.take(i as int)),
        decreases messages.len() - i,
    {
        assert(all.take(i + 1).drop_last() == all.take(i as int));
        assert(all.take(i + 1).last() == messages[i as int]@);
        let content = chars_of(messages[i].content.as_str());
        let at = colon_index(&content);
        if at < content.len() {
            let t = message_type(&content);
            if !contains_type(&types, &t) {
                let ghost before = views(types@);
                let ghost added = t@;
                types.push(t);
                assert(views(types@) =~= before.push(added));
            }
        }
        i += 1;
    }
    assert(all.take(all.len() as int) == all);
    types
}

fn drop_noise(types: Vec<Vec<char>>, filter: &NoiseFilter) -> (r: Vec<Vec<char>>)
    ensures
        views(r@) == allowlist(views(types@), filter.max_types as int, filter.denylist@),
{
    if types.len() <= filter.max_types {
        return types;
    }
    let ghost all = views(types@);
    let mut kept: Vec<Vec<char>> = Vec::new();
    let mut i: usize = 0;
    assert(all.take(0) =~= Seq::<Seq<char>>::empty());
    assert(views(kept@) =~= Seq::<Seq<char>>::empty());
    while i < types.len()
        invariant
            i <= types.len(),
            all == views(types@),
            views(kept@) == without_noise(all.take(i as int), filter.denylist@),
        decreases types.len() - i,
    {
        assert(all.take(i + 1).drop_last() == all.take(i as int));
        assert(all.take(i + 1).last() == types[i as int]@);
        if !is_noise_type(&types[i], &filter.denylist) {
            let ghost before = views(kept@);
            let t = types[i].clone();
            assert(t@ =~= types[i as int]@);
            kept.push(t);
            assert(views(kept@) =~= before.push(types[i as int]@));
        }
        i += 1;
    }
    assert(all.take(all.len() as int) == all);
    kept
}

/// Finds the message types of a capture: the distinct types of its
/// messages, without the noise where there are more than the filter allows.
pub fn discover_types(messages: &Vec<LogMessage>, filter: &NoiseFilter) -> (r: Vec<String>)
    ensures
        string_views(r@) == allowlist(
            distinct_types(message_views(messages@)),
            filter.max_types as int,
            filter.denylist@,
        ),
{
    let found = types_in(messages);
    let kept = drop_noise(found, filter);
    strings_of(&kept)
}

/// Keeps the messages whose type is among `types`.
pub fn filter_messages(messages: &Vec<LogMessage>, types: &Vec<String>) -> (r: Vec<LogMessage>)
    ensures
        message_views(r@) == select(message_views(messages@), string_views(types@)),
{
    let ghost all = message_views(messages@);
    let allow = chars_of_all(types);
    let mut kept: Vec<LogMessage> = Vec::new();
    let mut i: usize = 0;
    assert(all.take(0) =~= Seq::<Message>::empty());
    assert(message_views(kept@) =~= Seq::<Message>::empty());
    while i < messages.len()
        invariant
            i <= messages.len(),
            all == message_views(messages@),
            views(allow@) == string_views(types@),
            message_views(kept@) == select(all.take(i as int), string_views(types@)),
        decreases messages.len() - i,
    {
        assert(all.take(i + 1).drop_last() == all.take(i as int));
        assert(all.take(i + 1).last() == messages[i as int]@);
        let content = chars_of(messages[i].content.as_str());
        let t = message_type(&content);
        if contains_type(&allow, &t) {
            let ghost before = message_views(kept@);
            let copy = LogMessage {
                timestamp: messages[i].timestamp.clone(),
                content: messages[i].content.clone(),
            };
            assert(copy@ == messages[i as int]@);
            kept.push(copy);
            assert(message_views(kept@) =~= before.push(messages[i as int]@));
        }
        i += 1;
    }
    assert(all.take(all.len() as int) == all);
    kept
}

/// What a capture gives: its messages of the allowed types, in the order of
/// the capture, and the allowed types.
#[derive(Debug)]
pub struct Preprocessed {
    pub messages: Vec<LogMessage>,
    pub types: Vec<String>,
}

/// Reads a CSV capture, rebuilds its messages, finds their types with the
/// usual noise filter, and keeps the messages of those types.
pub fn analyze_thread_preprocess(data: &[u8]) -> (r: Result<Preprocessed, LogicError>)
    ensures
        match r {
            Ok(p) => messages_of_capture(data@) is Ok && string_views(p.types@) == allowlist(
                distinct_types(messages_of_capture(data@)->Ok_0),
                20,
                standard_denylist(),
            ) && message_views(p.messages@) == select(
                messages_of_capture(data@)->Ok_0,
                string_views(p.types@),
            ),
            Err(e) => messages_of_capture(data@) == Err::<Seq<Message>, LogicError>(e),
        },
{
    let found = match process_logic_data(data) {
        Ok(m) => m,
        Err(e) => {
            return Err(e);
        },
    };
    let filter = NoiseFilter::standard();
    let types = discover_types(&found, &filter);
    let messages = filter_messages(&found, &types);
    Ok(Preprocessed { messages, types })
}

/// One line of the output: the time of the message in square brackets,
/// written in seconds with six decimals, and right behind it the text of the
/// message.
pub open spec fn output_line_of(seconds: Seq<char>, content: Seq<char>) -> Seq<char> {
    seq!['['] + seconds + seq![']'] + content
}

/// Makes the output line of a message from its time, as it is to be printed,
/// and its text.
pub fn output_line(seconds: &str, content: &str) -> (r: String)
    ensures
        r@ == output_line_of(seconds@, content@),
{
    let mut line: Vec<char> = Vec::new();
    line.push('[');
    let time = chars_of(seconds);
    let text = chars_of(content);
    let mut i: usize = 0;
    while i < time.len()
        invariant
            i <= time.len(),
            line@ == seq!['['] + time@.take(i as int),
        decreases time.len() - i,
    {
        line.push(time[i]);
        i += 1;
        assert(line@ =~= seq!['['] + time@.take(i as int));
    }
    assert(time@.take(time@.len() as int) == time@);
    line.push(']');
    let ghost head = line@;
    let mut k: usize = 0;
    while k < text.len()
        invariant
            k <= text.len(),
            line@ == head + text@.take(k as int),
        decreases text.len() - k,
    {
        line.push(text[k]);
        k += 1;
        assert(line@ =~= head + text@.take(k as int));
    }
    assert(text@.take(text@.len() as int) == text@);
    assert(line@ =~= output_line_of(seconds@, content@));
    string_of(&line)
}

/// Whether a token stands for a space.
pub open spec fn is_space_token(token: Seq<char>) -> bool {
    token == nul_token() || token == sp_token()
}

/// `NUL` and `(SP)` weigh the same: each such token adds one space to the
/// segment, so that a run of them adds as many spaces as it has tokens, and
/// no message.
pub proof fn lemma_space_run_adds_spaces(s: Scan, rows: Seq<Row>)
    requires
        forall|i: int| 0 <= i < rows.len() ==> is_space_token((#[trigger] rows[i]).token),
    ensures
        scan_from(s, rows).buffer == s.buffer + Seq::new(rows.len(), |i: int| ' '),
        scan_from(s, rows).messages == s.messages,
    decreases rows.len(),
{
    if rows.len() == 0 {
        assert(s.buffer + Seq::new(0, |i: int| ' ') =~= s.buffer);
    } else {
        let head = rows.drop_last();
        assert forall|i: int| 0 <= i < head.len() implies is_space_token(
            (#[trigger] head[i]).token,
        ) by {
            assert(head[i] == rows[i]);
        }
        lemma_space_run_adds_spaces(s, head);
        assert(is_space_token(rows[rows.len() - 1].token));
        assert(scan_from(s, rows).buffer =~= s.buffer + Seq::new(rows.len(), |i: int| ' '));
    }
}

/// One `NUL` or `(SP)` token before a character gives a single space before
/// that character, whichever of the two tokens it is.
pub proof fn lemma_one_space_token_gives_one_space(s: Scan, space: Row, next: Row)
    requires
        is_space_token(space.token),
        next.token.len() == 1,
    ensures
        scan_row(scan_row(s, space), next).buffer == s.buffer.push(' ').push(next.token[0]),
        scan_row(scan_row(s, space), next).messages == s.messages,
{
    assert(nul_token().len() == 3);
    assert(sp_token().len() == 4);
    assert(lf_token().len() == 3);
}

proof fn lemma_without_noise(types: Seq<Seq<char>>, deny: Seq<char>, t: Seq<char>)
    requires
        without_noise(types, deny).contains(t),
    ensures
        !is_noise(t, deny),
        types.contains(t),
    decreases types.len(),
{
    if types.len() > 0 {
        let head = types.drop_last();
        if !is_noise(types.last(), deny) && t == types.last() {
            assert(types[types.len() - 1] == t);
        } else {
            let kept = without_noise(head, deny);
            let k = choose|k: int| 0 <= k < without_noise(types, deny).len() && without_noise(
                types,
                deny,
            )[k] == t;
            assert(kept[k] == t);
            lemma_without_noise(head, deny, t);
            let j = choose|j: int| 0 <= j < head.len() && head[j] == t;
            assert(types[j] == t);
        }
    }
}

proof fn lemma_select(msgs: Seq<Message>, allow: Seq<Seq<char>>, i: int)
    requires
        0 <= i < select(msgs, allow).len(),
    ensures
        allow.contains(type_of(select(msgs, allow)[i].content)),
        msgs.contains(select(msgs, allow)[i]),
    decreases msgs.len(),
{
    if msgs.len() > 0 {
        let head = msgs.drop_last();
        if allow.contains(type_of(msgs.last().content)) && i == select(head, allow).len() {
            assert(msgs[msgs.len() - 1] == select(msgs, allow)[i]);
        } else {
            lemma_select(head, allow, i);
            let j = choose|j: int| 0 <= j < head.len() && head[j] == select(head, allow)[i];
            assert(msgs[j] == select(msgs, allow)[i]);
        }
    }
}

/// Where a capture holds more distinct types than the filter allows, no
/// type that is noise is in the allowlist, and no message of such a type is
/// kept.
pub proof fn lemma_noise_is_filtered(msgs: Seq<Message>, max: int, deny: Seq<char>)
    requires
        distinct_types(msgs).len() > max,
    ensures
        forall|t: Seq<char>| #[trigger]
            allowlist(distinct_types(msgs), max, deny).contains(t) ==> !is_noise(t, deny),
        forall|i: int|
            0 <= i < select(msgs, allowlist(distinct_types(msgs), max, deny)).len() ==> !is_noise(
                type_of(
                    (#[trigger] select(msgs, allowlist(distinct_types(msgs), max, deny))[i]).content,
                ),
                deny,
            ),
{
    let allow = allowlist(distinct_types(msgs), max, deny);
    assert forall|t: Seq<char>| #[trigger] allow.contains(t) implies !is_noise(t, deny) by {
        lemma_without_noise(distinct_types(msgs), deny, t);
    }
    assert forall|i: int| 0 <= i < select(msgs, allow).len() implies !is_noise(
        type_of((#[trigger] select(msgs, allow)[i]).content),
        deny,
    ) by {
        lemma_select(msgs, allow, i);
        lemma_without_noise(distinct_types(msgs), deny, type_of(select(msgs, allow)[i].content));
    }
}

/// Every message that is rebuilt holds exactly one colon, so that it is
/// never empty.
pub proof fn lemma_messages_are_well_formed(s: Scan, rows: Seq<Row>)
    requires
        forall|i: int|
            0 <= i < s.messages.len() ==> is_message((#[trigger] s.messages[i]).content)
                && s.messages[i].content.len() > 0,
    ensures
        forall|i: int|
            0 <= i < scan_from(s, rows).messages.len() ==> is_message(
                (#[trigger] scan_from(s, rows).messages[i]).content,
            ) && scan_from(s, rows).messages[i].content.len() > 0,
    decreases rows.len(),
{
    if rows.len() > 0 {
        lemma_messages_are_well_formed(s, rows.drop_last());
    }
}

} // verus!
