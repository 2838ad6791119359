//! Transcoder from a textual HCI trace to the BTSnoop capture format.
//!
//! A trace line has the shape `[HH:MM:SS.ffffff] <CMD|ACL|EVT> <=>|<=> <hex
//! bytes...>`. Each such line becomes one BTSnoop record; every other line is
//! passed over.

use crate::number::{all_hex, decimal_u32, hex_value, is_digit, parse_decimal, parse_hex};
use crate::text::{
    chars_of, copy_range, find_last, last_index_of, push_char, split_fields, split_on,
    split_words, string_of, views, words,
};
use crate::utils::{
    all_ascii, ascii_only, capture_lines, decodable, is_ascii_char, keep_ascii, read_lines,
    TextError,
};
use vstd::prelude::*;

verus! {

/// The kind of an HCI packet.
#[derive(Clone, Copy, Debug, PartialEq, Eq, Structural)]
pub enum PacketType {
    Cmd,
    Acl,
    Evt,
}

/// The way a packet travelled: `=>` is out to the controller, `<=` is in
/// from it.
#[derive(Clone, Copy, Debug, PartialEq, Eq, Structural)]
pub enum Direction {
    Out,
    In,
}

/// What happens to a well-formed line whose time stamp cannot be read or
/// whose packet type and direction have no flags value.
#[derive(Clone, Copy, Debug, PartialEq, Eq, Structural)]
pub enum MismatchPolicy {
    /// The line is passed over and the run goes on.
    Skip,
    /// The whole run fails.
    Abort,
}

/// How a trace is read.
#[derive(Clone, Copy, Debug)]
pub struct HciLogOptions {
    /// Strip a leading vendor time stamp `(HH:MM:SS.mmm)` from each line.
    pub bluetrum_ts: bool,
    /// Drop this many leading characters from each line.
    pub skip_chars: u32,
    /// What a line that cannot be mapped does to the run.
    pub on_mismatch: MismatchPolicy,
}

impl HciLogOptions {
    /// Options with the lenient policy: a line that cannot be mapped is
    /// passed over.
    pub fn new(bluetrum_ts: bool, skip_chars: u32) -> (r: HciLogOptions)
        ensures
            r.bluetrum_ts == bluetrum_ts,
            r.skip_chars == skip_chars,
            r.on_mismatch == MismatchPolicy::Skip,
    {
        HciLogOptions { bluetrum_ts, skip_chars, on_mismatch: MismatchPolicy::Skip }
    }
}

/// Why a time stamp could not be read.
#[derive(Clone, Copy, Debug, PartialEq, Eq, Structural)]
pub enum TimestampError {
    /// Not of the shape `H:M:S.F`.
    Format,
    Hours,
    Minutes,
    Seconds,
    Microseconds,
    /// The time does not fit in 64 bits.
    Overflow,
}

impl TimestampError {
    /// The text of the error.
    pub open spec fn text(&self) -> Seq<char> {
        match self {
            TimestampError::Format => "Invalid timestamp format"@,
            TimestampError::Hours => "Failed to parse hours"@,
            TimestampError::Minutes => "Failed to parse minutes"@,
            TimestampError::Seconds => "Failed to parse seconds"@,
            TimestampError::Microseconds => "Failed to parse microseconds"@,
            TimestampError::Overflow => "Timestamp out of range"@,
        }
    }

    /// The text of the error as a string.
    pub fn message(&self) -> (s: String)
        ensures
            s@ == self.text(),
    {
        match self {
            TimestampError::Format => "Invalid timestamp format".to_owned(),
            TimestampError::Hours => "Failed to parse hours".to_owned(),
            TimestampError::Minutes => "Failed to parse minutes".to_owned(),
            TimestampError::Seconds => "Failed to parse seconds".to_owned(),
            TimestampError::Microseconds => "Failed to parse microseconds".to_owned(),
            TimestampError::Overflow => "Timestamp out of range".to_owned(),
        }
    }
}

/// Why a run failed.
#[derive(Clone, Copy, Debug, PartialEq, Eq, Structural)]
pub enum HciError {
    /// The trace could not be decoded to text.
    Text(TextError),
    /// A well-formed line holds a time stamp that cannot be read.
    Timestamp(TimestampError),
    /// A well-formed line holds a packet type and direction without a flags
    /// value.
    UnknownCombination(PacketType, Direction),
}

impl HciError {
    /// The text of the error.
    pub open spec fn text(&self) -> Seq<char> {
        match self {
            HciError::Text(e) => e.text(),
            HciError::Timestamp(e) => e.text(),
            HciError::UnknownCombination(_, _) => "Unknown packet type or direction"@,
        }
    }

    /// The text of the error as a string.
    pub fn message(&self) -> (s: String)
        ensures
            s@ == self.text(),
    {
        match self {
            HciError::Text(e) => e.message(),
            HciError::Timestamp(e) => e.message(),
            HciError::UnknownCombination(_, _) => "Unknown packet type or direction".to_owned(),
        }
    }
}

/// Microseconds between the zero of BTSnoop time and the Unix epoch.
pub const BTSNOOP_EPOCH_OFFSET: u64 = 0x00DC_DDB3_0F2F_8000;

/// The time of day that a time stamp names.
#[derive(Clone, Copy, Debug, PartialEq, Eq, Structural)]
pub struct Clock {
    pub hours: u32,
    pub minutes: u32,
    pub seconds: u32,
    pub micros: u32,
}

/// The packet type that a token names.
pub open spec fn packet_type_of(tok: Seq<char>) -> Option<PacketType> {
    if tok == seq!['C', 'M', 'D'] {
        Some(PacketType::Cmd)
    } else if tok == seq!['A', 'C', 'L'] {
        Some(PacketType::Acl)
    } else if tok == seq!['E', 'V', 'T'] {
        Some(PacketType::Evt)
    } else {
        None
    }
}

/// The direction that a token names.
pub open spec fn direction_of(tok: Seq<char>) -> Option<Direction> {
    if tok == seq!['=', '>'] {
        Some(Direction::Out)
    } else if tok == seq!['<', '='] {
        Some(Direction::In)
    } else {
        None
    }
}

/// The H4 framing byte of a packet type.
pub open spec fn h4_header(p: PacketType) -> u8 {
    match p {
        PacketType::Cmd => 0x01,
        PacketType::Acl => 0x02,
        PacketType::Evt => 0x04,
    }
}

/// The BTSnoop flags of a packet type and direction, where there are any.
pub open spec fn record_flags(p: PacketType, d: Direction) -> Option<u32> {
    match (p, d) {
        (PacketType::Cmd, Direction::Out) => Some(0x02),
        (PacketType::Evt, Direction::In) => Some(0x03),
        (PacketType::Acl, Direction::Out) => Some(0x00),
        (PacketType::Acl, Direction::In) => Some(0x01),
        _ => None,
    }
}

/// Reads a packet type: `CMD`, `ACL` or `EVT`.
pub fn packet_type(tok: &Vec<char>) -> (r: Option<PacketType>)
    ensures
        r == packet_type_of(tok@),
{
    if tok.len() != 3 {
        return None;
    }
    if tok[0] == 'C' && tok[1] == 'M' && tok[2] == 'D' {
        assert(tok@ =~= seq!['C', 'M', 'D']);
        Some(PacketType::Cmd)
    } else if tok[0] == 'A' && tok[1] == 'C' && tok[2] == 'L' {
        assert(tok@ =~= seq!['A', 'C', 'L']);
        Some(PacketType::Acl)
    } else if tok[0] == 'E' && tok[1] == 'V' && tok[2] == 'T' {
        assert(tok@ =~= seq!['E', 'V', 'T']);
        Some(PacketType::Evt)
    } else {
        None
    }
}

/// Reads a direction: `=>` or `<=`.
pub fn direction(tok: &Vec<char>) -> (r: Option<Direction>)
    ensures
        r == direction_of(tok@),
{
    if tok.len() != 2 {
        return None;
    }
    if tok[0] == '=' && tok[1] == '>' {
        assert(tok@ =~= seq!['=', '>']);
        Some(Direction::Out)
    } else if tok[0] == '<' && tok[1] == '=' {
        assert(tok@ =~= seq!['<', '=']);
        Some(Direction::In)
    } else {
        None
    }
}

/// The framing byte that goes before the payload of a packet.
pub fn framing_byte(p: PacketType) -> (r: u8)
    ensures
        r == h4_header(p),
{
    match p {
        PacketType::Cmd => 0x01,
        PacketType::Acl => 0x02,
        PacketType::Evt => 0x04,
    }
}

/// The flags field of the record of a packet.
pub fn flags_for(p: PacketType, d: Direction) -> (r: Option<u32>)
    ensures
        r == record_flags(p, d),
{
    match (p, d) {
        (PacketType::Cmd, Direction::Out) => Some(0x02),
        (PacketType::Evt, Direction::In) => Some(0x03),
        (PacketType::Acl, Direction::Out) => Some(0x00),
        (PacketType::Acl, Direction::In) => Some(0x01),
        _ => None,
    }
}

/// Whether a token is one byte written as exactly two hexadecimal digits.
pub open spec fn is_byte_token(tok: Seq<char>) -> bool {
    tok.len() == 2 && all_hex(tok)
}

/// The byte that a byte token denotes.
pub open spec fn byte_value(tok: Seq<char>) -> u8 {
    hex_value(tok) as u8
}

/// Whether the tokens of a line make up a trace line: a bracketed time
/// stamp, a packet type, a direction, and at least one byte token.
pub open spec fn valid_parts(parts: Seq<Seq<char>>) -> bool {
    &&& parts.len() >= 4
    &&& parts[0].len() > 0
    &&& parts[0].first() == '['
    &&& parts[0].last() == ']'
    &&& packet_type_of(parts[1]) is Some
    &&& direction_of(parts[2]) is Some
    &&& forall|i: int| 3 <= i < parts.len() ==> is_byte_token(#[trigger] parts[i])
}

/// Whether a line is a trace line.
pub open spec fn valid_line(line: Seq<char>) -> bool {
    valid_parts(words(line, false))
}

/// The payload bytes that the tokens of a trace line denote.
pub open spec fn payload_of(parts: Seq<Seq<char>>) -> Seq<u8> {
    Seq::new((parts.len() - 3) as nat, |i: int| byte_value(parts[i + 3]))
}

/// Reads the byte tokens of a line, from the fourth token on.
fn read_payload(parts: &Vec<Vec<char>>) -> (r: Option<Vec<u8>>)
    requires
        parts.len() >= 3,
    ensures
        r is Some <==> forall|i: int|
            3 <= i < parts.len() ==> is_byte_token(#[trigger] views(parts@)[i]),
        r matches Some(p) ==> p@ == payload_of(views(parts@)),
{
    let mut out: Vec<u8> = Vec::new();
    let mut i: usize = 3;
    while i < parts.len()
        invariant
            3 <= i <= parts.len(),
            out.len() == i - 3,
            forall|k: int| 3 <= k < i ==> is_byte_token(#[trigger] views(parts@)[k]),
            forall|k: int| 0 <= k < i - 3 ==> out@[k] == byte_value(views(parts@)[k + 3]),
        decreases parts.len() - i,
    {
        assert(views(parts@)[i as int] == parts[i as int]@);
        match parse_hex(&parts[i], 2) {
            Some(v) => {
                out.push(v as u8);
            },
            None => {
                assert(!is_byte_token(views(parts@)[i as int]));
                return None;
            },
        }
        i += 1;
    }
    assert(out@ =~= payload_of(views(parts@)));
    Some(out)
}

fn is_valid_parts(parts: &Vec<Vec<char>>) -> (r: bool)
    ensures
        r == valid_parts(views(parts@)),
{
    if parts.len() < 4 {
        return false;
    }
    assert(views(parts@)[0] == parts[0]@);
    assert(views(parts@)[1] == parts[1]@);
    assert(views(parts@)[2] == parts[2]@);
    let stamp = &parts[0];
    if stamp.len() == 0 || stamp[0] != '[' || stamp[stamp.len() - 1] != ']' {
        return false;
    }
    if packet_type(&parts[1]).is_none() {
        return false;
    }
    if direction(&parts[2]).is_none() {
        return false;
    }
    read_payload(parts).is_some()
}

/// Whether a line is a trace line.
pub fn is_valid_line(line: &str) -> (r: bool)
    ensures
        r == valid_line(line@),
{
    let chars = chars_of(line);
    let parts = split_words(&chars, false);
    is_valid_parts(&parts)
}

/// `s` without the characters `c` at its start.
pub open spec fn strip_leading(s: Seq<char>, c: char) -> Seq<char>
    decreases s.len(),
{
    if s.len() > 0 && s[0] == c {
        strip_leading(s.skip(1), c)
    } else {
        s
    }
}

/// `s` without the characters `c` at its end.
pub open spec fn strip_trailing(s: Seq<char>, c: char) -> Seq<char>
    decreases s.len(),
{
    if s.len() > 0 && s.last() == c {
        strip_trailing(s.drop_last(), c)
    } else {
        s
    }
}

/// A time stamp token without the brackets round it.
pub open spec fn bracket_stripped(tok: Seq<char>) -> Seq<char> {
    strip_trailing(strip_leading(tok, '['), ']')
}

fn strip_brackets(s: &Vec<char>) -> (r: Vec<char>)
    ensures
        r@ == bracket_stripped(s@),
{
    let n = s.len();
    let mut i: usize = 0;
    assert(s@.skip(0) == s@);
    while i < n && s[i] == '['
        invariant
            n == s.len(),
            i <= n,
            strip_leading(s@, '[') == strip_leading(s@.skip(i as int), '['),
        decreases n - i,
    {
        assert(s@.skip(i as int).skip(1) == s@.skip(i + 1));
        i += 1;
    }
    assert(strip_leading(s@, '[') == s@.skip(i as int));
    assert(s@.skip(i as int) == s@.subrange(i as int, n as int));
    let mut j: usize = n;
    while j > i && s[j - 1] == ']'
        invariant
            n == s.len(),
            i <= j <= n,
            bracket_stripped(s@) == strip_trailing(s@.subrange(i as int, j as int), ']'),
        decreases j,
    {
        assert(s@.subrange(i as int, j as int).drop_last() == s@.subrange(i as int, j - 1));
        j -= 1;
    }
    copy_range(s, i, j)
}

/// The time of day in a time stamp token: hours, minutes and seconds
/// between colons, then a full stop and the microseconds, each an unsigned
/// decimal number.
pub open spec fn clock_of(tok: Seq<char>) -> Result<Clock, TimestampError> {
    let parts = split_on(bracket_stripped(tok), '.');
    if parts.len() != 2 {
        Err(TimestampError::Format)
    } else {
        let hms = split_on(parts[0], ':');
        if hms.len() != 3 {
            Err(TimestampError::Format)
        } else {
            match decimal_u32(hms[0]) {
                None => Err(TimestampError::Hours),
                Some(hours) => match decimal_u32(hms[1]) {
                    None => Err(TimestampError::Minutes),
                    Some(minutes) => match decimal_u32(hms[2]) {
                        None => Err(TimestampError::Seconds),
                        Some(seconds) => match decimal_u32(parts[1]) {
                            None => Err(TimestampError::Microseconds),
                            Some(micros) => Ok(Clock { hours, minutes, seconds, micros }),
                        },
                    },
                },
            }
        }
    }
}

/// Reads the time of day from a time stamp token.
pub fn parse_clock(tok: &Vec<char>) -> (r: Result<Clock, TimestampError>)
    ensures
        r == clock_of(tok@),
{
    let inner = strip_brackets(tok);
    let parts = split_fields(&inner, '.');
    if parts.len() != 2 {
        return Err(TimestampError::Format);
    }
    assert(views(parts@)[0] == parts[0]@);
    assert(views(parts@)[1] == parts[1]@);
    let hms = split_fields(&parts[0], ':');
    if hms.len() != 3 {
        return Err(TimestampError::Format);
    }
    assert(views(hms@)[0] == hms[0]@);
    assert(views(hms@)[1] == hms[1]@);
    assert(views(hms@)[2] == hms[2]@);
    let hours = match parse_decimal(&hms[0]) {
        Some(v) => v,
        None => {
            return Err(TimestampError::Hours);
        },
    };
    let minutes = match parse_decimal(&hms[1]) {
        Some(v) => v,
        None => {
            return Err(TimestampError::Minutes);
        },
    };
    let seconds = match parse_decimal(&hms[2]) {
        Some(v) => v,
        None => {
            return Err(TimestampError::Seconds);
        },
    };
    let micros = match parse_decimal(&parts[1]) {
        Some(v) => v,
        None => {
            return Err(TimestampError::Microseconds);
        },
    };
    Ok(Clock { hours, minutes, seconds, micros })
}

/// The BTSnoop time of a record: the seconds of the capture's last change
/// plus the time of day, in microseconds, plus the microseconds of the time
/// stamp, moved to the BTSnoop epoch.
pub open spec fn stamp_value(modified: u64, c: Clock) -> int {
    (modified + c.hours * 3600 + c.minutes * 60 + c.seconds) * 1_000_000 + c.micros
        + BTSNOOP_EPOCH_OFFSET
}

/// The BTSnoop time that a time stamp token names.
pub open spec fn timestamp_of(modified: u64, tok: Seq<char>) -> Result<u64, TimestampError> {
    match clock_of(tok) {
        Err(e) => Err(e),
        Ok(c) => if stamp_value(modified, c) <= u64::MAX {
            Ok(stamp_value(modified, c) as u64)
        } else {
            Err(TimestampError::Overflow)
        },
    }
}

fn timestamp_from(modified: u64, tok: &Vec<char>) -> (r: Result<u64, TimestampError>)
    ensures
        r == timestamp_of(modified, tok@),
{
    let c = match parse_clock(tok) {
        Ok(c) => c,
        Err(e) => {
            return Err(e);
        },
    };
    let day: u128 = modified as u128 + c.hours as u128 * 3600 + c.minutes as u128 * 60
        + c.seconds as u128;
    let total: u128 = day * 1_000_000 + c.micros as u128 + BTSNOOP_EPOCH_OFFSET as u128;
    if total <= u64::MAX as u128 {
        Ok(total as u64)
    } else {
        Err(TimestampError::Overflow)
    }
}

/// Reads the time stamp `[H:M:S.F]` of a line and gives its BTSnoop time,
/// where `modified` is the capture's last change in seconds since the Unix
/// epoch.
pub fn parse_timestamp(modified: u64, timestamp_str: &str) -> (r: Result<u64, TimestampError>)
    ensures
        r == timestamp_of(modified, timestamp_str@),
{
    let chars = chars_of(timestamp_str);
    timestamp_from(modified, &chars)
}

/// A trace line read into its parts. The payload holds one byte for each
/// byte token of the line.
#[derive(Debug)]
pub struct HciLine {
    pub clock: Clock,
    pub packet_type: PacketType,
    pub direction: Direction,
    pub payload: Vec<u8>,
}

/// Whether a line can be read into its parts: it is a trace line, and its
/// time stamp names a time of day.
pub open spec fn readable_line(line: Seq<char>) -> bool {
    valid_line(line) && clock_of(words(line, false)[0]) is Ok
}

/// Reads a trace line into its parts, or gives `None` for any other line.
pub fn read_hci_line(line: &str) -> (r: Option<HciLine>)
    ensures
        r is Some <==> readable_line(line@),
        r matches Some(h) ==> {
            let parts = words(line@, false);
            &&& Ok::<Clock, TimestampError>(h.clock) == clock_of(parts[0])
            &&& Some(h.packet_type) == packet_type_of(parts[1])
            &&& Some(h.direction) == direction_of(parts[2])
            &&& h.payload@ == payload_of(parts)
        },
{
    let chars = chars_of(line);
    let parts = split_words(&chars, false);
    if !is_valid_parts(&parts) {
        return None;
    }
    assert(views(parts@)[0] == parts[0]@);
    assert(views(parts@)[1] == parts[1]@);
    assert(views(parts@)[2] == parts[2]@);
    let clock = match parse_clock(&parts[0]) {
        Ok(c) => c,
        Err(_) => {
            return None;
        },
    };
    let p = match packet_type(&parts[1]) {
        Some(p) => p,
        None => {
            return None;
        },
    };
    let d = match direction(&parts[2]) {
        Some(d) => d,
        None => {
            return None;
        },
    };
    match read_payload(&parts) {
        Some(payload) => Some(HciLine { clock, packet_type: p, direction: d, payload }),
        None => None,
    }
}

/// A path without its extension: what stands before the last full stop,
/// where that full stop comes after the last slash.
pub open spec fn without_extension(path: Seq<char>) -> Seq<char> {
    let dot = last_index_of(path, '.');
    let sep = last_index_of(path, '/');
    if dot >= 0 && dot > sep {
        path.take(dot)
    } else {
        path
    }
}

/// Removes the extension of a path.
pub fn remove_extension(path: &str) -> (r: String)
    ensures
        r@ == without_extension(path@),
{
    let chars = chars_of(path);
    match find_last(&chars, '.') {
        Some(dot) => {
            let keep = match find_last(&chars, '/') {
                Some(sep) => dot > sep,
                None => true,
            };
            if keep {
                let head = copy_range(&chars, 0, dot);
                assert(chars@.subrange(0, dot as int) == chars@.take(dot as int));
                string_of(&head)
            } else {
                string_of(&chars)
            }
        },
        None => string_of(&chars),
    }
}

/// The path of the capture that is written for a trace: the path of the
/// trace with `.cfa` in place of its extension.
pub fn cfa_path(path: &str) -> (r: String)
    ensures
        r@ == without_extension(path@) + seq!['.', 'c', 'f', 'a'],
{
    let mut r = remove_extension(path);
    let ghost stem = r@;
    push_char(&mut r, '.');
    push_char(&mut r, 'c');
    push_char(&mut r, 'f');
    push_char(&mut r, 'a');
    assert(r@ =~= stem + seq!['.', 'c', 'f', 'a']);
    r
}

/// A 32-bit number in four bytes, the most significant first.
pub open spec fn be32(v: u32) -> Seq<u8> {
    seq![
        (v / 0x100_0000) as u8,
        ((v / 0x1_0000) % 0x100) as u8,
        ((v / 0x100) % 0x100) as u8,
        (v % 0x100) as u8,
    ]
}

/// A 64-bit number in eight bytes, the most significant first.
pub open spec fn be64(v: u64) -> Seq<u8> {
    be32((v / 0x1_0000_0000) as u32) + be32((v % 0x1_0000_0000) as u32)
}

fn push_be32(out: &mut Vec<u8>, v: u32)
    ensures
        final(out)@ == old(out)@ + be32(v),
{
    out.push((v / 0x100_0000) as u8);
    out.push(((v / 0x1_0000) % 0x100) as u8);
    out.push(((v / 0x100) % 0x100) as u8);
    out.push((v % 0x100) as u8);
    assert(out@ =~= old(out)@ + be32(v));
}

fn push_be64(out: &mut Vec<u8>, v: u64)
    ensures
        final(out)@ == old(out)@ + be64(v),
{
    push_be32(out, (v / 0x1_0000_0000) as u32);
    push_be32(out, (v % 0x1_0000_0000) as u32);
    assert(out@ =~= old(out)@ + be64(v));
}

/// The 16 bytes at the start of a BTSnoop capture: `btsnoop` and a zero
/// byte, version 1, data link type 1002 (HCI UART, H4).
pub open spec fn btsnoop_header() -> Seq<u8> {
    seq![0x62u8, 0x74, 0x73, 0x6E, 0x6F, 0x6F, 0x70, 0x00] + be32(1) + be32(1002)
}

/// The bytes at the start of every capture.
pub fn file_header() -> (r: Vec<u8>)
    ensures
        r@ == btsnoop_header(),
        r@.len() == 16,
{
    let mut r: Vec<u8> = Vec::new();
    r.push(0x62);
    r.push(0x74);
    r.push(0x73);
    r.push(0x6E);
    r.push(0x6F);
    r.push(0x6F);
    r.push(0x70);
    r.push(0x00);
    assert(r@ =~= seq![0x62u8, 0x74, 0x73, 0x6E, 0x6F, 0x6F, 0x70, 0x00]);
    push_be32(&mut r, 1);
    push_be32(&mut r, 1002);
    r
}

/// One BTSnoop record: original length, included length, flags, drops
/// (always 0) and time, all big-endian, then the packet.
pub open spec fn record_bytes(flags: u32, time: u64, packet: Seq<u8>) -> Seq<u8> {
    be32(packet.len() as u32) + be32(packet.len() as u32) + be32(flags) + be32(0) + be64(time)
        + packet
}

/// Packs one record.
pub fn encode_record(flags: u32, time: u64, packet: &Vec<u8>) -> (r: Vec<u8>)
    requires
        packet.len() <= u32::MAX,
    ensures
        r@ == record_bytes(flags, time, packet@),
        r@.len() == 24 + packet.len(),
{
    let mut r: Vec<u8> = Vec::new();
    let n: u32 = packet.len() as u32;
    push_be32(&mut r, n);
    push_be32(&mut r, n);
    push_be32(&mut r, flags);
    push_be32(&mut r, 0);
    push_be64(&mut r, time);
    let ghost head = r@;
    let mut i: usize = 0;
    while i < packet.len()
        invariant
            i <= packet.len(),
            r@ == head + packet@.take(i as int),
        decreases packet.len() - i,
    {
        r.push(packet[i]);
        i += 1;
        assert(r@ =~= head + packet@.take(i as int));
    }
    assert(packet@.take(packet@.len() as int) == packet@);
    assert(r@ =~= record_bytes(flags, time, packet@));
    r
}

/// One record of a capture, before it is packed. The packet is the framing
/// byte followed by the payload of the line.
#[derive(Debug)]
pub struct BtSnoopRecord {
    pub original_len: u32,
    pub included_len: u32,
    pub flags: u32,
    pub drops: u32,
    pub timestamp_us: u64,
    pub packet: Vec<u8>,
}

impl BtSnoopRecord {
    /// Both lengths are the length of the packet, and nothing was dropped.
    pub open spec fn wf(&self) -> bool {
        &&& self.original_len == self.packet@.len()
        &&& self.included_len == self.packet@.len()
        &&& self.drops == 0
    }

    /// The record of a packet of the given type with the given payload.
    pub fn new(flags: u32, timestamp_us: u64, packet_type: PacketType, payload: &Vec<u8>) -> (r:
        BtSnoopRecord)
        requires
            payload.len() < u32::MAX,
        ensures
            r.wf(),
            r.flags == flags,
            r.timestamp_us == timestamp_us,
            r.packet@ == seq![h4_header(packet_type)] + payload@,
            r.included_len == 1 + payload.len(),
    {
        let mut packet: Vec<u8> = Vec::new();
        packet.push(framing_byte(packet_type));
        let mut i: usize = 0;
        while i < payload.len()
            invariant
                i <= payload.len(),
                packet@ == seq![h4_header(packet_type)] + payload@.take(i as int),
            decreases payload.len() - i,
        {
            packet.push(payload[i]);
            i += 1;
            assert(packet@ =~= seq![h4_header(packet_type)] + payload@.take(i as int));
        }
        assert(payload@.take(payload@.len() as int) == payload@);
        let n: u32 = packet.len() as u32;
        BtSnoopRecord {
            original_len: n,
            included_len: n,
            flags,
            drops: 0,
            timestamp_us,
            packet,
        }
    }

    /// The record packed for the capture file.
    pub fn to_bytes(&self) -> (r: Vec<u8>)
        requires
            self.wf(),
        ensures
            r@ == record_bytes(self.flags, self.timestamp_us, self.packet@),
    {
        encode_record(self.flags, self.timestamp_us, &self.packet)
    }
}

/// Whether `s` starts with a vendor time stamp `(HH:MM:SS.mmm)`.
pub open spec fn has_vendor_stamp(s: Seq<char>) -> bool {
    &&& s.len() >= 14
    &&& s[0] == '('
    &&& is_digit(s[1])
    &&& is_digit(s[2])
    &&& s[3] == ':'
    &&& is_digit(s[4])
    &&& is_digit(s[5])
    &&& s[6] == ':'
    &&& is_digit(s[7])
    &&& is_digit(s[8])
    &&& s[9] == '.'
    &&& is_digit(s[10])
    &&& is_digit(s[11])
    &&& is_digit(s[12])
    &&& s[13] == ')'
}

/// `s` without a vendor time stamp at its start.
pub open spec fn strip_vendor_stamp(s: Seq<char>) -> Seq<char> {
    if has_vendor_stamp(s) {
        s.skip(14)
    } else {
        s
    }
}

/// The pattern of a vendor time stamp at the start of a line.
pub open spec fn vendor_stamp_pattern() -> Seq<char> {
    r"^\(\d{2}:\d{2}:\d{2}\.\d{3}\)"@
}

fn stamp_pattern() -> (r: &'static str)
    ensures
        r@ == vendor_stamp_pattern(),
{
    r"^\(\d{2}:\d{2}:\d{2}\.\d{3}\)"
}

/// Removes what the vendor time stamp pattern matches in `text`.
///
/// Trusted: compiles the pattern with `regex::Regex::new` and calls
/// `Regex::replace_all` with an empty replacement. The pattern is anchored at
/// the start of the text, so it matches at most once, and only there: an
/// opening bracket, two digits, a colon, two digits, a colon, two digits, a
/// full stop, three digits and a closing bracket. In ASCII text `\d` matches
/// the ten digits `0` to `9` and nothing else.
#[verifier::external_body]
fn remove_matches(pattern: &str, text: &str) -> (r: String)
    requires
        pattern@ == vendor_stamp_pattern(),
        all_ascii(text@),
    ensures
        r@ == strip_vendor_stamp(text@),
{
    regex::Regex::new(pattern).unwrap().replace_all(text, "").into_owned()
}

/// `line` without its first `n` characters, or nothing where it is shorter.
pub open spec fn skipped(line: Seq<char>, n: u32) -> Seq<char> {
    if n <= line.len() {
        line.skip(n as int)
    } else {
        Seq::empty()
    }
}

/// A line made ready for reading: the leading characters dropped, then the
/// vendor time stamp, where that is asked for and the line starts with an
/// opening bracket.
pub open spec fn prepared(line: Seq<char>, options: HciLogOptions) -> Seq<char> {
    let rest = skipped(line, options.skip_chars);
    if options.bluetrum_ts && rest.len() > 0 && rest[0] == '(' {
        strip_vendor_stamp(rest)
    } else {
        rest
    }
}

fn prepare(line: &Vec<char>, options: &HciLogOptions) -> (r: Vec<char>)
    requires
        all_ascii(line@),
    ensures
        r@ == prepared(line@, *options),
{
    let n = options.skip_chars as usize;
    let rest = if n <= line.len() {
        let rest = copy_range(line, n, line.len());
        assert(line@.subrange(n as int, line@.len() as int) == line@.skip(n as int));
        rest
    } else {
        Vec::new()
    };
    assert(rest@ == skipped(line@, options.skip_chars));
    if options.bluetrum_ts && rest.len() > 0 && rest[0] == '(' {
        assert(all_ascii(rest@)) by {
            assert forall|i: int| 0 <= i < rest@.len() implies is_ascii_char(
                #[trigger] rest@[i],
            ) by {
                assert(rest@[i] == line@[i + n]);
            }
        }
        let text = string_of(&rest);
        let stripped = remove_matches(stamp_pattern(), text.as_str());
        chars_of(stripped.as_str())
    } else {
        rest
    }
}

/// What the policy makes of a line that cannot be mapped.
pub open spec fn mismatch(options: HciLogOptions, e: HciError) -> Result<Option<Seq<u8>>, HciError> {
    match options.on_mismatch {
        MismatchPolicy::Skip => Ok(None),
        MismatchPolicy::Abort => Err(e),
    }
}

/// What the tokens of a trace line give: `Ok(Some(record))` where a record
/// is written, `Ok(None)` where the line is passed over, `Err` where the run
/// fails.
pub open spec fn parts_outcome(parts: Seq<Seq<char>>, modified: u64, options: HciLogOptions) -> Result<
    Option<Seq<u8>>,
    HciError,
> {
    if !valid_parts(parts) {
        Ok(None)
    } else {
        match timestamp_of(modified, parts[0]) {
            Err(e) => mismatch(options, HciError::Timestamp(e)),
            Ok(time) => {
                let p = packet_type_of(parts[1])->0;
                let d = direction_of(parts[2])->0;
                match record_flags(p, d) {
                    None => mismatch(options, HciError::UnknownCombination(p, d)),
                    Some(flags) => {
                        let packet = seq![h4_header(p)] + payload_of(parts);
                        if packet.len() > u32::MAX {
                            Ok(None)
                        } else {
                            Ok(Some(record_bytes(flags, time, packet)))
                        }
                    },
                }
            },
        }
    }
}

/// What one ASCII line of a trace gives.
pub open spec fn line_outcome(line: Seq<char>, modified: u64, options: HciLogOptions) -> Result<
    Option<Seq<u8>>,
    HciError,
> {
    parts_outcome(words(prepared(line, options), false), modified, options)
}

/// The view of an outcome.
pub open spec fn outcome_view(r: Result<Option<Vec<u8>>, HciError>) -> Result<
    Option<Seq<u8>>,
    HciError,
> {
    match r {
        Ok(Some(v)) => Ok(Some(v@)),
        Ok(None) => Ok(None),
        Err(e) => Err(e),
    }
}

fn convert_line(line: &Vec<char>, modified: u64, options: &HciLogOptions) -> (r: Result<
    Option<Vec<u8>>,
    HciError,
>)
    requires
        all_ascii(line@),
    ensures
        outcome_view(r) == line_outcome(line@, modified, *options),
{
    let ready = prepare(line, options);
    let parts = split_words(&ready, false);
    if parts.len() < 4 {
        return Ok(None);
    }
    assert(views(parts@)[0] == parts[0]@);
    assert(views(parts@)[1] == parts[1]@);
    assert(views(parts@)[2] == parts[2]@);
    let stamp = &parts[0];
    if stamp.len() == 0 || stamp[0] != '[' || stamp[stamp.len() - 1] != ']' {
        return Ok(None);
    }
    let p = match packet_type(&parts[1]) {
        Some(p) => p,
        None => {
            return Ok(None);
        },
    };
    let d = match direction(&parts[2]) {
        Some(d) => d,
        None => {
            return Ok(None);
        },
    };
    let payload = match read_payload(&parts) {
        Some(payload) => payload,
        None => {
            return Ok(None);
        },
    };
    assert(valid_parts(views(parts@)));
    let time = match timestamp_from(modified, stamp) {
        Ok(t) => t,
        Err(e) => {
            return match options.on_mismatch {
                MismatchPolicy::Skip => Ok(None),
                MismatchPolicy::Abort => Err(HciError::Timestamp(e)),
            };
        },
    };
    let flags = match flags_for(p, d) {
        Some(f) => f,
        None => {
            return match options.on_mismatch {
                MismatchPolicy::Skip => Ok(None),
                MismatchPolicy::Abort => Err(HciError::UnknownCombination(p, d)),
            };
        },
    };
    if payload.len() >= 0xFFFF_FFFF {
        return Ok(None);
    }
    let record = BtSnoopRecord::new(flags, time, p, &payload);
    Ok(Some(record.to_bytes()))
}

/// Turns one line of a trace into its record. Non-ASCII characters of the
/// line are dropped first.
pub fn transcode_line(line: &str, modified: u64, options: &HciLogOptions) -> (r: Result<
    Option<Vec<u8>>,
    HciError,
>)
    ensures
        outcome_view(r) == line_outcome(ascii_only(line@), modified, *options),
{
    let chars = chars_of(line);
    let ascii = keep_ascii(&chars);
    convert_line(&ascii, modified, options)
}

/// The capture made of the lines of a trace: the file header, then the
/// record of each line that has one, in order. The first line that fails the
/// run decides the error.
pub open spec fn capture_of(lines: Seq<Seq<char>>, modified: u64, options: HciLogOptions) -> Result<
    Seq<u8>,
    HciError,
>
    decreases lines.len(),
{
    if lines.len() == 0 {
        Ok(btsnoop_header())
    } else {
        match capture_of(lines.drop_last(), modified, options) {
            Err(e) => Err(e),
            Ok(out) => match line_outcome(lines.last(), modified, options) {
                Err(e) => Err(e),
                Ok(None) => Ok(out),
                Ok(Some(record)) => Ok(out + record),
            },
        }
    }
}

/// Once a line has failed the run, later lines change nothing.
pub proof fn lemma_capture_error_stays(
    lines: Seq<Seq<char>>,
    k: int,
    modified: u64,
    options: HciLogOptions,
)
    requires
        0 <= k <= lines.len(),
        capture_of(lines.take(k), modified, options) is Err,
    ensures
        capture_of(lines, modified, options) == capture_of(lines.take(k), modified, options),
    decreases lines.len() - k,
{
    if k == lines.len() {
        assert(lines.take(k) == lines);
    } else {
        assert(lines.drop_last().take(k) == lines.take(k));
        lemma_capture_error_stays(lines.drop_last(), k, modified, options);
    }
}

/// The capture for the bytes of a trace file.
pub open spec fn transcoded(data: Seq<u8>, modified: u64, options: HciLogOptions) -> Result<
    Seq<u8>,
    HciError,
> {
    match capture_lines(data) {
        Err(e) => Err(HciError::Text(e)),
        Ok(lines) => capture_of(lines, modified, options),
    }
}

/// Transcodes a trace to a BTSnoop capture. `data` holds the bytes of the
/// trace file and `modified` its last change in seconds since the Unix epoch;
/// the result holds the bytes of the capture.
pub fn parse_hci_log(data: &[u8], modified: u64, options: &HciLogOptions) -> (r: Result<
    Vec<u8>,
    HciError,
>)
    ensures
        match r {
            Ok(out) => transcoded(data@, modified, *options) == Ok::<Seq<u8>, HciError>(out@),
            Err(e) => transcoded(data@, modified, *options) == Err::<Seq<u8>, HciError>(e),
        },
        !decodable(data@) ==> r is Err,
        decodable(data@) && options.on_mismatch == MismatchPolicy::Skip ==> r is Ok,
{
    let lines = match read_lines(data) {
        Ok(lines) => lines,
        Err(e) => {
            return Err(HciError::Text(e));
        },
    };
    let ghost all = views(lines@);
    let mut out = file_header();
    let mut i: usize = 0;
    assert(all.take(0) =~= Seq::<Seq<char>>::empty());
    while i < lines.len()
        invariant
            i <= lines.len(),
            all == views(lines@),
            decodable(data@),
            capture_lines(data@) == Ok::<Seq<Seq<char>>, TextError>(all),
            forall|k: int| 0 <= k < lines.len() ==> all_ascii(#[trigger] lines[k]@),
            capture_of(all.take(i as int), modified, *options) == Ok::<Seq<u8>, HciError>(out@),
        decreases lines.len() - i,
    {
        assert(all.take(i + 1).drop_last() == all.take(i as int));
        assert(all.take(i + 1).last() == lines[i as int]@);
        match convert_line(&lines[i], modified, options) {
            Ok(Some(record)) => {
                let mut k: usize = 0;
                let ghost before = out@;
                while k < record.len()
                    invariant
                        k <= record.len(),
                        out@ == before + record@.take(k as int),
                    decreases record.len() - k,
                {
                    out.push(record[k]);
                    k += 1;
                    assert(out@ =~= before + record@.take(k as int));
                }
                assert(record@.take(record@.len() as int) == record@);
            },
            Ok(None) => {},
            Err(e) => {
                proof {
                    lemma_capture_error_stays(all, i + 1, modified, *options);
                }
                return Err(e);
            },
        }
        i += 1;
    }
    assert(all.take(all.len() as int) == all);
    Ok(out)
}

/// How many characters the payload tokens of a line hold, the fourth token
/// being the first of the payload.
pub open spec fn payload_digits(parts: Seq<Seq<char>>) -> nat
    decreases parts.len(),
{
    if parts.len() <= 3 {
        0
    } else {
        payload_digits(parts.drop_last()) + parts.last().len()
    }
}

proof fn lemma_payload_digits_even(parts: Seq<Seq<char>>)
    requires
        forall|i: int| 3 <= i < parts.len() ==> (#[trigger] parts[i]).len() == 2,
    ensures
        payload_digits(parts) % 2 == 0,
    decreases parts.len(),
{
    if parts.len() > 3 {
        let head = parts.drop_last();
        assert forall|i: int| 3 <= i < head.len() implies (#[trigger] head[i]).len() == 2 by {
            assert(head[i] == parts[i]);
        }
        lemma_payload_digits_even(head);
    }
}

/// A line whose payload holds an odd number of hexadecimal characters is
/// passed over under either policy: it gives no record, does not fail the
/// run, and leaves the capture of the lines before it as it was.
pub proof fn lemma_odd_payload_is_skipped(
    lines: Seq<Seq<char>>,
    line: Seq<char>,
    modified: u64,
    options: HciLogOptions,
)
    requires
        payload_digits(words(prepared(line, options), false)) % 2 == 1,
    ensures
        !valid_parts(words(prepared(line, options), false)),
        line_outcome(line, modified, options) == Ok::<Option<Seq<u8>>, HciError>(None),
        capture_of(lines.push(line), modified, options) == capture_of(lines, modified, options),
{
    let parts = words(prepared(line, options), false);
    if valid_parts(parts) {
        lemma_payload_digits_even(parts);
    }
    assert(lines.push(line).drop_last() == lines);
}

/// Transcoding is repeatable: the same bytes, the same time of last change
/// and the same options give the same capture, byte for byte.
pub proof fn lemma_transcoding_repeats(
    first: Seq<u8>,
    second: Seq<u8>,
    modified: u64,
    options: HciLogOptions,
)
    requires
        first == second,
    ensures
        transcoded(first, modified, options) == transcoded(second, modified, options),
{
}

/// Every record holds its packet's length twice, then the flags, four zero
/// bytes and the time, and is 24 bytes longer than the packet.
pub proof fn lemma_record_layout(flags: u32, time: u64, packet: Seq<u8>)
    requires
        packet.len() <= u32::MAX,
    ensures
        record_bytes(flags, time, packet).len() == 24 + packet.len(),
        record_bytes(flags, time, packet).subrange(0, 4) == be32(packet.len() as u32),
        record_bytes(flags, time, packet).subrange(4, 8) == be32(packet.len() as u32),
        record_bytes(flags, time, packet).subrange(8, 12) == be32(flags),
        record_bytes(flags, time, packet).subrange(12, 16) == seq![0u8, 0, 0, 0],
        record_bytes(flags, time, packet).subrange(16, 24) == be64(time),
        record_bytes(flags, time, packet).subrange(24, 24 + packet.len() as int) == packet,
{
    let r = record_bytes(flags, time, packet);
    assert(r.subrange(0, 4) =~= be32(packet.len() as u32));
    assert(r.subrange(4, 8) =~= be32(packet.len() as u32));
    assert(r.subrange(8, 12) =~= be32(flags));
    assert(r.subrange(12, 16) =~= seq![0u8, 0, 0, 0]);
    assert(r.subrange(16, 24) =~= be64(time));
    assert(r.subrange(24, 24 + packet.len() as int) =~= packet);
}

/// The four bytes of a number hold it, the most significant byte first.
pub proof fn lemma_be32_holds_its_value(v: u32)
    ensures
        be32(v).len() == 4,
        be32(v)[0] * 0x100_0000 + be32(v)[1] * 0x1_0000 + be32(v)[2] * 0x100 + be32(v)[3] == v,
{
}

/// The eight bytes of a number hold it, the most significant byte first.
pub proof fn lemma_be64_holds_its_value(v: u64)
    ensures
        be64(v).len() == 8,
        (be64(v)[0] * 0x100_0000 + be64(v)[1] * 0x1_0000 + be64(v)[2] * 0x100 + be64(v)[3])
            * 0x1_0000_0000 + be64(v)[4] * 0x100_0000 + be64(v)[5] * 0x1_0000 + be64(v)[6] * 0x100
            + be64(v)[7] == v,
{
    let high = (v / 0x1_0000_0000) as u32;
    let low = (v % 0x1_0000_0000) as u32;
    lemma_be32_holds_its_value(high);
    lemma_be32_holds_its_value(low);
    assert(be64(v)[0] == be32(high)[0]);
    assert(be64(v)[1] == be32(high)[1]);
    assert(be64(v)[2] == be32(high)[2]);
    assert(be64(v)[3] == be32(high)[3]);
    assert(be64(v)[4] == be32(low)[0]);
    assert(be64(v)[5] == be32(low)[1]);
    assert(be64(v)[6] == be32(low)[2]);
    assert(be64(v)[7] == be32(low)[3]);
}

/// Under the lenient policy no line fails the run, so that every trace that
/// can be decoded has a capture.
pub proof fn lemma_lenient_run_never_fails(
    lines: Seq<Seq<char>>,
    modified: u64,
    options: HciLogOptions,
)
    requires
        options.on_mismatch == MismatchPolicy::Skip,
    ensures
        capture_of(lines, modified, options) is Ok,
    decreases lines.len(),
{
    if lines.len() > 0 {
        lemma_lenient_run_never_fails(lines.drop_last(), modified, options);
    }
}

/// A capture starts with the file header, whatever the lines.
pub proof fn lemma_capture_starts_with_header(
    lines: Seq<Seq<char>>,
    modified: u64,
    options: HciLogOptions,
)
    requires
        capture_of(lines, modified, options) is Ok,
    ensures
        capture_of(lines, modified, options)->Ok_0.len() >= 16,
        capture_of(lines, modified, options)->Ok_0.subrange(0, 16) == btsnoop_header(),
    decreases lines.len(),
{
    if lines.len() == 0 {
        assert(btsnoop_header().subrange(0, 16) =~= btsnoop_header());
    } else {
        lemma_capture_starts_with_header(lines.drop_last(), modified, options);
        let before = capture_of(lines.drop_last(), modified, options)->Ok_0;
        let after = capture_of(lines, modified, options)->Ok_0;
        assert(after.subrange(0, 16) =~= before.subrange(0, 16));
    }
}

/// A trace line whose time stamp can be read and whose packet type and
/// direction have a flags value gives exactly one record: its lengths are one
/// more than the number of byte tokens, its flags are those of the table, and
/// its time is that of the time stamp.
pub proof fn lemma_trace_line_gives_one_record(
    parts: Seq<Seq<char>>,
    modified: u64,
    options: HciLogOptions,
)
    requires
        valid_parts(parts),
        parts.len() - 2 <= u32::MAX,
        timestamp_of(modified, parts[0]) is Ok,
        record_flags(packet_type_of(parts[1])->0, direction_of(parts[2])->0) is Some,
    ensures
        parts_outcome(parts, modified, options) matches Ok(Some(record)) && {
            let n = (parts.len() - 2) as u32;
            &&& record.len() == 24 + n
            &&& record.subrange(0, 4) == be32(n)
            &&& record.subrange(4, 8) == be32(n)
            &&& record.subrange(8, 12) == be32(
                record_flags(packet_type_of(parts[1])->0, direction_of(parts[2])->0)->0,
            )
            &&& record.subrange(12, 16) == seq![0u8, 0, 0, 0]
            &&& record.subrange(16, 24) == be64(timestamp_of(modified, parts[0])->Ok_0)
            &&& record[24] == h4_header(packet_type_of(parts[1])->0)
            &&& record.subrange(25, 24 + n) == payload_of(parts)
        },
{
    let p = packet_type_of(parts[1])->0;
    let d = direction_of(parts[2])->0;
    let flags = record_flags(p, d)->0;
    let time = timestamp_of(modified, parts[0])->Ok_0;
    let packet = seq![h4_header(p)] + payload_of(parts);
    assert(packet.len() == parts.len() - 2);
    lemma_record_layout(flags, time, packet);
    let record = record_bytes(flags, time, packet);
    assert(record[24] == record.subrange(24, 24 + packet.len() as int)[0]);
    assert(record.subrange(25, 24 + packet.len() as int) =~= payload_of(parts)) by {
        assert forall|i: int| 0 <= i < payload_of(parts).len() implies record.subrange(
            25,
            24 + packet.len() as int,
        )[i] == payload_of(parts)[i] by {
            assert(record[25 + i] == record.subrange(24, 24 + packet.len() as int)[1 + i]);
        }
    }
}

/// A time stamp fails to give a time exactly where its time of day cannot
/// be read, with the error of that reading, or where the time does not fit in
/// 64 bits.
pub proof fn lemma_timestamp_errors(modified: u64, tok: Seq<char>)
    ensures
        clock_of(tok) matches Err(e) ==> timestamp_of(modified, tok) == Err::<u64, TimestampError>(
            e,
        ),
        clock_of(tok) matches Ok(c) ==> (timestamp_of(modified, tok) is Ok <==> stamp_value(
            modified,
            c,
        ) <= u64::MAX),
        clock_of(tok) matches Ok(c) ==> (timestamp_of(modified, tok) is Err ==> timestamp_of(
            modified,
            tok,
        ) == Err::<u64, TimestampError>(TimestampError::Overflow)),
{
}

/// A later change of the trace moves the time of every record by as many
/// microseconds as the change is later, wherever both times fit in 64 bits.
pub proof fn lemma_timestamp_follows_modified(earlier: u64, later: u64, tok: Seq<char>)
    requires
        earlier <= later,
        timestamp_of(later, tok) is Ok,
    ensures
        timestamp_of(earlier, tok) is Ok,
        timestamp_of(later, tok)->Ok_0 == timestamp_of(earlier, tok)->Ok_0 + (later - earlier)
            * 1_000_000,
{
    let c = clock_of(tok)->Ok_0;
    assert(stamp_value(later, c) == stamp_value(earlier, c) + (later - earlier) * 1_000_000)
        by (nonlinear_arith)
        requires
            stamp_value(later, c) == (later + c.hours * 3600 + c.minutes * 60 + c.seconds)
                * 1_000_000 + c.micros + BTSNOOP_EPOCH_OFFSET,
            stamp_value(earlier, c) == (earlier + c.hours * 3600 + c.minutes * 60 + c.seconds)
                * 1_000_000 + c.micros + BTSNOOP_EPOCH_OFFSET,
    ;
}

} // verus!
