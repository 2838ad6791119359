//! Text normalizer: finds the encoding of a capture by its byte-order mark,
//! decodes it, and hands out its lines with every non-ASCII character
//! removed.

use crate::text::{chars_of, split_fields, split_on, string_of, views};
use vstd::prelude::*;

verus! {

/// The encoding of a capture, as the bytes at its start show it.
#[derive(Clone, Copy, Debug, PartialEq, Eq, Structural)]
pub enum FileEncoding {
    UTF8,
    UTF16LE,
    UTF16BE,
    UTF32LE,
    UTF32BE,
    Unknown,
}

/// Why a capture could not be turned into text.
#[derive(Clone, Copy, Debug, PartialEq, Eq, Structural)]
pub enum TextError {
    /// The capture is too large to be decoded in memory.
    TooLarge,
    /// No decoder exists for the encoding that the byte-order mark names.
    Unsupported(FileEncoding),
}

impl TextError {
    /// The text of the error.
    pub open spec fn text(&self) -> Seq<char> {
        match self {
            TextError::TooLarge => "capture too large to decode"@,
            TextError::Unsupported(_) => "no decoder for this encoding"@,
        }
    }

    /// A one-line description of the error.
    pub fn message(&self) -> (s: String)
        ensures
            s@ == self.text(),
    {
        match self {
            TextError::TooLarge => "capture too large to decode".to_owned(),
            TextError::Unsupported(_) => "no decoder for this encoding".to_owned(),
        }
    }
}

/// The largest capture, in bytes, that is decoded.
pub open spec fn max_capture_len() -> int {
    (usize::MAX / 8) as int
}

/// The encoding that the byte-order mark at the start of `b` names. A mark
/// is found only where all of its bytes are there, and a UTF-32 mark is
/// looked for before the UTF-16 mark that it begins with. A capture without a
/// mark, however short, is `Unknown`.
pub open spec fn encoding_of(b: Seq<u8>) -> FileEncoding {
    if b.len() >= 3 && b[0] == 0xEF && b[1] == 0xBB && b[2] == 0xBF {
        FileEncoding::UTF8
    } else if b.len() >= 4 && b[0] == 0xFF && b[1] == 0xFE && b[2] == 0x00 && b[3] == 0x00 {
        FileEncoding::UTF32LE
    } else if b.len() >= 4 && b[0] == 0x00 && b[1] == 0x00 && b[2] == 0xFE && b[3] == 0xFF {
        FileEncoding::UTF32BE
    } else if b.len() >= 2 && b[0] == 0xFF && b[1] == 0xFE {
        FileEncoding::UTF16LE
    } else if b.len() >= 2 && b[0] == 0xFE && b[1] == 0xFF {
        FileEncoding::UTF16BE
    } else {
        FileEncoding::Unknown
    }
}

/// Classifies a capture by the byte-order mark at its start.
pub fn detect_encoding(data: &[u8]) -> (r: FileEncoding)
    ensures
        r == encoding_of(data@),
{
    let n = data.len();
    if n >= 3 && data[0] == 0xEF && data[1] == 0xBB && data[2] == 0xBF {
        FileEncoding::UTF8
    } else if n >= 4 && data[0] == 0xFF && data[1] == 0xFE && data[2] == 0x00 && data[3] == 0x00 {
        FileEncoding::UTF32LE
    } else if n >= 4 && data[0] == 0x00 && data[1] == 0x00 && data[2] == 0xFE && data[3] == 0xFF {
        FileEncoding::UTF32BE
    } else if n >= 2 && data[0] == 0xFF && data[1] == 0xFE {
        FileEncoding::UTF16LE
    } else if n >= 2 && data[0] == 0xFE && data[1] == 0xFF {
        FileEncoding::UTF16BE
    } else {
        FileEncoding::Unknown
    }
}

/// The label under which the decoder is asked for an encoding. A capture
/// without a byte-order mark is read as UTF-8.
pub open spec fn label_of(e: FileEncoding) -> Seq<char> {
    match e {
        FileEncoding::UTF16BE => "utf-16be"@,
        FileEncoding::UTF16LE => "utf-16le"@,
        FileEncoding::UTF32BE => "utf-32be"@,
        FileEncoding::UTF32LE => "utf-32le"@,
        FileEncoding::UTF8 => "utf-8"@,
        FileEncoding::Unknown => "utf-8"@,
    }
}

/// The label under which the decoder is asked for an encoding.
pub fn encoding_label(e: FileEncoding) -> (r: &'static str)
    ensures
        r@ == label_of(e),
{
    match e {
        FileEncoding::UTF16BE => "utf-16be",
        FileEncoding::UTF16LE => "utf-16le",
        FileEncoding::UTF32BE => "utf-32be",
        FileEncoding::UTF32LE => "utf-32le",
        FileEncoding::UTF8 => "utf-8",
        FileEncoding::Unknown => "utf-8",
    }
}

/// The text that the decoder of the encoding labelled `label` makes of
/// `data`, or `None` where no encoding has that label.
pub uninterp spec fn decoded_text(label: Seq<char>, data: Seq<u8>) -> Option<Seq<char>>;

/// Decodes `data` with the encoding that `label` names.
///
/// Trusted: looks the label up with `encoding_rs::Encoding::for_label` and
/// decodes with `Encoding::decode`, which removes a byte-order mark and puts
/// U+FFFD in place of every malformed sequence, so that decoding itself never
/// fails. The result depends on the label and the bytes alone. The label table
/// of the crate holds `utf-8`, `utf-16le` and `utf-16be`, and no label for
/// UTF-32. `decode` panics only where the size of its output buffer overflows
/// `usize`, which the bound on the input excludes.
#[verifier::external_body]
fn decode_labelled(label: &str, data: &[u8]) -> (r: Option<String>)
    requires
        data@.len() <= max_capture_len(),
    ensures
        match r {
            Some(s) => decoded_text(label@, data@) == Some(s@),
            None => decoded_text(label@, data@) is None,
        },
        label@ == "utf-8"@ || label@ == "utf-16le"@ || label@ == "utf-16be"@ ==> r is Some,
        label@ == "utf-32le"@ || label@ == "utf-32be"@ ==> r is None,
{
    match encoding_rs::Encoding::for_label(label.as_bytes()) {
        Some(encoding) => Some(encoding.decode(data).0.into_owned()),
        None => None,
    }
}

/// The text of a capture: its bytes decoded by the encoding that its
/// byte-order mark names.
pub open spec fn capture_text(data: Seq<u8>) -> Result<Seq<char>, TextError> {
    if data.len() > max_capture_len() {
        Err(TextError::TooLarge)
    } else {
        match decoded_text(label_of(encoding_of(data)), data) {
            Some(t) => Ok(t),
            None => Err(TextError::Unsupported(encoding_of(data))),
        }
    }
}

/// Whether a capture of these bytes is decoded: it fits in memory and is
/// not UTF-32.
pub open spec fn decodable(data: Seq<u8>) -> bool {
    &&& data.len() <= max_capture_len()
    &&& encoding_of(data) != FileEncoding::UTF32LE
    &&& encoding_of(data) != FileEncoding::UTF32BE
}

/// A capture as it was read: its bytes and the encoding that its byte-order
/// mark names. It is not changed once it is made.
#[derive(Debug)]
pub struct CaptureFile<'a> {
    bytes: &'a [u8],
    encoding: FileEncoding,
}

impl<'a> CaptureFile<'a> {
    /// The bytes of the capture.
    pub closed spec fn data(&self) -> Seq<u8> {
        self.bytes@
    }

    /// The encoding that was found.
    pub closed spec fn found(&self) -> FileEncoding {
        self.encoding
    }

    /// Whether the value is well formed.
    pub closed spec fn wf(&self) -> bool {
        self.encoding == encoding_of(self.bytes@)
    }

    /// Takes the bytes of a capture and finds its encoding.
    pub fn new(data: &'a [u8]) -> (r: CaptureFile<'a>)
        ensures
            r.wf(),
            r.data() == data@,
            r.found() == encoding_of(data@),
    {
        CaptureFile { bytes: data, encoding: detect_encoding(data) }
    }

    /// The encoding of the capture.
    pub fn encoding(&self) -> (r: FileEncoding)
        ensures
            r == self.found(),
    {
        self.encoding
    }

    /// The capture decoded to text.
    pub fn text(&self) -> (r: Result<String, TextError>)
        requires
            self.wf(),
        ensures
            match r {
                Ok(t) => capture_text(self.data()) == Ok::<Seq<char>, TextError>(t@),
                Err(e) => capture_text(self.data()) == Err::<Seq<char>, TextError>(e),
            },
            r is Ok <==> decodable(self.data()),
    {
        if self.bytes.len() > usize::MAX / 8 {
            return Err(TextError::TooLarge);
        }
        match decode_labelled(encoding_label(self.encoding), self.bytes) {
            Some(t) => Ok(t),
            None => Err(TextError::Unsupported(self.encoding)),
        }
    }
}

/// Decodes a capture to text.
pub fn decode_capture(data: &[u8]) -> (r: Result<String, TextError>)
    ensures
        match r {
            Ok(t) => capture_text(data@) == Ok::<Seq<char>, TextError>(t@),
            Err(e) => capture_text(data@) == Err::<Seq<char>, TextError>(e),
        },
        r is Ok <==> decodable(data@),
{
    CaptureFile::new(data).text()
}

/// Whether `c` is an ASCII character.
pub open spec fn is_ascii_char(c: char) -> bool {
    (c as u32) < 128
}

/// `s` without its non-ASCII characters; the others keep their order.
pub open spec fn ascii_only(s: Seq<char>) -> Seq<char>
    decreases s.len(),
{
    if s.len() == 0 {
        Seq::empty()
    } else if is_ascii_char(s.last()) {
        ascii_only(s.drop_last()).push(s.last())
    } else {
        ascii_only(s.drop_last())
    }
}

/// Whether every character of `s` is ASCII.
pub open spec fn all_ascii(s: Seq<char>) -> bool {
    forall|i: int| 0 <= i < s.len() ==> is_ascii_char(#[trigger] s[i])
}

/// What is left of a text without its non-ASCII characters is ASCII.
pub proof fn lemma_ascii_only_is_ascii(s: Seq<char>)
    ensures
        all_ascii(ascii_only(s)),
    decreases s.len(),
{
    if s.len() > 0 {
        lemma_ascii_only_is_ascii(s.drop_last());
    }
}

/// Drops the non-ASCII characters of `s`.
pub fn keep_ascii(s: &Vec<char>) -> (r: Vec<char>)
    ensures
        r@ == ascii_only(s@),
        all_ascii(r@),
{
    let mut r: Vec<char> = Vec::new();
    let mut i: usize = 0;
    while i < s.len()
        invariant
            i <= s.len(),
            r@ == ascii_only(s@.take(i as int)),
        decreases s.len() - i,
    {
        assert(s@.take(i + 1).drop_last() == s@.take(i as int));
        let c = s[i];
        if (c as u32) < 128 {
            r.push(c);
        }
        i += 1;
    }
    assert(s@.take(s@.len() as int) == s@);
    proof {
        lemma_ascii_only_is_ascii(s@);
    }
    r
}

/// `s` without one trailing carriage return.
pub open spec fn strip_cr(s: Seq<char>) -> Seq<char> {
    if s.len() > 0 && s.last() == '\r' {
        s.drop_last()
    } else {
        s
    }
}

/// The lines of a text. A line ends at a line feed, or at a carriage return
/// that a line feed follows; the end of the text ends the last line, which
/// is left out where it is empty.
pub open spec fn text_lines(s: Seq<char>) -> Seq<Seq<char>> {
    let f = split_on(s, '\n');
    let n = if f.last().len() == 0 {
        f.len() - 1
    } else {
        f.len() as int
    };
    Seq::new(
        n as nat,
        |i: int|
            if i < f.len() - 1 {
                strip_cr(f[i])
            } else {
                f[i]
            },
    )
}

/// The lines of a text, each without its non-ASCII characters.
pub open spec fn ascii_lines_of(s: Seq<char>) -> Seq<Seq<char>> {
    let l = text_lines(s);
    Seq::new(l.len(), |i: int| ascii_only(l[i]))
}

/// Splits a text into lines and drops the non-ASCII characters of each.
pub fn split_ascii_lines(text: &Vec<char>) -> (r: Vec<Vec<char>>)
    ensures
        views(r@) == ascii_lines_of(text@),
        forall|i: int| 0 <= i < r.len() ==> all_ascii(#[trigger] r[i]@),
{
    let fields = split_fields(text, '\n');
    let ghost f = split_on(text@, '\n');
    let count: usize = if fields[fields.len() - 1].len() == 0 {
        fields.len() - 1
    } else {
        fields.len()
    };
    assert(f.last() == fields[fields.len() - 1]@);
    let mut r: Vec<Vec<char>> = Vec::new();
    let mut i: usize = 0;
    while i < count
        invariant
            i <= count <= fields.len(),
            fields.len() >= 1,
            f == views(fields@),
            r.len() == i,
            forall|k: int| 0 <= k < i ==> #[trigger] r[k]@ == ascii_lines_of(text@)[k],
            forall|k: int| 0 <= k < i ==> all_ascii(#[trigger] r[k]@),
            count == text_lines(text@).len(),
            f == split_on(text@, '\n'),
        decreases count - i,
    {
        let field = &fields[i];
        assert(f[i as int] == field@);
        let n = field.len();
        let line = if i + 1 < fields.len() && n > 0 && field[n - 1] == '\r' {
            let mut cut: Vec<char> = Vec::new();
            let mut k: usize = 0;
            while k < n - 1
                invariant
                    n == field.len(),
                    n > 0,
                    k <= n - 1,
                    cut@ == field@.take(k as int),
                decreases n - 1 - k,
            {
                cut.push(field[k]);
                k += 1;
                assert(cut@ == field@.take(k as int));
            }
            assert(field@.take(n - 1) == field@.drop_last());
            keep_ascii(&cut)
        } else {
            keep_ascii(field)
        };
        r.push(line);
        i += 1;
    }
    assert(views(r@) =~= ascii_lines_of(text@));
    r
}

/// The ASCII lines of a capture, or the reason why it has none.
pub open spec fn capture_lines(data: Seq<u8>) -> Result<Seq<Seq<char>>, TextError> {
    match capture_text(data) {
        Ok(t) => Ok(ascii_lines_of(t)),
        Err(e) => Err(e),
    }
}

/// Decodes a capture and splits it into its ASCII lines.
pub fn read_lines(data: &[u8]) -> (r: Result<Vec<Vec<char>>, TextError>)
    ensures
        match r {
            Ok(l) => capture_lines(data@) == Ok::<Seq<Seq<char>>, TextError>(views(l@)) && forall|
                i: int,
            | 0 <= i < l.len() ==> all_ascii(#[trigger] l[i]@),
            Err(e) => capture_lines(data@) == Err::<Seq<Seq<char>>, TextError>(e),
        },
        r is Ok <==> decodable(data@),
{
    match decode_capture(data) {
        Ok(t) => {
            let chars = chars_of(t.as_str());
            Ok(split_ascii_lines(&chars))
        },
        Err(e) => Err(e),
    }
}

/// The ASCII lines of a capture, handed out one at a time from the first.
/// The reader can be stopped after any line, and started again from the
/// first line.
pub struct AsciiLines {
    lines: Vec<Vec<char>>,
    next: usize,
}

impl AsciiLines {
    /// All lines of the capture, read or not.
    pub closed spec fn lines(&self) -> Seq<Seq<char>> {
        views(self.lines@)
    }

    /// How many lines have been handed out, or all of them once stopped.
    pub closed spec fn position(&self) -> nat {
        self.next as nat
    }

    /// Whether the value is well formed.
    pub closed spec fn wf(&self) -> bool {
        self.next <= self.lines.len()
    }

    /// Decodes a capture; the reader stands before its first line.
    pub fn new(data: &[u8]) -> (r: Result<AsciiLines, TextError>)
        ensures
            match r {
                Ok(a) => a.wf() && a.position() == 0 && capture_lines(data@) == Ok::<
                    Seq<Seq<char>>,
                    TextError,
                >(a.lines()),
                Err(e) => capture_lines(data@) == Err::<Seq<Seq<char>>, TextError>(e),
            },
            r is Ok <==> decodable(data@),
    {
        match read_lines(data) {
            Ok(lines) => Ok(AsciiLines { lines, next: 0 }),
            Err(e) => Err(e),
        }
    }

    /// The next line, or `None` after the last line or after `stop`.
    pub fn next_line(&mut self) -> (r: Option<String>)
        requires
            old(self).wf(),
        ensures
            final(self).wf(),
            final(self).lines() == old(self).lines(),
            match r {
                Some(line) => old(self).position() < old(self).lines().len() && line@ == old(
                    self,
                ).lines()[old(self).position() as int] && final(self).position() == old(
                    self,
                ).position() + 1,
                None => old(self).position() == old(self).lines().len() && final(self).position()
                    == old(self).position(),
            },
    {
        if self.next < self.lines.len() {
            let line = string_of(&self.lines[self.next]);
            self.next += 1;
            Some(line)
        } else {
            None
        }
    }

    /// Ends the reading: no further line is handed out.
    pub fn stop(&mut self)
        requires
            old(self).wf(),
        ensures
            final(self).wf(),
            final(self).lines() == old(self).lines(),
            final(self).position() == final(self).lines().len(),
    {
        self.next = self.lines.len();
    }

    /// Goes back before the first line.
    pub fn restart(&mut self)
        requires
            old(self).wf(),
        ensures
            final(self).wf(),
            final(self).lines() == old(self).lines(),
            final(self).position() == 0,
    {
        self.next = 0;
    }
}

} // verus!
