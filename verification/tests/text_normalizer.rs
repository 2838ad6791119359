use capture_decode::utils::{
    decode_capture, detect_encoding, keep_ascii, read_lines, split_ascii_lines, AsciiLines,
    FileEncoding, TextError,
};

fn lines_of(data: &[u8]) -> Vec<String> {
    read_lines(data).unwrap().iter().map(|l| l.iter().collect::<String>()).collect()
}

fn utf16le(text: &str) -> Vec<u8> {
    let mut out = vec![0xFF, 0xFE];
    for unit in text.encode_utf16() {
        out.push((unit & 0xFF) as u8);
        out.push((unit >> 8) as u8);
    }
    out
}

fn utf16be(text: &str) -> Vec<u8> {
    let mut out = vec![0xFE, 0xFF];
    for unit in text.encode_utf16() {
        out.push((unit >> 8) as u8);
        out.push((unit & 0xFF) as u8);
    }
    out
}

#[test]
fn detects_utf8_mark() {
    assert_eq!(detect_encoding(&[0xEF, 0xBB, 0xBF, b'a']), FileEncoding::UTF8);
}

#[test]
fn detects_utf16_marks() {
    assert_eq!(detect_encoding(&[0xFF, 0xFE, b'a', 0x00]), FileEncoding::UTF16LE);
    assert_eq!(detect_encoding(&[0xFE, 0xFF, 0x00, b'a']), FileEncoding::UTF16BE);
    assert_eq!(detect_encoding(&[0xFF, 0xFE, 0x00, 0x01]), FileEncoding::UTF16LE);
}

#[test]
fn detects_utf32_marks_before_utf16() {
    assert_eq!(detect_encoding(&[0xFF, 0xFE, 0x00, 0x00]), FileEncoding::UTF32LE);
    assert_eq!(detect_encoding(&[0x00, 0x00, 0xFE, 0xFF]), FileEncoding::UTF32BE);
}

#[test]
fn no_mark_is_unknown() {
    assert_eq!(detect_encoding(b"abcd"), FileEncoding::Unknown);
    assert_eq!(detect_encoding(&[0xEF, 0xBB, 0x00, 0x00]), FileEncoding::Unknown);
}

#[test]
fn short_capture_without_mark_is_read_as_utf8() {
    assert_eq!(detect_encoding(b""), FileEncoding::Unknown);
    assert_eq!(detect_encoding(b"a"), FileEncoding::Unknown);
    assert_eq!(detect_encoding(b"abc"), FileEncoding::Unknown);
    assert_eq!(lines_of(b"ab\n"), vec!["ab"]);
    assert_eq!(lines_of(b"ab"), vec!["ab"]);
    assert_eq!(lines_of(b"\n"), vec![""]);
    assert_eq!(lines_of(b""), Vec::<String>::new());
    assert_eq!(decode_capture(b"abc"), Ok("abc".to_string()));
    let mut reader = AsciiLines::new(b"ab\n").unwrap();
    assert_eq!(reader.next_line(), Some("ab".to_string()));
    assert_eq!(reader.next_line(), None);
}

#[test]
fn mark_is_found_only_where_its_bytes_are_there() {
    assert_eq!(detect_encoding(&[0xEF, 0xBB, 0xBF]), FileEncoding::UTF8);
    assert_eq!(detect_encoding(&[0xEF, 0xBB]), FileEncoding::Unknown);
    assert_eq!(detect_encoding(&[0xFF, 0xFE]), FileEncoding::UTF16LE);
    assert_eq!(detect_encoding(&[0xFE, 0xFF]), FileEncoding::UTF16BE);
    assert_eq!(detect_encoding(&[0xFF, 0xFE, 0x00]), FileEncoding::UTF16LE);
    assert_eq!(detect_encoding(&[0x00, 0x00, 0xFE]), FileEncoding::Unknown);
    assert_eq!(detect_encoding(&[0xFF]), FileEncoding::Unknown);
    assert_eq!(decode_capture(&[0xEF, 0xBB, 0xBF]), Ok(String::new()));
    assert_eq!(decode_capture(&[0xFF, 0xFE]), Ok(String::new()));
    assert_eq!(decode_capture(&[0xFF, 0xFE, b'h', 0x00]), Ok("h".to_string()));
    assert_eq!(lines_of(&[0xEF, 0xBB, 0xBF, b'x']), vec!["x"]);
}

#[test]
fn utf32_is_not_decoded() {
    assert_eq!(
        decode_capture(&[0xFF, 0xFE, 0x00, 0x00, b'a', 0, 0, 0]),
        Err(TextError::Unsupported(FileEncoding::UTF32LE))
    );
    assert_eq!(
        decode_capture(&[0x00, 0x00, 0xFE, 0xFF, 0, 0, 0, b'a']),
        Err(TextError::Unsupported(FileEncoding::UTF32BE))
    );
}

#[test]
fn plain_text_is_read_as_utf8() {
    assert_eq!(decode_capture(b"one\ntwo\n"), Ok("one\ntwo\n".to_string()));
}

#[test]
fn utf8_mark_is_removed() {
    assert_eq!(decode_capture(&[0xEF, 0xBB, 0xBF, b'h', b'i']), Ok("hi".to_string()));
}

#[test]
fn utf16_is_decoded() {
    assert_eq!(decode_capture(&utf16le("hi\nyou")), Ok("hi\nyou".to_string()));
    assert_eq!(decode_capture(&utf16be("hi\nyou")), Ok("hi\nyou".to_string()));
    assert_eq!(lines_of(&utf16le("ERR: 1\r\nb\u{e9}c\r\n")), vec!["ERR: 1", "bc"]);
}

#[test]
fn malformed_bytes_become_replacement_characters_and_are_dropped() {
    assert_eq!(decode_capture(&[b'a', 0xFF, b'b', b'\n']), Ok("a\u{FFFD}b\n".to_string()));
    assert_eq!(lines_of(&[b'a', 0xFF, b'b', b'\n']), vec!["ab"]);
}

#[test]
fn lines_end_at_line_feeds() {
    assert_eq!(lines_of(b"one\ntwo\nthree"), vec!["one", "two", "three"]);
    assert_eq!(lines_of(b"one\ntwo\n"), vec!["one", "two"]);
    assert_eq!(lines_of(b"one\n\ntwo\n"), vec!["one", "", "two"]);
    assert_eq!(lines_of(b"\n\n\n\n"), vec!["", "", "", ""]);
}

#[test]
fn carriage_return_before_line_feed_is_removed() {
    assert_eq!(lines_of(b"one\r\ntwo\r\n"), vec!["one", "two"]);
    assert_eq!(lines_of(b"a\rb\r\nlast\r"), vec!["a\rb", "last\r"]);
    assert_eq!(lines_of(b"a\r\r\nb\n"), vec!["a\r", "b"]);
}

#[test]
fn lines_agree_with_the_standard_library() {
    let texts = [
        "abcd", "a\nb\nc\n", "a\r\nb\rc\n\r\n", "\r\n\r\n", "xx\n\n", "tail\r", "\nlead", "a\n\rb",
        "one two\tthree\r\n  \r\n",
    ];
    for text in texts {
        let expected: Vec<String> = text.lines().map(|l| l.to_string()).collect();
        let chars: Vec<char> = text.chars().collect();
        let got: Vec<String> =
            split_ascii_lines(&chars).iter().map(|l| l.iter().collect::<String>()).collect();
        assert_eq!(got, expected, "{:?}", text);
    }
}

#[test]
fn non_ascii_characters_are_dropped_in_place() {
    let text: Vec<char> = "a\u{e9}b\u{4e2d}c\u{7f}\u{80}".chars().collect();
    assert_eq!(keep_ascii(&text), vec!['a', 'b', 'c', '\u{7f}']);
    assert_eq!(lines_of("caf\u{e9} ok\n\u{4e2d}\u{6587}\nend".as_bytes()), vec!["caf ok", "", "end"]);
}

#[test]
fn reader_hands_out_lines_in_order() {
    let mut reader = AsciiLines::new(b"one\ntwo\nthree\n").unwrap();
    assert_eq!(reader.next_line(), Some("one".to_string()));
    assert_eq!(reader.next_line(), Some("two".to_string()));
    assert_eq!(reader.next_line(), Some("three".to_string()));
    assert_eq!(reader.next_line(), None);
    assert_eq!(reader.next_line(), None);
}

#[test]
fn reader_stops_early_and_restarts() {
    let mut reader = AsciiLines::new(b"one\ntwo\nthree\n").unwrap();
    assert_eq!(reader.next_line(), Some("one".to_string()));
    reader.stop();
    assert_eq!(reader.next_line(), None);
    reader.restart();
    assert_eq!(reader.next_line(), Some("one".to_string()));
    assert_eq!(reader.next_line(), Some("two".to_string()));
}

#[test]
fn error_messages_are_not_empty() {
    assert!(!TextError::TooLarge.message().is_empty());
    assert!(!TextError::Unsupported(FileEncoding::UTF32BE).message().is_empty());
}

#[test]
fn capture_file_keeps_bytes_and_encoding() {
    let data = [0xFE, 0xFF, 0x00, b'h', 0x00, b'i'];
    let capture = capture_decode::utils::CaptureFile::new(&data);
    assert_eq!(capture.encoding(), FileEncoding::UTF16BE);
    assert_eq!(capture.text(), Ok("hi".to_string()));
    let short = capture_decode::utils::CaptureFile::new(b"abc");
    assert_eq!(short.encoding(), FileEncoding::Unknown);
    assert_eq!(short.text(), Ok("abc".to_string()));
    let wide = [0x00, 0x00, 0xFE, 0xFF];
    let capture = capture_decode::utils::CaptureFile::new(&wide);
    assert_eq!(capture.text(), Err(TextError::Unsupported(FileEncoding::UTF32BE)));
}
