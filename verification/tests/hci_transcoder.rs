use capture_decode::hci_log::{
    cfa_path, direction, encode_record, file_header, flags_for, framing_byte, is_valid_line,
    packet_type, parse_clock, parse_hci_log, parse_timestamp, read_hci_line, remove_extension,
    transcode_line, Clock, Direction, HciError, HciLogOptions, MismatchPolicy, PacketType,
    TimestampError, BTSNOOP_EPOCH_OFFSET,
};
use capture_decode::utils::{FileEncoding, TextError};

const MODIFIED: u64 = 1_700_000_000;

fn chars(s: &str) -> Vec<char> {
    s.chars().collect()
}

fn lenient() -> HciLogOptions {
    HciLogOptions::new(false, 0)
}

fn strict() -> HciLogOptions {
    HciLogOptions { bluetrum_ts: false, skip_chars: 0, on_mismatch: MismatchPolicy::Abort }
}

fn record(flags: u32, time: u64, packet: &[u8]) -> Vec<u8> {
    let mut out = Vec::new();
    out.extend_from_slice(&(packet.len() as u32).to_be_bytes());
    out.extend_from_slice(&(packet.len() as u32).to_be_bytes());
    out.extend_from_slice(&flags.to_be_bytes());
    out.extend_from_slice(&0u32.to_be_bytes());
    out.extend_from_slice(&time.to_be_bytes());
    out.extend_from_slice(packet);
    out
}

fn header() -> Vec<u8> {
    let mut out = b"btsnoop\0".to_vec();
    out.extend_from_slice(&1u32.to_be_bytes());
    out.extend_from_slice(&1002u32.to_be_bytes());
    out
}

fn time_of(h: u64, m: u64, s: u64, us: u64) -> u64 {
    (MODIFIED + h * 3600 + m * 60 + s) * 1_000_000 + us + 0x00DC_DDB3_0F2F_8000
}

#[test]
fn trace_lines_are_valid() {
    assert!(is_valid_line("[00:00:02.740] CMD => 01 02 03"));
    assert!(is_valid_line("[12:34:56.000001]\tEVT  <=   0e"));
    assert!(is_valid_line("  [x] ACL <= FF ab"));
    assert!(is_valid_line("[] ACL => 00"));
}

#[test]
fn lines_with_fewer_than_four_tokens_are_invalid() {
    assert!(!is_valid_line(""));
    assert!(!is_valid_line("[00:00:02.740] CMD =>"));
    assert!(!is_valid_line("[00:00:02.740] CMD"));
}

#[test]
fn time_stamp_must_be_bracketed() {
    assert!(!is_valid_line("00:00:02.740 CMD => 01"));
    assert!(!is_valid_line("[00:00:02.740 CMD => 01"));
    assert!(!is_valid_line("00:00:02.740] CMD => 01"));
    assert!(!is_valid_line("[ CMD => 01"));
}

#[test]
fn packet_type_and_direction_must_be_known() {
    assert!(!is_valid_line("[00:00:02.740] cmd => 01"));
    assert!(!is_valid_line("[00:00:02.740] SCO => 01"));
    assert!(!is_valid_line("[00:00:02.740] CMD -> 01"));
    assert!(!is_valid_line("[00:00:02.740] CMD >= 01"));
}

#[test]
fn payload_tokens_must_be_two_hex_digits() {
    assert!(!is_valid_line("[00:00:02.740] CMD => 01 0g"));
    assert!(!is_valid_line("[00:00:02.740] CMD => 1"));
    assert!(!is_valid_line("[00:00:02.740] CMD => 001"));
    assert!(!is_valid_line("[00:00:02.740] CMD => +1"));
    assert!(!is_valid_line("[00:00:02.740] CMD => 01 02 0"));
}

#[test]
fn tokens_map_to_types_and_directions() {
    assert_eq!(packet_type(&chars("CMD")), Some(PacketType::Cmd));
    assert_eq!(packet_type(&chars("ACL")), Some(PacketType::Acl));
    assert_eq!(packet_type(&chars("EVT")), Some(PacketType::Evt));
    assert_eq!(packet_type(&chars("EVTS")), None);
    assert_eq!(direction(&chars("=>")), Some(Direction::Out));
    assert_eq!(direction(&chars("<=")), Some(Direction::In));
    assert_eq!(direction(&chars("==")), None);
}

#[test]
fn framing_bytes_follow_the_table() {
    assert_eq!(framing_byte(PacketType::Cmd), 0x01);
    assert_eq!(framing_byte(PacketType::Acl), 0x02);
    assert_eq!(framing_byte(PacketType::Evt), 0x04);
}

#[test]
fn flags_follow_the_table() {
    assert_eq!(flags_for(PacketType::Cmd, Direction::Out), Some(0x02));
    assert_eq!(flags_for(PacketType::Evt, Direction::In), Some(0x03));
    assert_eq!(flags_for(PacketType::Acl, Direction::Out), Some(0x00));
    assert_eq!(flags_for(PacketType::Acl, Direction::In), Some(0x01));
    assert_eq!(flags_for(PacketType::Cmd, Direction::In), None);
    assert_eq!(flags_for(PacketType::Evt, Direction::Out), None);
}

#[test]
fn epoch_offset_is_the_documented_constant() {
    assert_eq!(BTSNOOP_EPOCH_OFFSET, 0x00DCDDB30F2F8000);
}

#[test]
fn time_stamp_gives_btsnoop_time() {
    assert_eq!(parse_timestamp(MODIFIED, "[00:00:02.740]"), Ok(time_of(0, 0, 2, 740)));
    assert_eq!(parse_timestamp(MODIFIED, "[01:02:03.000004]"), Ok(time_of(1, 2, 3, 4)));
    assert_eq!(parse_timestamp(0, "[00:00:00.0]"), Ok(0x00DCDDB30F2F8000));
    assert_eq!(parse_timestamp(5, "10:00:01.999999"), Ok((5 + 36001) * 1_000_000 + 999_999 + 0x00DCDDB30F2F8000));
    assert_eq!(parse_timestamp(MODIFIED, "[[+1:+2:+3.+4]]"), Ok(time_of(1, 2, 3, 4)));
}

#[test]
fn time_stamp_errors_name_the_field() {
    assert_eq!(parse_timestamp(MODIFIED, "[00:00:02]"), Err(TimestampError::Format));
    assert_eq!(parse_timestamp(MODIFIED, "[00:00:02.1.2]"), Err(TimestampError::Format));
    assert_eq!(parse_timestamp(MODIFIED, "[00:02.5]"), Err(TimestampError::Format));
    assert_eq!(parse_timestamp(MODIFIED, "[1:2:3:4.5]"), Err(TimestampError::Format));
    assert_eq!(parse_timestamp(MODIFIED, "[]"), Err(TimestampError::Format));
    assert_eq!(parse_timestamp(MODIFIED, "[xx:00:02.5]"), Err(TimestampError::Hours));
    assert_eq!(parse_timestamp(MODIFIED, "[:00:02.5]"), Err(TimestampError::Hours));
    assert_eq!(parse_timestamp(MODIFIED, "[00:-1:02.5]"), Err(TimestampError::Minutes));
    assert_eq!(parse_timestamp(MODIFIED, "[00:00: 2.5]"), Err(TimestampError::Seconds));
    assert_eq!(parse_timestamp(MODIFIED, "[00:00:02.]"), Err(TimestampError::Microseconds));
    assert_eq!(parse_timestamp(MODIFIED, "[00:00:02.4294967296]"), Err(TimestampError::Microseconds));
    assert_eq!(parse_timestamp(MODIFIED, "[00:00:02.4294967295]"), Ok(time_of(0, 0, 2, 4294967295)));
    assert_eq!(parse_timestamp(u64::MAX, "[00:00:00.0]"), Err(TimestampError::Overflow));
}

#[test]
fn clock_holds_the_four_fields() {
    assert_eq!(
        parse_clock(&chars("[23:59:58.123456]")),
        Ok(Clock { hours: 23, minutes: 59, seconds: 58, micros: 123456 })
    );
    assert_eq!(
        parse_clock(&chars("[007:0:00000000001.0]")),
        Ok(Clock { hours: 7, minutes: 0, seconds: 1, micros: 0 })
    );
}

#[test]
fn extension_is_removed() {
    assert_eq!(remove_extension("trace.log"), "trace");
    assert_eq!(remove_extension("/tmp/dir/trace.hci.log"), "/tmp/dir/trace.hci");
    assert_eq!(remove_extension("trace"), "trace");
    assert_eq!(remove_extension("/tmp/dir.d/trace"), "/tmp/dir.d/trace");
    assert_eq!(remove_extension("./trace"), "./trace");
    assert_eq!(remove_extension(".hidden"), "");
    assert_eq!(remove_extension("dir/.hidden"), "dir/");
    assert_eq!(remove_extension(""), "");
    assert_eq!(remove_extension("a."), "a");
}

#[test]
fn capture_path_ends_in_cfa() {
    assert_eq!(cfa_path("/logs/hci.txt"), "/logs/hci.cfa");
    assert_eq!(cfa_path("hci"), "hci.cfa");
}

#[test]
fn file_header_is_sixteen_bytes() {
    assert_eq!(file_header(), header());
    assert_eq!(file_header().len(), 16);
    assert_eq!(
        file_header(),
        vec![0x62, 0x74, 0x73, 0x6E, 0x6F, 0x6F, 0x70, 0x00, 0, 0, 0, 1, 0, 0, 0x03, 0xEA]
    );
}

#[test]
fn record_is_packed_big_endian() {
    let packet = vec![0x01, 0xAA, 0xBB];
    let got = encode_record(0x0102_0304, 0x1122_3344_5566_7788, &packet);
    assert_eq!(
        got,
        vec![
            0, 0, 0, 3, 0, 0, 0, 3, 1, 2, 3, 4, 0, 0, 0, 0, 0x11, 0x22, 0x33, 0x44, 0x55, 0x66,
            0x77, 0x88, 0x01, 0xAA, 0xBB
        ]
    );
    assert_eq!(encode_record(0, 0, &Vec::new()), vec![0u8; 24]);
}

#[test]
fn command_line_becomes_one_record() {
    let got = transcode_line("[00:00:02.740] CMD => 01 02 03", MODIFIED, &lenient()).unwrap().unwrap();
    assert_eq!(got, record(0x02, time_of(0, 0, 2, 740), &[0x01, 0x01, 0x02, 0x03]));
    assert_eq!(&got[0..4], &[0, 0, 0, 4]);
    assert_eq!(&got[4..8], &[0, 0, 0, 4]);
    assert_eq!(&got[8..12], &[0, 0, 0, 2]);
    assert_eq!(&got[12..16], &[0, 0, 0, 0]);
    let expected_time: u64 = (1_700_000_000 + 2) * 1_000_000 + 740 + 0x00DCDDB30F2F8000;
    assert_eq!(&got[16..24], &expected_time.to_be_bytes());
    assert_eq!(got.len(), 28);
}

#[test]
fn each_mapped_combination_has_its_flags() {
    let evt = transcode_line("[00:00:00.1] EVT <= 0e 04", MODIFIED, &lenient()).unwrap().unwrap();
    assert_eq!(evt, record(0x03, time_of(0, 0, 0, 1), &[0x04, 0x0e, 0x04]));
    let out = transcode_line("[00:00:00.1] ACL => fF", MODIFIED, &lenient()).unwrap().unwrap();
    assert_eq!(out, record(0x00, time_of(0, 0, 0, 1), &[0x02, 0xff]));
    let inn = transcode_line("[00:00:00.1] ACL <= 00", MODIFIED, &lenient()).unwrap().unwrap();
    assert_eq!(inn, record(0x01, time_of(0, 0, 0, 1), &[0x02, 0x00]));
}

#[test]
fn invalid_lines_are_passed_over_under_both_policies() {
    assert_eq!(transcode_line("hello world", MODIFIED, &lenient()), Ok(None));
    assert_eq!(transcode_line("hello world", MODIFIED, &strict()), Ok(None));
    assert_eq!(transcode_line("", MODIFIED, &strict()), Ok(None));
}

#[test]
fn odd_number_of_hex_characters_is_skipped() {
    assert_eq!(transcode_line("[00:00:02.740] CMD => 01 02 3", MODIFIED, &lenient()), Ok(None));
    assert_eq!(transcode_line("[00:00:02.740] CMD => 010", MODIFIED, &lenient()), Ok(None));
    assert_eq!(transcode_line("[00:00:02.740] CMD => 01 02 3", MODIFIED, &strict()), Ok(None));
    let trace = b"[00:00:01.0] CMD => 01\n[00:00:02.0] CMD => 01 2\n[00:00:03.0] EVT <= 0e\n";
    let mut expected = header();
    expected.extend(record(0x02, time_of(0, 0, 1, 0), &[0x01, 0x01]));
    expected.extend(record(0x03, time_of(0, 0, 3, 0), &[0x04, 0x0e]));
    assert_eq!(parse_hci_log(trace, MODIFIED, &lenient()), Ok(expected));
}

#[test]
fn unmapped_combination_follows_the_policy() {
    assert_eq!(transcode_line("[00:00:02.740] CMD <= 01", MODIFIED, &lenient()), Ok(None));
    assert_eq!(transcode_line("[00:00:02.740] EVT => 01", MODIFIED, &lenient()), Ok(None));
    assert_eq!(
        transcode_line("[00:00:02.740] CMD <= 01", MODIFIED, &strict()),
        Err(HciError::UnknownCombination(PacketType::Cmd, Direction::In))
    );
    assert_eq!(
        transcode_line("[00:00:02.740] EVT => 01", MODIFIED, &strict()),
        Err(HciError::UnknownCombination(PacketType::Evt, Direction::Out))
    );
}

#[test]
fn unreadable_time_stamp_follows_the_policy() {
    assert_eq!(transcode_line("[soon] CMD => 01", MODIFIED, &lenient()), Ok(None));
    assert_eq!(
        transcode_line("[soon] CMD => 01", MODIFIED, &strict()),
        Err(HciError::Timestamp(TimestampError::Format))
    );
    assert_eq!(
        transcode_line("[aa:00:00.0] CMD => 01", MODIFIED, &strict()),
        Err(HciError::Timestamp(TimestampError::Hours))
    );
}

#[test]
fn leading_characters_are_skipped() {
    let options = HciLogOptions::new(false, 6);
    let got = transcode_line("I/hci [00:00:02.740] CMD => 01", MODIFIED, &options).unwrap().unwrap();
    assert_eq!(got, record(0x02, time_of(0, 0, 2, 740), &[0x01, 0x01]));
    let too_many = HciLogOptions::new(false, 1000);
    assert_eq!(transcode_line("[00:00:02.740] CMD => 01", MODIFIED, &too_many), Ok(None));
    let one = HciLogOptions::new(false, 1);
    assert_eq!(transcode_line("[00:00:02.740] CMD => 01", MODIFIED, &one), Ok(None));
}

#[test]
fn vendor_time_stamp_is_stripped() {
    let options = HciLogOptions::new(true, 0);
    let got =
        transcode_line("(12:34:56.789)[00:00:02.740] CMD => 01", MODIFIED, &options).unwrap().unwrap();
    assert_eq!(got, record(0x02, time_of(0, 0, 2, 740), &[0x01, 0x01]));
    let spaced =
        transcode_line("(12:34:56.789) [00:00:02.740] CMD => 01", MODIFIED, &options).unwrap().unwrap();
    assert_eq!(spaced, got);
    assert_eq!(
        transcode_line("(12:34:56.789)[00:00:02.740] CMD => 01", MODIFIED, &lenient()),
        Ok(None)
    );
}

#[test]
fn vendor_time_stamp_of_another_shape_stays() {
    let options = HciLogOptions::new(true, 0);
    assert_eq!(transcode_line("(12:34:56.78)[00:00:02.740] CMD => 01", MODIFIED, &options), Ok(None));
    assert_eq!(transcode_line("(1:34:56.789)[00:00:02.740] CMD => 01", MODIFIED, &options), Ok(None));
    assert_eq!(transcode_line("(12:34:56,789)[00:00:02.740] CMD => 01", MODIFIED, &options), Ok(None));
    let plain = transcode_line("[00:00:02.740] CMD => 01", MODIFIED, &options).unwrap().unwrap();
    assert_eq!(plain, record(0x02, time_of(0, 0, 2, 740), &[0x01, 0x01]));
    let both = HciLogOptions::new(true, 2);
    let got = transcode_line("> (12:34:56.789)[00:00:02.740] CMD => 01", MODIFIED, &both).unwrap().unwrap();
    assert_eq!(got, plain);
}

#[test]
fn non_ascii_characters_of_a_line_are_dropped() {
    let got = transcode_line("[00:00:02.740] C\u{e9}MD => 01", MODIFIED, &lenient()).unwrap().unwrap();
    assert_eq!(got, record(0x02, time_of(0, 0, 2, 740), &[0x01, 0x01]));
}

#[test]
fn trace_becomes_capture() {
    let trace = b"boot banner\r\n[00:00:02.740] CMD => 01 02 03\r\n[00:00:02.741] EVT <= 0e 04 01\r\nnoise\r\n[00:00:03.000] ACL => 02\r\n";
    let mut expected = header();
    expected.extend(record(0x02, time_of(0, 0, 2, 740), &[0x01, 0x01, 0x02, 0x03]));
    expected.extend(record(0x03, time_of(0, 0, 2, 741), &[0x04, 0x0e, 0x04, 0x01]));
    expected.extend(record(0x00, time_of(0, 0, 3, 0), &[0x02, 0x02]));
    assert_eq!(parse_hci_log(trace, MODIFIED, &lenient()), Ok(expected));
}

#[test]
fn trace_without_records_gives_the_header_alone() {
    assert_eq!(parse_hci_log(b"nothing here\n", MODIFIED, &lenient()), Ok(header()));
}

#[test]
fn transcoding_twice_gives_the_same_bytes() {
    let trace = b"[00:00:02.740] CMD => 01 02 03\n[00:00:02.741] EVT <= 0e 04 01\nx\n";
    let first = parse_hci_log(trace, MODIFIED, &lenient());
    let second = parse_hci_log(trace, MODIFIED, &lenient());
    assert!(first.is_ok());
    assert_eq!(first, second);
}

#[test]
fn strict_run_fails_at_the_first_unmapped_line() {
    let trace = b"[00:00:01.0] CMD => 01\n[00:00:02.0] CMD <= 01\n[bad] EVT <= 0e\n";
    assert_eq!(
        parse_hci_log(trace, MODIFIED, &strict()),
        Err(HciError::UnknownCombination(PacketType::Cmd, Direction::In))
    );
    let mut expected = header();
    expected.extend(record(0x02, time_of(0, 0, 1, 0), &[0x01, 0x01]));
    assert_eq!(parse_hci_log(trace, MODIFIED, &lenient()), Ok(expected));
}

#[test]
fn undecodable_trace_fails_the_run() {
    assert_eq!(
        parse_hci_log(&[0x00, 0x00, 0xFE, 0xFF], MODIFIED, &lenient()),
        Err(HciError::Text(TextError::Unsupported(FileEncoding::UTF32BE)))
    );
    assert_eq!(
        parse_hci_log(&[0xFF, 0xFE, 0, 0, 1, 2, 3, 4], MODIFIED, &lenient()),
        Err(HciError::Text(TextError::Unsupported(FileEncoding::UTF32LE)))
    );
}

#[test]
fn line_is_read_into_its_parts() {
    let line = read_hci_line("[01:02:03.45] ACL <= 0a 0B").unwrap();
    assert_eq!(line.clock, Clock { hours: 1, minutes: 2, seconds: 3, micros: 45 });
    assert_eq!(line.packet_type, PacketType::Acl);
    assert_eq!(line.direction, Direction::In);
    assert_eq!(line.payload, vec![0x0a, 0x0b]);
    assert!(read_hci_line("[01:02.45] ACL <= 0a").is_none());
    assert!(read_hci_line("[01:02:03.45] ACL <= 0").is_none());
}

#[test]
fn hci_error_messages_are_not_empty() {
    assert_eq!(TimestampError::Format.message(), "Invalid timestamp format");
    assert_eq!(TimestampError::Hours.message(), "Failed to parse hours");
    assert_eq!(TimestampError::Minutes.message(), "Failed to parse minutes");
    assert_eq!(TimestampError::Seconds.message(), "Failed to parse seconds");
    assert_eq!(TimestampError::Microseconds.message(), "Failed to parse microseconds");
    assert!(!TimestampError::Overflow.message().is_empty());
    assert!(!HciError::Text(TextError::TooLarge).message().is_empty());
    assert_eq!(HciError::Timestamp(TimestampError::Hours).message(), "Failed to parse hours");
    assert!(!HciError::UnknownCombination(PacketType::Cmd, Direction::In).message().is_empty());
}

#[test]
fn record_holds_the_packet_length_twice() {
    let record = capture_decode::hci_log::BtSnoopRecord::new(3, 77, PacketType::Evt, &vec![0x0e, 0x01]);
    assert_eq!(record.original_len, 3);
    assert_eq!(record.included_len, 3);
    assert_eq!(record.flags, 3);
    assert_eq!(record.drops, 0);
    assert_eq!(record.timestamp_us, 77);
    assert_eq!(record.packet, vec![0x04, 0x0e, 0x01]);
    assert_eq!(record.to_bytes(), encode_record(3, 77, &vec![0x04, 0x0e, 0x01]));
}

#[test]
fn short_trace_gives_the_header_alone() {
    assert_eq!(parse_hci_log(b"ab", MODIFIED, &lenient()), Ok(header()));
    assert_eq!(parse_hci_log(b"", MODIFIED, &lenient()), Ok(header()));
    assert_eq!(parse_hci_log(b"", MODIFIED, &strict()), Ok(header()));
}
