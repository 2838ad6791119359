use capture_decode::exception_log::{
    process_exception_log, CPURegs, DumpExtractor, DumpState, Outcome, REGISTER_COUNT,
    WDT_THRESHOLD,
};
use capture_decode::utils::{FileEncoding, TextError};

const SENTINEL: &str = "0xXXXXXXXX";

fn token(i: u32) -> String {
    format!("{:08x}", i.wrapping_mul(0x0101_0101).wrapping_add(0xabc0_0000))
}

fn slot(i: u32) -> String {
    format!("0x{:08X}", i.wrapping_mul(0x0101_0101).wrapping_add(0xabc0_0000))
}

fn is_register(s: &str) -> bool {
    let b = s.as_bytes();
    b.len() == 10
        && b[0] == b'0'
        && b[1] == b'x'
        && b[2..].iter().all(|c| c.is_ascii_digit() || (b'A'..=b'F').contains(c))
}

fn tokens(from: u32, to: u32) -> String {
    (from..to).map(token).collect::<Vec<_>>().join(" ")
}

#[test]
fn constants_are_as_documented() {
    assert_eq!(REGISTER_COUNT, 32);
    assert_eq!(WDT_THRESHOLD, 19);
}

#[test]
fn empty_dump_has_32_empty_slots() {
    let dump = CPURegs::new();
    assert_eq!(dump.regs.len(), 32);
    assert!(dump.regs.iter().all(|r| r.is_empty()));
    assert_eq!(dump.header, "");
    let other = CPURegs::default();
    assert_eq!(other.regs.len(), 32);
    assert_eq!(other.header, "");
}

#[test]
fn full_dump_after_header_fills_every_slot() {
    let mut log = String::from("boot\nERR: fault EPC: 80001234\n");
    for line in 0..4 {
        log.push_str(&tokens(line * 8, line * 8 + 8));
        log.push('\n');
    }
    log.push_str("ffffffff\n");
    let dump = process_exception_log(log.as_bytes()).unwrap();
    assert_eq!(dump.header, "ERR: fault EPC: 80001234");
    for i in 0..32u32 {
        assert_eq!(dump.regs[i as usize], slot(i));
        assert!(is_register(&dump.regs[i as usize]));
    }
}

#[test]
fn dump_on_one_line_and_with_wide_spacing() {
    let log = format!("EPC: x ERR: y\n  {}  \n", tokens(0, 32).replace(' ', "   "));
    let dump = process_exception_log(log.as_bytes()).unwrap();
    assert_eq!(dump.header, "EPC: x ERR: y");
    for i in 0..32u32 {
        assert_eq!(dump.regs[i as usize], slot(i));
    }
}

#[test]
fn register_values_are_written_in_upper_case() {
    let log = "ERR: EPC:\ndeadbeef 0000000a\n";
    let dump = process_exception_log(log.as_bytes()).unwrap();
    assert_eq!(dump.regs[0], "0xDEADBEEF");
    assert_eq!(dump.regs[1], "0x0000000A");
    assert_eq!(dump.regs[2], "");
}

#[test]
fn tokens_of_the_header_line_are_not_read() {
    let log = "ERR: EPC: 11111111 22222222\n33333333\n";
    let dump = process_exception_log(log.as_bytes()).unwrap();
    assert_eq!(dump.regs[0], "0x33333333");
    assert_eq!(dump.regs[1], "");
}

#[test]
fn log_that_ends_early_gives_the_partial_dump() {
    let log = format!("ERR: EPC:\n{}\n", tokens(0, 5));
    let dump = process_exception_log(log.as_bytes()).unwrap();
    for i in 0..5u32 {
        assert_eq!(dump.regs[i as usize], slot(i));
    }
    for i in 5..32 {
        assert_eq!(dump.regs[i], "");
    }
}

#[test]
fn log_without_header_gives_the_empty_dump() {
    let dump = process_exception_log(b"11111111 22222222\nERR: only\nEPC: only\n").unwrap();
    assert!(dump.regs.iter().all(|r| r.is_empty()));
    assert_eq!(dump.header, "");
}

#[test]
fn token_that_is_no_register_value_ends_the_reading_after_its_line() {
    let log = "ERR: EPC:\n00000001 zz 00000003\n00000004\n";
    let dump = process_exception_log(log.as_bytes()).unwrap();
    assert_eq!(dump.regs[0], "0x00000001");
    assert_eq!(dump.regs[1], "");
    assert_eq!(dump.regs[2], "0x00000003");
    assert_eq!(dump.regs[3], "");
}

#[test]
fn register_value_has_exactly_eight_digits() {
    let log = "ERR: EPC:\n1f 000000001 +0000001 0x000001 00000005\n";
    let dump = process_exception_log(log.as_bytes()).unwrap();
    assert_eq!(dump.regs[0], "");
    assert_eq!(dump.regs[1], "");
    assert_eq!(dump.regs[2], "");
    assert_eq!(dump.regs[3], "");
    assert_eq!(dump.regs[4], "0x00000005");
}

#[test]
fn tokens_beyond_the_last_slot_are_left_alone() {
    let log = format!("ERR: EPC:\n{}\n", tokens(0, 40));
    let dump = process_exception_log(log.as_bytes()).unwrap();
    for i in 0..32u32 {
        assert_eq!(dump.regs[i as usize], slot(i));
    }
}

#[test]
fn new_header_restarts_at_slot_zero_and_keeps_old_slots() {
    let log = "ERR: EPC: first\n11111111 22222222\nERR: EPC: second\n33333333\n";
    let dump = process_exception_log(log.as_bytes()).unwrap();
    assert_eq!(dump.header, "ERR: EPC: second");
    assert_eq!(dump.regs[0], "0x33333333");
    assert_eq!(dump.regs[1], "0x22222222");
}

#[test]
fn watchdog_dump_on_one_line_leaves_the_gaps() {
    let log = format!("WDT_RST: reason\n{}\n", tokens(0, 19));
    let dump = process_exception_log(log.as_bytes()).unwrap();
    assert_eq!(dump.header, "WDT_RST: reason");
    assert_eq!(dump.regs[0], SENTINEL);
    assert_eq!(dump.regs[1], slot(0));
    assert_eq!(dump.regs[2], SENTINEL);
    assert_eq!(dump.regs[3], SENTINEL);
    for i in 4..18u32 {
        assert_eq!(dump.regs[i as usize], slot(i - 3));
    }
    for i in 18..28 {
        assert_eq!(dump.regs[i], SENTINEL);
    }
    for i in 28..32u32 {
        assert_eq!(dump.regs[i as usize], slot(i - 13));
    }
}

#[test]
fn watchdog_dump_is_complete_at_index_19() {
    let mut log = String::from("WDT_RST:\n");
    for line in 0..5 {
        log.push_str(&tokens(line * 4, line * 4 + 4));
        log.push('\n');
    }
    let dump = process_exception_log(log.as_bytes()).unwrap();
    assert_eq!(dump.regs[0], SENTINEL);
    assert_eq!(dump.regs[1], slot(0));
    assert_eq!(dump.regs[4], slot(1));
    assert_eq!(dump.regs[17], slot(14));
    for i in 18..28 {
        assert_eq!(dump.regs[i], SENTINEL);
    }
    assert_eq!(dump.regs[28], slot(15));
    assert_eq!(dump.regs[29], "");
    assert_eq!(dump.regs[30], "");
    assert_eq!(dump.regs[31], "");
}

#[test]
fn watchdog_gap_is_filled_only_before_a_token() {
    let dump = process_exception_log(b"WDT_RST:\n\n   \n").unwrap();
    assert_eq!(dump.regs[0], "");
    let dump = process_exception_log(b"WDT_RST:\n11111111\n").unwrap();
    assert_eq!(dump.regs[0], SENTINEL);
    assert_eq!(dump.regs[1], "0x11111111");
    assert_eq!(dump.regs[2], "");
    let dump = process_exception_log(b"WDT_RST:\nnothex\n").unwrap();
    assert_eq!(dump.regs[0], SENTINEL);
    assert_eq!(dump.regs[1], "");
}

#[test]
fn line_with_both_kinds_of_marker_starts_a_full_dump() {
    let log = format!("WDT_RST: ERR: EPC:\n{}\n", tokens(0, 2));
    let dump = process_exception_log(log.as_bytes()).unwrap();
    assert_eq!(dump.regs[0], slot(0));
    assert_eq!(dump.regs[1], slot(1));
}

#[test]
fn undecodable_log_is_an_error() {
    assert_eq!(
        process_exception_log(&[0xFF, 0xFE, 0x00, 0x00, 0x41, 0x00, 0x00, 0x00]).err(),
        Some(TextError::Unsupported(FileEncoding::UTF32LE))
    );
    let short = process_exception_log(b"ab").unwrap();
    assert!(short.regs.iter().all(|r| r.is_empty()));
    assert_eq!(short.header, "");
    let empty = process_exception_log(b"").unwrap();
    assert_eq!(empty.regs.len(), 32);
}

#[test]
fn extractor_walks_through_its_states() {
    let mut extractor = DumpExtractor::new();
    assert_eq!(extractor.state(), DumpState::Idle);
    assert_eq!(extractor.advance("11111111"), Outcome::Continue);
    assert_eq!(extractor.state(), DumpState::Idle);
    assert_eq!(extractor.advance("ERR: x EPC: y"), Outcome::Continue);
    assert_eq!(extractor.state(), DumpState::CapturingEpc(0));
    assert_eq!(extractor.advance("11111111 22222222"), Outcome::Continue);
    assert_eq!(extractor.state(), DumpState::CapturingEpc(2));
    assert_eq!(extractor.advance("oops"), Outcome::Continue);
    assert_eq!(extractor.state(), DumpState::Errored);
    assert_eq!(extractor.advance("33333333"), Outcome::Continue);
    assert_eq!(extractor.state(), DumpState::Errored);
    assert_eq!(extractor.advance("WDT_RST: z"), Outcome::Continue);
    assert_eq!(extractor.state(), DumpState::CapturingWdt(0));
    assert_eq!(extractor.advance("44444444"), Outcome::Continue);
    assert_eq!(extractor.state(), DumpState::CapturingWdt(2));
    assert_eq!(extractor.advance(&tokens(0, 18)), Outcome::Done);
    let dump = extractor.dump();
    assert_eq!(dump.header, "WDT_RST: z");
    assert_eq!(dump.regs[0], SENTINEL);
    assert_eq!(dump.regs[1], "0x44444444");
    assert_eq!(dump.regs[2], SENTINEL);
    assert_eq!(dump.regs[4], slot(0));
    assert_eq!(dump.regs[31], slot(17));
}

#[test]
fn extractor_is_done_when_the_last_slot_is_filled() {
    let mut extractor = DumpExtractor::new();
    extractor.advance("ERR: EPC:");
    assert_eq!(extractor.advance(&tokens(0, 31)), Outcome::Continue);
    assert_eq!(extractor.state(), DumpState::CapturingEpc(31));
    assert_eq!(extractor.advance(""), Outcome::Continue);
    assert_eq!(extractor.advance(&token(31)), Outcome::Done);
    let dump = extractor.dump();
    assert!(dump.regs.iter().all(|r| is_register(r)));
}

#[test]
fn watchdog_dump_of_sixteen_values_loses_no_token_to_a_gap() {
    for per_line in [1usize, 3, 5, 8, 16] {
        let mut log = String::from("WDT_RST: watchdog\n");
        let mut k = 0u32;
        while k < 16 {
            let end = (k + per_line as u32).min(16);
            log.push_str(&tokens(k, end));
            log.push('\n');
            k = end;
        }
        let dump = process_exception_log(log.as_bytes()).unwrap();
        assert_eq!(dump.header, "WDT_RST: watchdog");
        for gap in [0usize, 2, 3].into_iter().chain(18..28) {
            assert_eq!(dump.regs[gap], SENTINEL, "{} per line, slot {}", per_line, gap);
        }
        assert_eq!(dump.regs[1], slot(0));
        for j in 1..15u32 {
            assert_eq!(dump.regs[(j + 3) as usize], slot(j), "{} per line", per_line);
        }
        assert_eq!(dump.regs[28], slot(15));
        assert_eq!(dump.regs[29], "");
    }
}

#[test]
fn full_dump_holds_the_values_in_the_order_of_the_tokens() {
    for per_line in [1usize, 4, 7, 32] {
        let mut log = String::from("ERR: x EPC: y\n");
        let mut k = 0u32;
        while k < 32 {
            let end = (k + per_line as u32).min(32);
            log.push_str(&tokens(k, end));
            log.push('\n');
            k = end;
        }
        let dump = process_exception_log(log.as_bytes()).unwrap();
        for j in 0..32u32 {
            assert_eq!(dump.regs[j as usize], slot(j), "{} per line", per_line);
        }
    }
}
