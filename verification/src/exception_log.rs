//! Register dump extractor: a state machine over the lines of a crash log
//! that recognizes two dump layouts and fills a table of 32 registers.
//!
//! A line that holds both `ERR:` and `EPC:` starts a dump of 32 registers. A
//! line that holds `WDT_RST:` starts a watchdog dump of 19 registers, which
//! leaves fixed gaps in the table.

use crate::number::{
    all_hex, format_register, hex_number, is_hex_digit, is_register_text, lemma_register_text_shape,
    parse_hex, register_text,
};
use crate::text::{
    chars_of, contains_chars, contains_text, occurs_at, split_words, string_of, string_views,
    views, words, words_acc,
};
use crate::utils::{capture_lines, decodable, read_lines, TextError};
use vstd::prelude::*;

verus! {

/// The number of register slots in a dump.
pub const REGISTER_COUNT: usize = 32;

/// The index at which a watchdog dump is complete.
pub const WDT_THRESHOLD: usize = 19;

/// A register dump: the header line that announced it, and 32 slots. A slot
/// that was filled holds `0x` and eight upper-case hexadecimal digits; a gap
/// of a watchdog dump holds `0xXXXXXXXX`; a slot never reached is empty.
#[derive(Clone, Debug)]
pub struct CPURegs {
    pub regs: Vec<String>,
    pub header: String,
}

impl CPURegs {
    /// The slots as text.
    pub open spec fn slots(&self) -> Seq<Seq<char>> {
        string_views(self.regs@)
    }

    /// Whether the value is well formed.
    pub open spec fn wf(&self) -> bool {
        self.regs.len() == REGISTER_COUNT
    }

    /// The dump with every slot and the header empty.
    pub fn new() -> (r: CPURegs)
        ensures
            r.wf(),
            r.header@ == Seq::<char>::empty(),
            forall|k: int| 0 <= k < 32 ==> #[trigger] r.slots()[k] == Seq::<char>::empty(),
    {
        let mut regs: Vec<String> = Vec::new();
        let mut i: usize = 0;
        while i < REGISTER_COUNT
            invariant
                i <= REGISTER_COUNT,
                regs.len() == i,
                forall|k: int| 0 <= k < i ==> (#[trigger] regs[k])@ == Seq::<char>::empty(),
            decreases REGISTER_COUNT - i,
        {
            regs.push(String::new());
            i += 1;
        }
        CPURegs { regs, header: String::new() }
    }
}

impl Default for CPURegs {
    fn default() -> (r: CPURegs)
        ensures
            r.wf(),
            r.header@ == Seq::<char>::empty(),
            forall|k: int| 0 <= k < 32 ==> #[trigger] r.slots()[k] == Seq::<char>::empty(),
    {
        CPURegs::new()
    }
}

/// Where the extractor stands.
#[derive(Clone, Copy, Debug, PartialEq, Eq, Structural)]
pub enum DumpState {
    /// No dump has been announced.
    Idle,
    /// In a 32-register dump; the slot that the next token fills.
    CapturingEpc(usize),
    /// In a watchdog dump; the slot that the next token fills, gaps aside.
    CapturingWdt(usize),
    /// A token of the dump was no register value.
    Errored,
}

/// What a line did to the extraction.
#[derive(Clone, Copy, Debug, PartialEq, Eq, Structural)]
pub enum Outcome {
    /// More lines are wanted.
    Continue,
    /// The dump is complete.
    Done,
}

/// The extraction as a value: state, slots and header.
pub struct DumpModel {
    pub state: DumpState,
    pub regs: Seq<Seq<char>>,
    pub header: Seq<char>,
}

/// The filling of slots within one line: the slots, the index of the next
/// slot, and whether a token was no register value.
pub struct Fill {
    pub regs: Seq<Seq<char>>,
    pub index: int,
    pub failed: bool,
}

/// The filling with these slots, this index and this failure mark.
pub open spec fn fill_of(regs: Seq<Seq<char>>, index: int, failed: bool) -> Fill {
    Fill { regs, index, failed }
}

/// What stands in a gap of a watchdog dump.
pub open spec fn sentinel() -> Seq<char> {
    seq!['0', 'x', 'X', 'X', 'X', 'X', 'X', 'X', 'X', 'X']
}

/// The first marker of a 32-register dump.
pub open spec fn err_marker() -> Seq<char> {
    seq!['E', 'R', 'R', ':']
}

/// The second marker of a 32-register dump.
pub open spec fn epc_marker() -> Seq<char> {
    seq!['E', 'P', 'C', ':']
}

/// The marker of a watchdog dump.
pub open spec fn wdt_marker() -> Seq<char> {
    seq!['W', 'D', 'T', '_', 'R', 'S', 'T', ':']
}

/// Whether a line announces a 32-register dump.
pub open spec fn is_epc_header(line: Seq<char>) -> bool {
    contains_text(line, err_marker()) && contains_text(line, epc_marker())
}

/// Whether a line announces a watchdog dump.
pub open spec fn is_wdt_header(line: Seq<char>) -> bool {
    !is_epc_header(line) && contains_text(line, wdt_marker())
}

/// A token in a 32-register dump: eight hexadecimal digits fill the slot,
/// anything else marks the failure; either way the index moves on. Once all
/// slots are passed, tokens are left alone.
pub open spec fn epc_step(f: Fill, tok: Seq<char>) -> Fill {
    if f.index >= 32 {
        f
    } else {
        match hex_number(tok, 8) {
            Some(v) => Fill {
                regs: f.regs.update(f.index, register_text(v)),
                index: f.index + 1,
                failed: f.failed,
            },
            None => Fill { regs: f.regs, index: f.index + 1, failed: true },
        }
    }
}

/// Whether a slot is a gap of the watchdog layout.
pub open spec fn is_gap(k: int) -> bool {
    k == 0 || k == 2 || k == 3 || (18 <= k < 28)
}

/// The first slot at or after `index` that takes a token in a watchdog dump:
/// slot 0 is passed over, slots 2 and 3, and slots 18 to 27.
pub open spec fn gap_end(index: int) -> int {
    if index == 0 {
        1
    } else if index == 2 {
        4
    } else if index == 18 {
        28
    } else {
        index
    }
}

/// The slots with the gap that starts at `index`, if one does, filled with
/// the sentinel.
pub open spec fn with_gap(regs: Seq<Seq<char>>, index: int) -> Seq<Seq<char>> {
    Seq::new(
        regs.len(),
        |k: int|
            if index <= k < gap_end(index) {
                sentinel()
            } else {
                regs[k]
            },
    )
}

/// A token in a watchdog dump: first the gap at the index, if any, is
/// filled with the sentinel; then the token is read as in a 32-register dump.
pub open spec fn wdt_step(f: Fill, tok: Seq<char>) -> Fill {
    if f.index >= 32 {
        f
    } else {
        let regs = with_gap(f.regs, f.index);
        let at = gap_end(f.index);
        match hex_number(tok, 8) {
            Some(v) => Fill {
                regs: regs.update(at, register_text(v)),
                index: at + 1,
                failed: f.failed,
            },
            None => Fill { regs, index: at + 1, failed: true },
        }
    }
}

/// The tokens of a line, read in order.
pub open spec fn fill_tokens(f: Fill, toks: Seq<Seq<char>>, wdt: bool) -> Fill
    decreases toks.len(),
{
    if toks.len() == 0 {
        f
    } else {
        let g = fill_tokens(f, toks.drop_last(), wdt);
        if wdt {
            wdt_step(g, toks.last())
        } else {
            epc_step(g, toks.last())
        }
    }
}

/// The state and slots after the tokens of a line, and whether the dump is
/// complete: the index has reached the threshold of the layout. A complete
/// extraction is idle again.
pub open spec fn settle(m: DumpModel, f: Fill, wdt: bool) -> (DumpModel, bool) {
    let threshold: int = if wdt {
        19
    } else {
        32
    };
    if f.index >= threshold {
        (DumpModel { state: DumpState::Idle, regs: f.regs, header: m.header }, true)
    } else if f.failed {
        (DumpModel { state: DumpState::Errored, regs: f.regs, header: m.header }, false)
    } else if wdt {
        (
            DumpModel {
                state: DumpState::CapturingWdt(f.index as usize),
                regs: f.regs,
                header: m.header,
            },
            false,
        )
    } else {
        (
            DumpModel {
                state: DumpState::CapturingEpc(f.index as usize),
                regs: f.regs,
                header: m.header,
            },
            false,
        )
    }
}

/// The token phase of a line: its space-separated tokens fill slots, in the
/// state that the line found.
pub open spec fn token_phase(m: DumpModel, line: Seq<char>) -> (DumpModel, bool) {
    let toks = words(line, true);
    match m.state {
        DumpState::CapturingEpc(i) => settle(
            m,
            fill_tokens(Fill { regs: m.regs, index: i as int, failed: false }, toks, false),
            false,
        ),
        DumpState::CapturingWdt(i) => settle(
            m,
            fill_tokens(Fill { regs: m.regs, index: i as int, failed: false }, toks, true),
            true,
        ),
        _ => (m, false),
    }
}

/// The marker phase of a line: a header line is recorded and starts its
/// dump at slot 0, from the next line on.
pub open spec fn marker_phase(m: DumpModel, line: Seq<char>) -> DumpModel {
    if is_epc_header(line) {
        DumpModel { state: DumpState::CapturingEpc(0), regs: m.regs, header: line }
    } else if is_wdt_header(line) {
        DumpModel { state: DumpState::CapturingWdt(0), regs: m.regs, header: line }
    } else {
        m
    }
}

/// One line: the token phase, then, unless the dump is complete, the marker
/// phase.
pub open spec fn step(m: DumpModel, line: Seq<char>) -> (DumpModel, bool) {
    let (after, done) = token_phase(m, line);
    if done {
        (after, true)
    } else {
        (marker_phase(after, line), false)
    }
}

/// The lines of a log in order, up to the line that completes a dump or to
/// the end of the log.
pub open spec fn run(m: DumpModel, lines: Seq<Seq<char>>) -> DumpModel
    decreases lines.len(),
{
    if lines.len() == 0 {
        m
    } else {
        let (after, done) = step(m, lines[0]);
        if done {
            after
        } else {
            run(after, lines.skip(1))
        }
    }
}

/// The extraction before the first line: idle, every slot and the header
/// empty.
pub open spec fn initial_model() -> DumpModel {
    DumpModel {
        state: DumpState::Idle,
        regs: Seq::new(32, |k: int| Seq::<char>::empty()),
        header: Seq::empty(),
    }
}

/// Whether a model can stand between two lines: 32 slots, and an index
/// below the threshold of its layout.
pub open spec fn model_wf(m: DumpModel) -> bool {
    &&& m.regs.len() == 32
    &&& match m.state {
        DumpState::CapturingEpc(i) => i < 32,
        DumpState::CapturingWdt(i) => i < 19,
        _ => true,
    }
}

fn sentinel_chars() -> (r: Vec<char>)
    ensures
        r@ == sentinel(),
{
    let r = vec!['0', 'x', 'X', 'X', 'X', 'X', 'X', 'X', 'X', 'X'];
    assert(r@ =~= sentinel());
    r
}

/// Reads the tokens of one line into the slots, from `index` on.
fn fill_line(regs: &mut Vec<Vec<char>>, index: usize, toks: &Vec<Vec<char>>, wdt: bool) -> (r: (
    usize,
    bool,
))
    requires
        old(regs).len() == 32,
        index <= 32,
    ensures
        final(regs).len() == 32,
        r.0 <= 32,
        fill_of(views(final(regs)@), r.0 as int, r.1) == fill_tokens(
            fill_of(views(old(regs)@), index as int, false),
            views(toks@),
            wdt,
        ),
{
    let ghost start = Fill { regs: views(regs@), index: index as int, failed: false };
    let ghost all = views(toks@);
    let mut at: usize = index;
    let mut failed = false;
    let mut k: usize = 0;
    assert(all.take(0) =~= Seq::<Seq<char>>::empty());
    while k < toks.len()
        invariant
            k <= toks.len(),
            all == views(toks@),
            regs.len() == 32,
            at <= 32,
            fill_of(views(regs@), at as int, failed) == fill_tokens(
                start,
                all.take(k as int),
                wdt,
            ),
        decreases toks.len() - k,
    {
        assert(all.take(k + 1).drop_last() == all.take(k as int));
        assert(all.take(k + 1).last() == toks[k as int]@);
        let ghost before = Fill { regs: views(regs@), index: at as int, failed };
        if at < 32 {
            if wdt {
                let stop: usize = if at == 0 {
                    1
                } else if at == 2 {
                    4
                } else if at == 18 {
                    28
                } else {
                    at
                };
                let ghost first = at;
                let ghost slots = views(regs@);
                while at < stop
                    invariant
                        first <= at <= stop,
                        stop == gap_end(first as int),
                        stop < 32,
                        regs.len() == 32,
                        slots.len() == 32,
                        forall|j: int|
                            0 <= j < 32 ==> #[trigger] views(regs@)[j] == if first <= j < at {
                                sentinel()
                            } else {
                                slots[j]
                            },
                    decreases stop - at,
                {
                    let ghost prev = views(regs@);
                    regs.set(at, sentinel_chars());
                    assert(views(regs@) =~= prev.update(at as int, sentinel()));
                    at += 1;
                }
                assert(views(regs@) =~= with_gap(slots, first as int));
            }
            let ghost slots = views(regs@);
            match parse_hex(&toks[k], 8) {
                Some(v) => {
                    regs.set(at, format_register(v));
                    assert(views(regs@) =~= slots.update(at as int, register_text(v)));
                },
                None => {
                    failed = true;
                },
            }
            at += 1;
        }
        k += 1;
        assert(Fill { regs: views(regs@), index: at as int, failed } == if wdt {
            wdt_step(before, toks[k - 1]@)
        } else {
            epc_step(before, toks[k - 1]@)
        });
    }
    assert(all.take(all.len() as int) == all);
    (at, failed)
}

fn has_epc_markers(line: &Vec<char>) -> (r: bool)
    ensures
        r == is_epc_header(line@),
{
    let err = vec!['E', 'R', 'R', ':'];
    assert(err@ =~= err_marker());
    let epc = vec!['E', 'P', 'C', ':'];
    assert(epc@ =~= epc_marker());
    contains_chars(line, &err) && contains_chars(line, &epc)
}

fn has_wdt_marker(line: &Vec<char>) -> (r: bool)
    ensures
        r == contains_text(line@, wdt_marker()),
{
    let wdt = vec!['W', 'D', 'T', '_', 'R', 'S', 'T', ':'];
    assert(wdt@ =~= wdt_marker());
    contains_chars(line, &wdt)
}

/// The state machine that extracts a register dump from the lines of a log.
pub struct DumpExtractor {
    state: DumpState,
    regs: Vec<Vec<char>>,
    header: Vec<char>,
}

impl View for DumpExtractor {
    type V = DumpModel;

    closed spec fn view(&self) -> DumpModel {
        DumpModel { state: self.state, regs: views(self.regs@), header: self.header@ }
    }
}

impl DumpExtractor {
    /// Whether the value is well formed.
    pub closed spec fn wf(&self) -> bool {
        model_wf(self@)
    }

    /// An idle extractor with an empty dump.
    pub fn new() -> (r: DumpExtractor)
        ensures
            r.wf(),
            r@ == initial_model(),
    {
        let mut regs: Vec<Vec<char>> = Vec::new();
        let mut i: usize = 0;
        while i < 32
            invariant
                i <= 32,
                regs.len() == i,
                forall|k: int| 0 <= k < i ==> (#[trigger] regs[k])@ == Seq::<char>::empty(),
            decreases 32 - i,
        {
            regs.push(Vec::new());
            i += 1;
        }
        let r = DumpExtractor { state: DumpState::Idle, regs, header: Vec::new() };
        assert(r@.regs =~= initial_model().regs);
        r
    }

    /// The state between lines.
    pub fn state(&self) -> (s: DumpState)
        ensures
            s == self@.state,
    {
        self.state
    }

    fn advance_chars(&mut self, line: &Vec<char>) -> (r: Outcome)
        requires
            old(self).wf(),
        ensures
            final(self).wf(),
            (final(self)@, r == Outcome::Done) == step(old(self)@, line@),
    {
        let ghost before = self@;
        let (index, wdt) = match self.state {
            DumpState::CapturingEpc(i) => (i, false),
            DumpState::CapturingWdt(i) => (i, true),
            _ => (0, false),
        };
        let capturing = match self.state {
            DumpState::CapturingEpc(_) => true,
            DumpState::CapturingWdt(_) => true,
            _ => false,
        };
        if capturing {
            let toks = split_words(line, true);
            let (at, failed) = fill_line(&mut self.regs, index, &toks, wdt);
            let threshold: usize = if wdt {
                WDT_THRESHOLD
            } else {
                REGISTER_COUNT
            };
            if at >= threshold {
                self.state = DumpState::Idle;
                return Outcome::Done;
            }
            if failed {
                self.state = DumpState::Errored;
            } else if wdt {
                self.state = DumpState::CapturingWdt(at);
            } else {
                self.state = DumpState::CapturingEpc(at);
            }
        }
        assert((self@, false) == token_phase(before, line@));
        if has_epc_markers(line) {
            self.header = line.clone();
            self.state = DumpState::CapturingEpc(0);
        } else if has_wdt_marker(line) {
            self.header = line.clone();
            self.state = DumpState::CapturingWdt(0);
        }
        Outcome::Continue
    }

    /// Feeds one line to the extractor.
    pub fn advance(&mut self, line: &str) -> (r: Outcome)
        requires
            old(self).wf(),
        ensures
            final(self).wf(),
            (final(self)@, r == Outcome::Done) == step(old(self)@, line@),
    {
        let chars = chars_of(line);
        self.advance_chars(&chars)
    }

    /// The dump as it is filled so far.
    pub fn dump(&self) -> (r: CPURegs)
        requires
            self.wf(),
        ensures
            r.wf(),
            r.slots() == self@.regs,
            r.header@ == self@.header,
    {
        let mut regs: Vec<String> = Vec::new();
        let mut i: usize = 0;
        while i < 32
            invariant
                i <= 32,
                self.regs.len() == 32,
                regs.len() == i,
                forall|k: int| 0 <= k < i ==> (#[trigger] regs[k])@ == self.regs[k]@,
            decreases 32 - i,
        {
            regs.push(string_of(&self.regs[i]));
            i += 1;
        }
        let r = CPURegs { regs, header: string_of(&self.header) };
        assert(r.slots() =~= self@.regs);
        r
    }
}

/// The dump that the lines of a log give.
pub open spec fn dump_of(lines: Seq<Seq<char>>) -> DumpModel {
    run(initial_model(), lines)
}

/// Extracts the register dump from the bytes of a crash log. A log that ends
/// before a dump is complete gives the dump as far as it was filled.
pub fn process_exception_log(data: &[u8]) -> (r: Result<CPURegs, TextError>)
    ensures
        match r {
            Ok(d) => d.wf() && capture_lines(data@) is Ok && d.slots() == dump_of(
                capture_lines(data@)->Ok_0,
            ).regs && d.header@ == dump_of(capture_lines(data@)->Ok_0).header,
            Err(e) => capture_lines(data@) == Err::<Seq<Seq<char>>, TextError>(e),
        },
        r is Ok <==> decodable(data@),
{
    let lines = match read_lines(data) {
        Ok(lines) => lines,
        Err(e) => {
            return Err(e);
        },
    };
    let ghost all = views(lines@);
    let mut extractor = DumpExtractor::new();
    let mut i: usize = 0;
    assert(all.skip(0) == all);
    while i < lines.len()
        invariant
            i <= lines.len(),
            all == views(lines@),
            extractor.wf(),
            decodable(data@),
            capture_lines(data@) == Ok::<Seq<Seq<char>>, TextError>(all),
            dump_of(all) == run(extractor@, all.skip(i as int)),
        decreases lines.len() - i,
    {
        assert(all.skip(i as int)[0] == lines[i as int]@);
        assert(all.skip(i as int).skip(1) == all.skip(i + 1));
        match extractor.advance_chars(&lines[i]) {
            Outcome::Done => {
                return Ok(extractor.dump());
            },
            Outcome::Continue => {},
        }
        i += 1;
    }
    Ok(extractor.dump())
}

/// Where the index of a watchdog dump can stand before a token: at the
/// start, before the gap at 2 or at 18, or at a slot that takes a token.
pub open spec fn wdt_index_ok(i: int) -> bool {
    i == 0 || i == 2 || (5 <= i <= 18) || (29 <= i <= 32)
}

/// Whether every gap below the index holds the sentinel.
pub open spec fn gaps_filled(regs: Seq<Seq<char>>, index: int) -> bool {
    forall|k: int| 0 <= k < 32 && is_gap(k) && k < index ==> #[trigger] regs[k] == sentinel()
}

/// What holds of a watchdog dump between two lines.
pub open spec fn wdt_inv(m: DumpModel) -> bool {
    m.state matches DumpState::CapturingWdt(i) ==> wdt_index_ok(i as int) && gaps_filled(
        m.regs,
        i as int,
    )
}

/// One token of a watchdog dump: the token goes to a slot that is no gap,
/// and every gap below the new index holds the sentinel.
pub proof fn lemma_wdt_step_keeps_gaps(f: Fill, tok: Seq<char>)
    requires
        f.regs.len() == 32,
        wdt_index_ok(f.index),
        gaps_filled(f.regs, f.index),
    ensures
        wdt_step(f, tok).regs.len() == 32,
        wdt_index_ok(wdt_step(f, tok).index),
        gaps_filled(wdt_step(f, tok).regs, wdt_step(f, tok).index),
        f.index < 32 ==> !is_gap(gap_end(f.index)) && wdt_step(f, tok).index == gap_end(f.index)
            + 1,
{
    let g = wdt_step(f, tok);
    if f.index < 32 {
        let filled = with_gap(f.regs, f.index);
        assert forall|k: int| 0 <= k < 32 && is_gap(k) && k < g.index implies #[trigger] g.regs[k]
            == sentinel() by {
            assert(filled[k] == sentinel());
        }
    }
}

/// The tokens of a line of a watchdog dump keep the gaps.
pub proof fn lemma_wdt_tokens_keep_gaps(f: Fill, toks: Seq<Seq<char>>)
    requires
        f.regs.len() == 32,
        wdt_index_ok(f.index),
        gaps_filled(f.regs, f.index),
    ensures
        fill_tokens(f, toks, true).regs.len() == 32,
        wdt_index_ok(fill_tokens(f, toks, true).index),
        gaps_filled(fill_tokens(f, toks, true).regs, fill_tokens(f, toks, true).index),
    decreases toks.len(),
{
    if toks.len() > 0 {
        lemma_wdt_tokens_keep_gaps(f, toks.drop_last());
        lemma_wdt_step_keeps_gaps(fill_tokens(f, toks.drop_last(), true), toks.last());
    }
}

/// In a watchdog dump the slots 0, 2, 3 and 18 to 27 take no token: whatever
/// the line, every gap below the index holds the sentinel afterwards, and a
/// line that completes the dump leaves the sentinel in all of them.
pub proof fn lemma_wdt_gaps_hold_sentinel(m: DumpModel, line: Seq<char>)
    requires
        m.regs.len() == 32,
        wdt_inv(m),
    ensures
        step(m, line).0.regs.len() == 32,
        wdt_inv(step(m, line).0),
        m.state is CapturingWdt && step(m, line).1 ==> forall|k: int|
            0 <= k < 32 && is_gap(k) ==> #[trigger] step(m, line).0.regs[k] == sentinel(),
{
    let toks = words(line, true);
    match m.state {
        DumpState::CapturingWdt(i) => {
            let f = Fill { regs: m.regs, index: i as int, failed: false };
            lemma_wdt_tokens_keep_gaps(f, toks);
        },
        DumpState::CapturingEpc(i) => {
            let f = Fill { regs: m.regs, index: i as int, failed: false };
            lemma_fill_keeps_len(f, toks, false);
        },
        _ => {},
    }
}

/// The lines of a log keep what holds of a watchdog dump.
pub proof fn lemma_run_keeps_gaps(m: DumpModel, lines: Seq<Seq<char>>)
    requires
        m.regs.len() == 32,
        wdt_inv(m),
    ensures
        run(m, lines).regs.len() == 32,
        wdt_inv(run(m, lines)),
    decreases lines.len(),
{
    if lines.len() > 0 {
        lemma_wdt_gaps_hold_sentinel(m, lines[0]);
        if !step(m, lines[0]).1 {
            lemma_run_keeps_gaps(step(m, lines[0]).0, lines.skip(1));
        }
    }
}

proof fn lemma_fill_keeps_len(f: Fill, toks: Seq<Seq<char>>, wdt: bool)
    requires
        f.regs.len() == 32,
        0 <= f.index,
    ensures
        fill_tokens(f, toks, wdt).regs.len() == 32,
        0 <= fill_tokens(f, toks, wdt).index,
    decreases toks.len(),
{
    if toks.len() > 0 {
        lemma_fill_keeps_len(f, toks.drop_last(), wdt);
    }
}

/// Whether every token is a register value: eight hexadecimal digits.
pub open spec fn all_register_tokens(toks: Seq<Seq<char>>) -> bool {
    forall|k: int| 0 <= k < toks.len() ==> hex_number(#[trigger] toks[k], 8) is Some
}

/// Whether a line holds register values and nothing else: each character is
/// a space or a hexadecimal digit, and each token has eight characters.
pub open spec fn is_register_line(line: Seq<char>) -> bool {
    &&& forall|k: int| 0 <= k < line.len() ==> (#[trigger] line[k]) == ' ' || is_hex_digit(line[k])
    &&& forall|k: int|
        0 <= k < words(line, true).len() ==> (#[trigger] words(line, true)[k]).len() == 8
}

/// How many tokens a sequence of lines holds.
pub open spec fn token_count(lines: Seq<Seq<char>>) -> nat
    decreases lines.len(),
{
    if lines.len() == 0 {
        0
    } else {
        words(lines[0], true).len() + token_count(lines.skip(1))
    }
}

proof fn lemma_epc_tokens(f: Fill, prev: Seq<Seq<char>>, toks: Seq<Seq<char>>)
    requires
        f.regs.len() == 32,
        0 <= f.index,
        f.index + toks.len() <= 32,
        all_register_tokens(toks),
        forall|k: int| 0 <= k < f.index ==> is_register_text(#[trigger] f.regs[k]),
        prev.len() == f.index,
        forall|k: int| 0 <= k < f.index ==> #[trigger] f.regs[k] == token_text(prev[k]),
    ensures
        fill_tokens(f, toks, false).regs.len() == 32,
        fill_tokens(f, toks, false).index == f.index + toks.len(),
        fill_tokens(f, toks, false).failed == f.failed,
        forall|k: int|
            0 <= k < f.index + toks.len() ==> is_register_text(
                #[trigger] fill_tokens(f, toks, false).regs[k],
            ),
        forall|k: int|
            0 <= k < f.index + toks.len() ==> #[trigger] fill_tokens(f, toks, false).regs[k]
                == token_text((prev + toks)[k]),
    decreases toks.len(),
{
    if toks.len() == 0 {
        assert(prev + toks =~= prev);
    } else {
        let head = toks.drop_last();
        assert forall|k: int| 0 <= k < head.len() implies hex_number(#[trigger] head[k], 8)
            is Some by {
            assert(head[k] == toks[k]);
        }
        lemma_epc_tokens(f, prev, head);
        let g = fill_tokens(f, head, false);
        let h = fill_tokens(f, toks, false);
        assert(hex_number(toks[toks.len() - 1], 8) is Some);
        let v = hex_number(toks.last(), 8)->0;
        lemma_register_text_shape(v);
        let before = prev + head;
        let now = prev + toks;
        assert forall|k: int| 0 <= k < f.index + toks.len() implies #[trigger] h.regs[k]
            == token_text(now[k]) by {
            if k < g.index {
                assert(h.regs[k] == g.regs[k]);
                assert(g.regs[k] == token_text(before[k]));
                if k < prev.len() {
                    assert(now[k] == prev[k]);
                    assert(before[k] == prev[k]);
                } else {
                    assert(now[k] == toks[k - prev.len()]);
                    assert(before[k] == head[k - prev.len()]);
                }
            } else {
                assert(now[k] == toks.last());
            }
        }
    }
}

proof fn lemma_words_are_hex(s: Seq<char>)
    requires
        forall|k: int| 0 <= k < s.len() ==> (#[trigger] s[k]) == ' ' || is_hex_digit(s[k]),
    ensures
        forall|k: int|
            0 <= k < words_acc(s, true).0.len() ==> all_hex(
                #[trigger] words_acc(s, true).0[k],
            ),
        all_hex(words_acc(s, true).1),
    decreases s.len(),
{
    if s.len() > 0 {
        let head = s.drop_last();
        assert forall|k: int| 0 <= k < head.len() implies (#[trigger] head[k]) == ' '
            || is_hex_digit(head[k]) by {
            assert(head[k] == s[k]);
        }
        lemma_words_are_hex(head);
        assert(s.last() == s[s.len() - 1]);
    }
}

proof fn lemma_register_line(line: Seq<char>)
    requires
        is_register_line(line),
    ensures
        all_register_tokens(words(line, true)),
        !is_epc_header(line),
        !is_wdt_header(line),
{
    lemma_words_are_hex(line);
    let toks = words(line, true);
    assert forall|k: int| 0 <= k < toks.len() implies hex_number(#[trigger] toks[k], 8)
        is Some by {
        assert(toks[k].len() == 8);
    }
    assert forall|i: int| !occurs_at(line, err_marker(), i) by {
        if occurs_at(line, err_marker(), i) {
            assert(line.subrange(i, i + 4)[3] == ':');
            assert(line[i + 3] == ':');
        }
    }
    assert forall|i: int| !occurs_at(line, wdt_marker(), i) by {
        if occurs_at(line, wdt_marker(), i) {
            assert(line.subrange(i, i + 8)[7] == ':');
            assert(line[i + 7] == ':');
        }
    }
}

proof fn lemma_epc_lines(m: DumpModel, prev: Seq<Seq<char>>, lines: Seq<Seq<char>>)
    requires
        m.regs.len() == 32,
        m.state is CapturingEpc,
        m.state->CapturingEpc_0 < 32,
        forall|k: int| 0 <= k < m.state->CapturingEpc_0 ==> is_register_text(#[trigger] m.regs[k]),
        prev.len() == m.state->CapturingEpc_0,
        forall|k: int| 0 <= k < m.state->CapturingEpc_0 ==> #[trigger] m.regs[k] == token_text(prev[k]),
        forall|j: int| 0 <= j < lines.len() ==> is_register_line(#[trigger] lines[j]),
        token_count(lines) == 32 - m.state->CapturingEpc_0,
    ensures
        run(m, lines).regs.len() == 32,
        run(m, lines).header == m.header,
        forall|k: int| 0 <= k < 32 ==> is_register_text(#[trigger] run(m, lines).regs[k]),
        forall|k: int|
            0 <= k < 32 ==> #[trigger] run(m, lines).regs[k] == token_text(
                (prev + all_tokens(lines))[k],
            ),
    decreases lines.len(),
{
    let i = m.state->CapturingEpc_0 as int;
    if lines.len() > 0 {
        let line = lines[0];
        let toks = words(line, true);
        let rest = lines.skip(1);
        lemma_register_line(line);
        let f = Fill { regs: m.regs, index: i, failed: false };
        lemma_epc_tokens(f, prev, toks);
        let g = fill_tokens(f, toks, false);
        let (after, done) = step(m, line);
        let seen = prev + toks;
        assert(prev + all_tokens(lines) =~= seen + all_tokens(rest));
        if !done {
            assert forall|j: int| 0 <= j < rest.len() implies is_register_line(
                #[trigger] rest[j],
            ) by {
                assert(rest[j] == lines[j + 1]);
            }
            lemma_epc_lines(after, seen, rest);
        } else {
            assert forall|k: int| 0 <= k < 32 implies #[trigger] run(m, lines).regs[k]
                == token_text((prev + all_tokens(lines))[k]) by {
                assert(g.regs[k] == token_text(seen[k]));
                assert((seen + all_tokens(rest))[k] == seen[k]);
            }
        }
    }
}

/// A header line with `ERR:` and `EPC:`, met while no dump is being read,
/// and followed by lines that hold exactly 32 register values, eight
/// hexadecimal digits each and spaces between them, gives a dump under that
/// header in which every slot has the shape `0x` and eight digits out of
/// `0-9A-F`, and holds the value of the token with its index.
pub proof fn lemma_full_epc_dump_after_header(
    m: DumpModel,
    header: Seq<char>,
    lines: Seq<Seq<char>>,
)
    requires
        m.regs.len() == 32,
        m.state is Idle || m.state is Errored,
        is_epc_header(header),
        forall|j: int| 0 <= j < lines.len() ==> is_register_line(#[trigger] lines[j]),
        token_count(lines) == 32,
    ensures
        run(m, seq![header] + lines).header == header,
        run(m, seq![header] + lines).regs.len() == 32,
        forall|k: int|
            0 <= k < 32 ==> is_register_text(#[trigger] run(m, seq![header] + lines).regs[k]),
        forall|k: int|
            0 <= k < 32 ==> #[trigger] run(m, seq![header] + lines).regs[k] == token_text(
                all_tokens(lines)[k],
            ),
{
    let all = seq![header] + lines;
    assert(all[0] == header);
    assert(all.skip(1) =~= lines);
    let (after, done) = step(m, header);
    assert(!done);
    assert(after.state == DumpState::CapturingEpc(0));
    let none = Seq::<Seq<char>>::empty();
    lemma_epc_lines(after, none, lines);
    assert(none + all_tokens(lines) =~= all_tokens(lines));
}

/// The same for a log that starts with the header line.
pub proof fn lemma_full_epc_dump_is_well_formed(header: Seq<char>, lines: Seq<Seq<char>>)
    requires
        is_epc_header(header),
        forall|j: int| 0 <= j < lines.len() ==> is_register_line(#[trigger] lines[j]),
        token_count(lines) == 32,
    ensures
        dump_of(seq![header] + lines).header == header,
        dump_of(seq![header] + lines).regs.len() == 32,
        forall|k: int|
            0 <= k < 32 ==> is_register_text(#[trigger] dump_of(seq![header] + lines).regs[k]),
        forall|k: int|
            0 <= k < 32 ==> #[trigger] dump_of(seq![header] + lines).regs[k] == token_text(
                all_tokens(lines)[k],
            ),
{
    lemma_full_epc_dump_after_header(initial_model(), header, lines);
}

/// How many tokens a watchdog dump has taken when its index stands at `i`.
pub open spec fn wdt_consumed(i: int) -> int {
    if i <= 0 {
        0
    } else if i <= 2 {
        1
    } else if i <= 18 {
        i - 3
    } else {
        i - 13
    }
}

/// Whether every slot below the index that takes a token holds a register
/// value.
pub open spec fn wdt_slots_filled(regs: Seq<Seq<char>>, index: int) -> bool {
    forall|k: int| 0 <= k < 32 && !is_gap(k) && k < index ==> is_register_text(#[trigger] regs[k])
}

proof fn lemma_wdt_tokens(f: Fill, toks: Seq<Seq<char>>)
    requires
        f.regs.len() == 32,
        wdt_index_ok(f.index),
        gaps_filled(f.regs, f.index),
        wdt_slots_filled(f.regs, f.index),
        all_register_tokens(toks),
    ensures
        fill_tokens(f, toks, true).regs.len() == 32,
        wdt_index_ok(fill_tokens(f, toks, true).index),
        gaps_filled(fill_tokens(f, toks, true).regs, fill_tokens(f, toks, true).index),
        wdt_slots_filled(fill_tokens(f, toks, true).regs, fill_tokens(f, toks, true).index),
        fill_tokens(f, toks, true).failed == f.failed,
        wdt_consumed(fill_tokens(f, toks, true).index) == if wdt_consumed(f.index) + toks.len()
            <= 19 {
            wdt_consumed(f.index) + toks.len()
        } else {
            19
        },
    decreases toks.len(),
{
    if toks.len() > 0 {
        let head = toks.drop_last();
        assert forall|k: int| 0 <= k < head.len() implies hex_number(#[trigger] head[k], 8)
            is Some by {
            assert(head[k] == toks[k]);
        }
        lemma_wdt_tokens(f, head);
        let g = fill_tokens(f, head, true);
        let h = wdt_step(g, toks.last());
        assert(hex_number(toks[toks.len() - 1], 8) is Some);
        let v = hex_number(toks.last(), 8)->0;
        lemma_register_text_shape(v);
        lemma_wdt_step_keeps_gaps(g, toks.last());
        if g.index < 32 {
            let filled = with_gap(g.regs, g.index);
            let at = gap_end(g.index);
            assert forall|k: int| 0 <= k < 32 && !is_gap(k) && k < h.index implies is_register_text(
                #[trigger] h.regs[k],
            ) by {
                if k != at {
                    assert(h.regs[k] == filled[k]);
                    assert(filled[k] == g.regs[k]);
                }
            }
        }
    }
}

/// The slot that takes the token with index `k` of a watchdog dump, the
/// first token having index 0: slot 1, then the slots 4 to 17, then the slots
/// from 28 on.
pub open spec fn wdt_slot(k: int) -> int {
    if k <= 0 {
        1
    } else if k <= 14 {
        k + 3
    } else {
        k + 13
    }
}

/// What a register value in a token becomes in its slot.
pub open spec fn token_text(tok: Seq<char>) -> Seq<char> {
    match hex_number(tok, 8) {
        Some(v) => register_text(v),
        None => Seq::empty(),
    }
}

/// The tokens of a sequence of lines, in order.
pub open spec fn all_tokens(lines: Seq<Seq<char>>) -> Seq<Seq<char>>
    decreases lines.len(),
{
    if lines.len() == 0 {
        Seq::empty()
    } else {
        words(lines[0], true) + all_tokens(lines.skip(1))
    }
}

/// Whether the tokens that a watchdog dump has taken stand in their slots,
/// in order.
pub open spec fn wdt_placed(regs: Seq<Seq<char>>, index: int, toks: Seq<Seq<char>>) -> bool {
    &&& wdt_consumed(index) <= toks.len()
    &&& forall|k: int|
        0 <= k < wdt_consumed(index) ==> regs[#[trigger] wdt_slot(k)] == token_text(toks[k])
}

proof fn lemma_wdt_tokens_placed(f: Fill, prev: Seq<Seq<char>>, toks: Seq<Seq<char>>)
    requires
        f.regs.len() == 32,
        wdt_index_ok(f.index),
        gaps_filled(f.regs, f.index),
        wdt_slots_filled(f.regs, f.index),
        all_register_tokens(toks),
        prev.len() == wdt_consumed(f.index),
        wdt_placed(f.regs, f.index, prev),
    ensures
        wdt_placed(fill_tokens(f, toks, true).regs, fill_tokens(f, toks, true).index, prev + toks),
    decreases toks.len(),
{
    if toks.len() == 0 {
        assert(prev + toks =~= prev);
    } else {
        let head = toks.drop_last();
        assert forall|k: int| 0 <= k < head.len() implies hex_number(#[trigger] head[k], 8)
            is Some by {
            assert(head[k] == toks[k]);
        }
        lemma_wdt_tokens_placed(f, prev, head);
        lemma_wdt_tokens(f, head);
        let g = fill_tokens(f, head, true);
        let h = wdt_step(g, toks.last());
        let before = prev + head;
        let now = prev + toks;
        assert(now.len() == before.len() + 1);
        assert forall|k: int| 0 <= k < before.len() implies now[k] == before[k] by {
            if k < prev.len() {
                assert(now[k] == prev[k]);
            } else {
                assert(now[k] == toks[k - prev.len()]);
                assert(before[k] == head[k - prev.len()]);
            }
        }
        if g.index < 32 {
            let at = gap_end(g.index);
            let n = wdt_consumed(g.index);
            assert(n == prev.len() + head.len());
            assert(at == wdt_slot(n));
            assert(now[n] == toks.last());
            assert(hex_number(toks[toks.len() - 1], 8) is Some);
            let filled = with_gap(g.regs, g.index);
            assert forall|k: int| 0 <= k < wdt_consumed(h.index) implies h.regs[#[trigger] wdt_slot(
                k,
            )] == token_text(now[k]) by {
                if k < n {
                    assert(wdt_slot(k) != at);
                    assert(!is_gap(wdt_slot(k)));
                    assert(h.regs[wdt_slot(k)] == filled[wdt_slot(k)]);
                    assert(filled[wdt_slot(k)] == g.regs[wdt_slot(k)]);
                    assert(g.regs[wdt_slot(k)] == token_text(before[k]));
                }
            }
        } else {
            assert forall|k: int| 0 <= k < wdt_consumed(h.index) implies h.regs[#[trigger] wdt_slot(
                k,
            )] == token_text(now[k]) by {
                assert(g.regs[wdt_slot(k)] == token_text(before[k]));
            }
        }
    }
}

proof fn lemma_wdt_lines(m: DumpModel, prev: Seq<Seq<char>>, lines: Seq<Seq<char>>)
    requires
        m.regs.len() == 32,
        m.state is CapturingWdt,
        m.state->CapturingWdt_0 < 19,
        wdt_index_ok(m.state->CapturingWdt_0 as int),
        gaps_filled(m.regs, m.state->CapturingWdt_0 as int),
        wdt_slots_filled(m.regs, m.state->CapturingWdt_0 as int),
        prev.len() == wdt_consumed(m.state->CapturingWdt_0 as int),
        wdt_placed(m.regs, m.state->CapturingWdt_0 as int, prev),
        forall|j: int| 0 <= j < lines.len() ==> is_register_line(#[trigger] lines[j]),
        wdt_consumed(m.state->CapturingWdt_0 as int) + token_count(lines) >= 16,
    ensures
        run(m, lines).regs.len() == 32,
        run(m, lines).header == m.header,
        forall|k: int| 0 <= k < 32 && is_gap(k) ==> #[trigger] run(m, lines).regs[k] == sentinel(),
        wdt_slots_filled(run(m, lines).regs, 29),
        forall|k: int|
            0 <= k < 16 ==> run(m, lines).regs[#[trigger] wdt_slot(k)] == token_text(
                (prev + all_tokens(lines))[k],
            ),
    decreases lines.len(),
{
    let i = m.state->CapturingWdt_0 as int;
    if lines.len() > 0 {
        let line = lines[0];
        let toks = words(line, true);
        let rest = lines.skip(1);
        lemma_register_line(line);
        let f = Fill { regs: m.regs, index: i, failed: false };
        lemma_wdt_tokens(f, toks);
        lemma_wdt_tokens_placed(f, prev, toks);
        let g = fill_tokens(f, toks, true);
        let (after, done) = step(m, line);
        let seen = prev + toks;
        assert(prev + all_tokens(lines) =~= seen + all_tokens(rest));
        if !done {
            assert forall|j: int| 0 <= j < rest.len() implies is_register_line(
                #[trigger] rest[j],
            ) by {
                assert(rest[j] == lines[j + 1]);
            }
            lemma_wdt_lines(after, seen, rest);
        } else {
            assert forall|k: int| 0 <= k < 16 implies run(m, lines).regs[#[trigger] wdt_slot(k)]
                == token_text((prev + all_tokens(lines))[k]) by {
                assert(g.regs[wdt_slot(k)] == token_text(seen[k]));
                assert((seen + all_tokens(rest))[k] == seen[k]);
            }
        }
    }
}

/// A header line with `WDT_RST:`, met while no dump is being read, and
/// followed by lines of register values that hold at least the 16 values
/// which bring the index to the threshold, gives a dump under that header
/// whose slots 0, 2, 3 and 18 to 27 hold the sentinel, while the first 16
/// values stand in order in the slots 1, 4 to 17 and 28: no token went to a
/// gap, and none was lost.
pub proof fn lemma_wdt_dump_after_header(m: DumpModel, header: Seq<char>, lines: Seq<Seq<char>>)
    requires
        m.regs.len() == 32,
        m.state is Idle || m.state is Errored,
        is_wdt_header(header),
        forall|j: int| 0 <= j < lines.len() ==> is_register_line(#[trigger] lines[j]),
        token_count(lines) >= 16,
    ensures
        run(m, seq![header] + lines).header == header,
        run(m, seq![header] + lines).regs.len() == 32,
        forall|k: int|
            0 <= k < 32 && is_gap(k) ==> #[trigger] run(m, seq![header] + lines).regs[k]
                == sentinel(),
        forall|k: int|
            0 <= k < 29 && !is_gap(k) ==> is_register_text(
                #[trigger] run(m, seq![header] + lines).regs[k],
            ),
        forall|k: int|
            0 <= k < 16 ==> run(m, seq![header] + lines).regs[#[trigger] wdt_slot(k)]
                == token_text(all_tokens(lines)[k]),
{
    let all = seq![header] + lines;
    assert(all[0] == header);
    assert(all.skip(1) =~= lines);
    let (after, done) = step(m, header);
    assert(!done);
    assert(after.state == DumpState::CapturingWdt(0));
    let none = Seq::<Seq<char>>::empty();
    lemma_wdt_lines(after, none, lines);
    assert(none + all_tokens(lines) =~= all_tokens(lines));
}

/// The same for a log that starts with the header line.
pub proof fn lemma_wdt_dump_is_well_formed(header: Seq<char>, lines: Seq<Seq<char>>)
    requires
        is_wdt_header(header),
        forall|j: int| 0 <= j < lines.len() ==> is_register_line(#[trigger] lines[j]),
        token_count(lines) >= 16,
    ensures
        dump_of(seq![header] + lines).header == header,
        forall|k: int|
            0 <= k < 32 && is_gap(k) ==> #[trigger] dump_of(seq![header] + lines).regs[k]
                == sentinel(),
        forall|k: int|
            0 <= k < 16 ==> dump_of(seq![header] + lines).regs[#[trigger] wdt_slot(k)]
                == token_text(all_tokens(lines)[k]),
{
    lemma_wdt_dump_after_header(initial_model(), header, lines);
}

} // verus!
