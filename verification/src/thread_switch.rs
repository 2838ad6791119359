//! Reader of the thread-switch log: finds the lines that record a switch
//! from one thread to another and takes them apart.

use crate::analyze_thread::{is_time_field, is_time_text};
use crate::text::{chars_of, string_of, string_views};
use vstd::prelude::*;

verus! {

/// One switch: its time in seconds as the log writes it, the thread that
/// was left, the thread that was entered, and the return address.
#[derive(Debug)]
pub struct ThreadSwitch {
    pub timestamp: String,
    pub from_thread: String,
    pub to_thread: String,
    pub ra: String,
}

/// A switch as a value.
pub struct Switch {
    pub timestamp: Seq<char>,
    pub from_thread: Seq<char>,
    pub to_thread: Seq<char>,
    pub ra: Seq<char>,
}

impl View for ThreadSwitch {
    type V = Switch;

    open spec fn view(&self) -> Switch {
        Switch {
            timestamp: self.timestamp@,
            from_thread: self.from_thread@,
            to_thread: self.to_thread@,
            ra: self.ra@,
        }
    }
}

/// The switches of a vector as values.
pub open spec fn switch_views(v: Seq<ThreadSwitch>) -> Seq<Switch> {
    Seq::new(v.len(), |i: int| v[i]@)
}

/// Why a switch log could not be read.
#[derive(Clone, Copy, Debug, PartialEq, Eq, Structural)]
pub enum SwitchError {
    /// The marker makes no valid pattern.
    BadPattern,
    /// The line with this index matches, but one of its four parts is
    /// missing.
    MissingPart(usize),
    /// The time of the line with this index is no number.
    BadTime(usize),
}

impl SwitchError {
    /// The text of the error.
    pub open spec fn text(&self) -> Seq<char> {
        match self {
            SwitchError::BadPattern => "invalid switch marker"@,
            SwitchError::MissingPart(_) => "incomplete switch record"@,
            SwitchError::BadTime(_) => "invalid float literal"@,
        }
    }

    /// The text of the error as a string.
    pub fn message(&self) -> (s: String)
        ensures
            s@ == self.text(),
    {
        match self {
            SwitchError::BadPattern => "invalid switch marker".to_owned(),
            SwitchError::MissingPart(_) => "incomplete switch record".to_owned(),
            SwitchError::BadTime(_) => "invalid float literal".to_owned(),
        }
    }
}

/// The pattern of a switch line for a marker: the time in square brackets,
/// the marker and a colon, then the two threads and the return address in
/// hexadecimal, with white space between them.
pub open spec fn switch_pattern(marker: Seq<char>) -> Seq<char> {
    r"\[([\d.]+)\]"@ + marker + r":(\w+)\s+(\w+)\s+([\da-fA-F]+)"@
}

/// Whether `pattern` is a regular expression that compiles.
pub uninterp spec fn regex_compiles(pattern: Seq<char>) -> bool;

/// The capture groups of the leftmost match of `pattern` in `text`, the
/// whole match first and `None` for a group that took no part; or `None`
/// where there is no match.
pub uninterp spec fn regex_captures(pattern: Seq<char>, text: Seq<char>) -> Option<
    Seq<Option<Seq<char>>>,
>;

/// Capture groups as values.
pub open spec fn groups_view(groups: Seq<Option<String>>) -> Seq<Option<Seq<char>>> {
    Seq::new(
        groups.len(),
        |i: int|
            match groups[i] {
                Some(g) => Some(g@),
                None => None,
            },
    )
}

/// The outcome of a match as a value.
pub open spec fn captures_view(c: Option<Vec<Option<String>>>) -> Option<Seq<Option<Seq<char>>>> {
    match c {
        Some(groups) => Some(groups_view(groups@)),
        None => None,
    }
}

/// Matches `pattern` against `text` and hands out the capture groups.
///
/// Trusted: compiles the pattern with `regex::Regex::new`, which fails for
/// an invalid pattern and for nothing else that depends on the text, and
/// calls `Regex::captures`, which gives the groups of the leftmost match.
/// Both depend on their arguments alone. The outer `None` stands for a
/// pattern that does not compile, the inner one for a text without a match.
#[verifier::external_body]
fn capture_groups(pattern: &str, text: &str) -> (r: Option<Option<Vec<Option<String>>>>)
    ensures
        r is Some <==> regex_compiles(pattern@),
        r matches Some(c) ==> captures_view(c) == regex_captures(pattern@, text@),
{
    match regex::Regex::new(pattern) {
        Ok(re) => Some(
            re.captures(text).map(|c| c.iter().map(|g| g.map(|m| m.as_str().to_string())).collect()),
        ),
        Err(_) => None,
    }
}

/// The switch that the groups of a matching line hold. `i` is the index of
/// the line.
pub open spec fn switch_of(groups: Seq<Option<Seq<char>>>, i: int) -> Result<Switch, SwitchError> {
    if groups.len() < 5 || groups[1] is None || groups[2] is None || groups[3] is None
        || groups[4] is None {
        Err(SwitchError::MissingPart(i as usize))
    } else if !is_time_text(groups[1]->0) {
        Err(SwitchError::BadTime(i as usize))
    } else {
        Ok(
            Switch {
                timestamp: groups[1]->0,
                from_thread: groups[2]->0,
                to_thread: groups[3]->0,
                ra: groups[4]->0,
            },
        )
    }
}

/// Takes the switch out of the capture groups of a matching line.
pub fn switch_from_groups(groups: &Vec<Option<String>>, line_index: usize) -> (r: Result<
    ThreadSwitch,
    SwitchError,
>)
    ensures
        match r {
            Ok(s) => switch_of(groups_view(groups@), line_index as int) == Ok::<
                Switch,
                SwitchError,
            >(s@),
            Err(e) => switch_of(groups_view(groups@), line_index as int) == Err::<
                Switch,
                SwitchError,
            >(e),
        },
{
    if groups.len() < 5 {
        return Err(SwitchError::MissingPart(line_index));
    }
    let ghost view = groups_view(groups@);
    assert(view[1] == match groups[1] {
        Some(g) => Some(g@),
        None => None,
    });
    assert(view[2] == match groups[2] {
        Some(g) => Some(g@),
        None => None,
    });
    assert(view[3] == match groups[3] {
        Some(g) => Some(g@),
        None => None,
    });
    assert(view[4] == match groups[4] {
        Some(g) => Some(g@),
        None => None,
    });
    match (&groups[1], &groups[2], &groups[3], &groups[4]) {
        (Some(time), Some(from), Some(to), Some(ra)) => {
            if !is_time_field(time.as_str()) {
                return Err(SwitchError::BadTime(line_index));
            }
            Ok(
                ThreadSwitch {
                    timestamp: time.clone(),
                    from_thread: from.clone(),
                    to_thread: to.clone(),
                    ra: ra.clone(),
                },
            )
        },
        _ => Err(SwitchError::MissingPart(line_index)),
    }
}

/// The switches of the lines of a log under a pattern, in order, or the
/// error of the first line that matches without holding a switch.
pub open spec fn switches_of(pattern: Seq<char>, lines: Seq<Seq<char>>) -> Result<
    Seq<Switch>,
    SwitchError,
>
    decreases lines.len(),
{
    if lines.len() == 0 {
        Ok(Seq::empty())
    } else {
        match switches_of(pattern, lines.drop_last()) {
            Err(e) => Err(e),
            Ok(found) => match regex_captures(pattern, lines.last()) {
                None => Ok(found),
                Some(groups) => match switch_of(groups, lines.len() - 1) {
                    Err(e) => Err(e),
                    Ok(s) => Ok(found.push(s)),
                },
            },
        }
    }
}

proof fn lemma_switch_error_stays(pattern: Seq<char>, lines: Seq<Seq<char>>, k: int)
    requires
        0 <= k <= lines.len(),
        switches_of(pattern, lines.take(k)) is Err,
    ensures
        switches_of(pattern, lines) == switches_of(pattern, lines.take(k)),
    decreases lines.len() - k,
{
    if k == lines.len() {
        assert(lines.take(k) == lines);
    } else {
        assert(lines.drop_last().take(k) == lines.take(k));
        lemma_switch_error_stays(pattern, lines.drop_last(), k);
    }
}

/// The switches of a log for a marker.
pub open spec fn switch_log(marker: Seq<char>, lines: Seq<Seq<char>>) -> Result<
    Seq<Switch>,
    SwitchError,
> {
    if !regex_compiles(switch_pattern(marker)) {
        Err(SwitchError::BadPattern)
    } else {
        switches_of(switch_pattern(marker), lines)
    }
}

fn pattern_for(marker: &str) -> (r: String)
    ensures
        r@ == switch_pattern(marker@),
{
    let head = chars_of(r"\[([\d.]+)\]");
    let middle = chars_of(marker);
    let tail = chars_of(r":(\w+)\s+(\w+)\s+([\da-fA-F]+)");
    let mut all: Vec<char> = Vec::new();
    let mut i: usize = 0;
    while i < head.len()
        invariant
            i <= head.len(),
            all@ == head@.take(i as int),
        decreases head.len() - i,
    {
        all.push(head[i]);
        i += 1;
        assert(all@ =~= head@.take(i as int));
    }
    assert(head@.take(head@.len() as int) == head@);
    let mut j: usize = 0;
    while j < middle.len()
        invariant
            j <= middle.len(),
            all@ == head@ + middle@.take(j as int),
        decreases middle.len() - j,
    {
        all.push(middle[j]);
        j += 1;
        assert(all@ =~= head@ + middle@.take(j as int));
    }
    assert(middle@.take(middle@.len() as int) == middle@);
    let mut k: usize = 0;
    while k < tail.len()
        invariant
            k <= tail.len(),
            all@ == head@ + middle@ + tail@.take(k as int),
        decreases tail.len() - k,
    {
        all.push(tail[k]);
        k += 1;
        assert(all@ =~= head@ + middle@ + tail@.take(k as int));
    }
    assert(tail@.take(tail@.len() as int) == tail@);
    string_of(&all)
}

/// Reads the switches out of the lines of a log. `choiced` is the marker
/// that stands between the time and the colon of a switch line.
pub fn parse_thread_switch_log(lines: &Vec<String>, choiced: &str) -> (r: Result<
    Vec<ThreadSwitch>,
    SwitchError,
>)
    ensures
        match r {
            Ok(s) => switch_log(choiced@, string_views(lines@)) == Ok::<Seq<Switch>, SwitchError>(
                switch_views(s@),
            ),
            Err(e) => switch_log(choiced@, string_views(lines@)) == Err::<
                Seq<Switch>,
                SwitchError,
            >(e),
        },
{
    let pattern = pattern_for(choiced);
    if capture_groups(pattern.as_str(), "").is_none() {
        return Err(SwitchError::BadPattern);
    }
    let ghost all = string_views(lines@);
    let mut switches: Vec<ThreadSwitch> = Vec::new();
    let mut i: usize = 0;
    assert(all.take(0) =~= Seq::<Seq<char>>::empty());
    assert(switch_views(switches@) =~= Seq::<Switch>::empty());
    while i < lines.len()
        invariant
            i <= lines.len(),
            all == string_views(lines@),
            pattern@ == switch_pattern(choiced@),
            regex_compiles(pattern@),
            switches_of(pattern@, all.take(i as int)) == Ok::<Seq<Switch>, SwitchError>(
                switch_views(switches@),
            ),
        decreases lines.len() - i,
    {
        assert(all.take(i + 1).drop_last() == all.take(i as int));
        assert(all.take(i + 1).last() == lines[i as int]@);
        match capture_groups(pattern.as_str(), lines[i].as_str()) {
            Some(Some(groups)) => {
                match switch_from_groups(&groups, i) {
                    Ok(s) => {
                        let ghost before = switch_views(switches@);
                        let ghost added = s@;
                        switches.push(s);
                        assert(switch_views(switches@) =~= before.push(added));
                    },
                    Err(e) => {
                        proof {
                            lemma_switch_error_stays(pattern@, all, i + 1);
                        }
                        return Err(e);
                    },
                }
            },
            Some(None) => {},
            None => {
                return Err(SwitchError::BadPattern);
            },
        }
        i += 1;
    }
    assert(all.take(all.len() as int) == all);
    Ok(switches)
}

} // verus!
