//! Character-level text operations shared by the decoders.
//!
//! Text is modelled as `Seq<char>`. Executable code works on `Vec<char>` and
//! converts from and to `String` at the edges of the library.

use vstd::prelude::*;

verus! {

/// Appends one character to a string.
///
/// Trusted: this is `String::push` of the standard library, which adds the
/// character at the end and changes nothing else.
#[verifier::external_body]
pub(crate) fn push_char(s: &mut String, c: char)
    ensures
        final(s)@ == old(s)@.push(c),
{
    s.push(c)
}

/// The characters of a string slice, in order.
pub fn chars_of(s: &str) -> (v: Vec<char>)
    ensures
        v@ == s@,
{
    let mut v: Vec<char> = Vec::new();
    for c in it: s.chars()
        invariant
            it.seq() == s@,
            v@ == s@.take(it.index() as int),
    {
        assert(s@.take(it.index() + 1) == s@.take(it.index() as int).push(c));
        v.push(c);
    }
    assert(s@.take(s@.len() as int) == s@);
    v
}

/// The string made of the given characters, in order.
pub fn string_of(v: &Vec<char>) -> (s: String)
    ensures
        s@ == v@,
{
    let mut s = String::new();
    let mut i: usize = 0;
    while i < v.len()
        invariant
            i <= v.len(),
            s@ == v@.take(i as int),
        decreases v.len() - i,
    {
        assert(v@.take(i + 1) == v@.take(i as int).push(v@[i as int]));
        push_char(&mut s, v[i]);
        i += 1;
    }
    assert(v@.take(v@.len() as int) == v@);
    s
}

/// The views of a vector of character vectors.
pub open spec fn views(v: Seq<Vec<char>>) -> Seq<Seq<char>> {
    Seq::new(v.len(), |i: int| v[i]@)
}

/// The views of a vector of strings.
pub open spec fn string_views(v: Seq<String>) -> Seq<Seq<char>> {
    Seq::new(v.len(), |i: int| v[i]@)
}

/// A copy of `v[from..to]`.
pub fn copy_range(v: &Vec<char>, from: usize, to: usize) -> (r: Vec<char>)
    requires
        from <= to <= v.len(),
    ensures
        r@ == v@.subrange(from as int, to as int),
{
    let mut r: Vec<char> = Vec::new();
    let mut i: usize = from;
    while i < to
        invariant
            from <= i <= to <= v.len(),
            r@ == v@.subrange(from as int, i as int),
        decreases to - i,
    {
        r.push(v[i]);
        i += 1;
        assert(r@ == v@.subrange(from as int, i as int));
    }
    r
}

/// Whether two character vectors hold the same text.
pub fn same_chars(a: &Vec<char>, b: &Vec<char>) -> (r: bool)
    ensures
        r == (a@ == b@),
{
    if a.len() != b.len() {
        return false;
    }
    let mut i: usize = 0;
    while i < a.len()
        invariant
            a.len() == b.len(),
            i <= a.len(),
            forall|k: int| 0 <= k < i ==> a@[k] == b@[k],
        decreases a.len() - i,
    {
        if a[i] != b[i] {
            return false;
        }
        i += 1;
    }
    assert(a@ =~= b@);
    true
}

/// Whether `c` has the Unicode property White_Space.
pub open spec fn is_whitespace(c: char) -> bool {
    let n = c as u32;
    (0x09 <= n <= 0x0D) || n == 0x20 || n == 0x85 || n == 0xA0 || n == 0x1680 || (0x2000 <= n
        <= 0x200A) || n == 0x2028 || n == 0x2029 || n == 0x202F || n == 0x205F || n == 0x3000
}

/// Whether `c` separates words: only the space character when `spaces_only`
/// is set, any white space otherwise.
pub open spec fn is_sep(c: char, spaces_only: bool) -> bool {
    if spaces_only {
        c == ' '
    } else {
        is_whitespace(c)
    }
}

/// Whether `c` separates words.
pub fn is_sep_char(c: char, spaces_only: bool) -> (r: bool)
    ensures
        r == is_sep(c, spaces_only),
{
    if spaces_only {
        c == ' '
    } else {
        let n: u32 = c as u32;
        (0x09 <= n && n <= 0x0D) || n == 0x20 || n == 0x85 || n == 0xA0 || n == 0x1680 || (0x2000
            <= n && n <= 0x200A) || n == 0x2028 || n == 0x2029 || n == 0x202F || n == 0x205F || n
            == 0x3000
    }
}

/// `s` without its leading white space.
pub open spec fn trim_start(s: Seq<char>) -> Seq<char>
    decreases s.len(),
{
    if s.len() > 0 && is_whitespace(s[0]) {
        trim_start(s.skip(1))
    } else {
        s
    }
}

/// `s` without its trailing white space.
pub open spec fn trim_end(s: Seq<char>) -> Seq<char>
    decreases s.len(),
{
    if s.len() > 0 && is_whitespace(s.last()) {
        trim_end(s.drop_last())
    } else {
        s
    }
}

/// `s` without the white space at either end.
pub open spec fn trim(s: Seq<char>) -> Seq<char> {
    trim_end(trim_start(s))
}

/// Removes the white space at both ends of `s`.
pub fn trim_chars(s: &Vec<char>) -> (r: Vec<char>)
    ensures
        r@ == trim(s@),
{
    let n = s.len();
    let mut i: usize = 0;
    assert(s@.skip(0) == s@);
    while i < n && is_sep_char(s[i], false)
        invariant
            n == s.len(),
            i <= n,
            trim_start(s@) == trim_start(s@.skip(i as int)),
        decreases n - i,
    {
        assert(s@.skip(i as int).skip(1) == s@.skip(i + 1));
        i += 1;
    }
    assert(trim_start(s@) == s@.skip(i as int));
    assert(s@.skip(i as int) == s@.subrange(i as int, n as int));
    let mut j: usize = n;
    while j > i && is_sep_char(s[j - 1], false)
        invariant
            n == s.len(),
            i <= j <= n,
            trim(s@) == trim_end(s@.subrange(i as int, j as int)),
        decreases j,
    {
        assert(s@.subrange(i as int, j as int).drop_last() == s@.subrange(i as int, j - 1));
        j -= 1;
    }
    copy_range(s, i, j)
}

/// The words of `s` read from the left: the completed words, and the word
/// that the last character is still part of (empty after a separator).
pub open spec fn words_acc(s: Seq<char>, spaces_only: bool) -> (Seq<Seq<char>>, Seq<char>)
    decreases s.len(),
{
    if s.len() == 0 {
        (Seq::empty(), Seq::empty())
    } else {
        let (done, cur) = words_acc(s.drop_last(), spaces_only);
        if is_sep(s.last(), spaces_only) {
            if cur.len() > 0 {
                (done.push(cur), Seq::empty())
            } else {
                (done, cur)
            }
        } else {
            (done, cur.push(s.last()))
        }
    }
}

/// The maximal runs of characters of `s` that hold no separator, in order.
pub open spec fn words(s: Seq<char>, spaces_only: bool) -> Seq<Seq<char>> {
    let (done, cur) = words_acc(s, spaces_only);
    if cur.len() > 0 {
        done.push(cur)
    } else {
        done
    }
}

/// Splits `s` into its words.
pub fn split_words(s: &Vec<char>, spaces_only: bool) -> (r: Vec<Vec<char>>)
    ensures
        views(r@) == words(s@, spaces_only),
{
    let mut done: Vec<Vec<char>> = Vec::new();
    let mut cur: Vec<char> = Vec::new();
    let mut i: usize = 0;
    assert(views(done@) =~= Seq::<Seq<char>>::empty());
    while i < s.len()
        invariant
            i <= s.len(),
            words_acc(s@.take(i as int), spaces_only) == (views(done@), cur@),
        decreases s.len() - i,
    {
        assert(s@.take(i + 1).drop_last() == s@.take(i as int));
        let c = s[i];
        if is_sep_char(c, spaces_only) {
            if cur.len() > 0 {
                let ghost before = views(done@);
                let ghost word = cur@;
                done.push(cur);
                cur = Vec::new();
                assert(views(done@) =~= before.push(word));
            }
        } else {
            cur.push(c);
        }
        i += 1;
    }
    assert(s@.take(s@.len() as int) == s@);
    if cur.len() > 0 {
        let ghost before = views(done@);
        let ghost word = cur@;
        done.push(cur);
        assert(views(done@) =~= before.push(word));
    }
    done
}

/// The fields of `s` between occurrences of `sep`, read from the left. There
/// is always at least one field, and a field may be empty.
pub open spec fn split_on(s: Seq<char>, sep: char) -> Seq<Seq<char>>
    decreases s.len(),
{
    if s.len() == 0 {
        seq![Seq::empty()]
    } else {
        let fields = split_on(s.drop_last(), sep);
        if s.last() == sep {
            fields.push(Seq::empty())
        } else {
            fields.drop_last().push(fields.last().push(s.last()))
        }
    }
}

/// Splits `s` at every occurrence of `sep`.
pub fn split_fields(s: &Vec<char>, sep: char) -> (r: Vec<Vec<char>>)
    ensures
        views(r@) == split_on(s@, sep),
        r.len() >= 1,
{
    let mut done: Vec<Vec<char>> = Vec::new();
    let mut cur: Vec<char> = Vec::new();
    let mut i: usize = 0;
    assert(views(done@).push(cur@) =~= seq![Seq::<char>::empty()]);
    while i < s.len()
        invariant
            i <= s.len(),
            split_on(s@.take(i as int), sep) == views(done@).push(cur@),
        decreases s.len() - i,
    {
        assert(s@.take(i + 1).drop_last() == s@.take(i as int));
        let c = s[i];
        let ghost before = views(done@);
        let ghost word = cur@;
        assert(before.push(word).drop_last() =~= before);
        if c == sep {
            done.push(cur);
            cur = Vec::new();
            assert(views(done@) =~= before.push(word));
        } else {
            cur.push(c);
        }
        i += 1;
    }
    assert(s@.take(s@.len() as int) == s@);
    let ghost before = views(done@);
    let ghost word = cur@;
    done.push(cur);
    assert(views(done@) =~= before.push(word));
    done
}

/// Whether `pat` occurs in `s` starting at index `i`.
pub open spec fn occurs_at(s: Seq<char>, pat: Seq<char>, i: int) -> bool {
    0 <= i && i + pat.len() <= s.len() && s.subrange(i, i + pat.len()) == pat
}

/// Whether `pat` occurs somewhere in `s`.
pub open spec fn contains_text(s: Seq<char>, pat: Seq<char>) -> bool {
    exists|i: int| occurs_at(s, pat, i)
}

/// Whether `pat` occurs in `s` at index `i`.
pub fn occurs_at_index(s: &Vec<char>, pat: &Vec<char>, i: usize) -> (r: bool)
    ensures
        r == occurs_at(s@, pat@, i as int),
{
    if pat.len() > s.len() || i > s.len() - pat.len() {
        return false;
    }
    let mut j: usize = 0;
    while j < pat.len()
        invariant
            j <= pat.len(),
            i + pat.len() <= s.len(),
            forall|k: int| 0 <= k < j ==> s@[i + k] == pat@[k],
        decreases pat.len() - j,
    {
        if s[i + j] != pat[j] {
            assert(s@.subrange(i as int, i + pat.len())[j as int] != pat@[j as int]);
            return false;
        }
        j += 1;
    }
    assert(s@.subrange(i as int, i + pat.len()) =~= pat@);
    true
}

/// Searches `s` for `pat`.
pub fn contains_chars(s: &Vec<char>, pat: &Vec<char>) -> (r: bool)
    ensures
        r == contains_text(s@, pat@),
{
    if pat.len() > s.len() {
        return false;
    }
    let last: usize = s.len() - pat.len();
    let mut i: usize = 0;
    while i < last
        invariant
            last == s.len() - pat.len(),
            i <= last,
            forall|k: int| 0 <= k < i ==> !occurs_at(s@, pat@, k),
        decreases last - i,
    {
        if occurs_at_index(s, pat, i) {
            return true;
        }
        i += 1;
    }
    occurs_at_index(s, pat, last)
}

/// The index of the last occurrence of `c` in `s`, or -1 if there is none.
pub open spec fn last_index_of(s: Seq<char>, c: char) -> int
    decreases s.len(),
{
    if s.len() == 0 {
        -1
    } else if s.last() == c {
        s.len() - 1
    } else {
        last_index_of(s.drop_last(), c)
    }
}

/// Finds the last occurrence of `c` in `s`.
pub fn find_last(s: &Vec<char>, c: char) -> (r: Option<usize>)
    ensures
        match r {
            Some(i) => i == last_index_of(s@, c) && i < s.len(),
            None => last_index_of(s@, c) == -1,
        },
{
    let mut j: usize = s.len();
    assert(s@.take(s@.len() as int) == s@);
    while j > 0
        invariant
            j <= s.len(),
            last_index_of(s@, c) == last_index_of(s@.take(j as int), c),
        decreases j,
    {
        assert(s@.take(j as int).drop_last() == s@.take(j - 1));
        if s[j - 1] == c {
            return Some(j - 1);
        }
        j -= 1;
    }
    None
}

/// The index of the first occurrence of `c` in `s`, or `s.len()` if there is
/// none.
pub open spec fn first_index_of(s: Seq<char>, c: char) -> int
    decreases s.len(),
{
    if s.len() == 0 {
        0
    } else if s[0] == c {
        0
    } else {
        1 + first_index_of(s.skip(1), c)
    }
}

/// How often `c` occurs in `s`.
pub open spec fn count_char(s: Seq<char>, c: char) -> nat
    decreases s.len(),
{
    if s.len() == 0 {
        0
    } else {
        count_char(s.drop_last(), c) + if s.last() == c {
            1nat
        } else {
            0nat
        }
    }
}

/// The fields put together again, with `sep` between every two of them.
pub open spec fn join(fields: Seq<Seq<char>>, sep: char) -> Seq<char>
    decreases fields.len(),
{
    if fields.len() == 0 {
        Seq::empty()
    } else if fields.len() == 1 {
        fields[0]
    } else {
        join(fields.drop_last(), sep).push(sep) + fields.last()
    }
}

/// Splitting loses nothing: the fields joined by the separator give the
/// text back, no field holds the separator, and there is one field more than
/// there are separators.
pub proof fn lemma_split_on_is_exact(s: Seq<char>, sep: char)
    ensures
        join(split_on(s, sep), sep) == s,
        split_on(s, sep).len() == count_char(s, sep) + 1,
        forall|i: int, k: int|
            0 <= i < split_on(s, sep).len() && 0 <= k < split_on(s, sep)[i].len() ==> (
            #[trigger] split_on(s, sep)[i][k]) != sep,
    decreases s.len(),
{
    if s.len() > 0 {
        let head = s.drop_last();
        lemma_split_on_is_exact(head, sep);
        let before = split_on(head, sep);
        let after = split_on(s, sep);
        if s.last() == sep {
            assert(after.drop_last() == before);
            assert(join(after, sep) =~= join(before, sep).push(sep));
            assert(head.push(sep) == s);
        } else {
            let c = s.last();
            if before.len() == 1 {
                assert(after[0] == before[0].push(c));
            } else {
                assert(after.drop_last() == before.drop_last());
                assert(join(after, sep) =~= join(before, sep).push(c));
            }
            assert(head.push(c) == s);
            assert forall|i: int, k: int|
                0 <= i < after.len() && 0 <= k < after[i].len() implies (#[trigger] after[i][k])
                != sep by {
                if i < after.len() - 1 {
                    assert(after[i] == before[i]);
                    assert(before[i][k] != sep);
                } else if k < before.last().len() {
                    assert(after[i][k] == before[before.len() - 1][k]);
                }
            }
        }
    }
}

/// No word is empty, and no word holds a separator.
pub proof fn lemma_words_hold_no_separator(s: Seq<char>, spaces_only: bool)
    ensures
        forall|i: int|
            0 <= i < words(s, spaces_only).len() ==> (#[trigger] words(s, spaces_only)[i]).len()
                > 0,
        forall|i: int, k: int|
            0 <= i < words(s, spaces_only).len() && 0 <= k < words(s, spaces_only)[i].len()
                ==> !is_sep(#[trigger] words(s, spaces_only)[i][k], spaces_only),
{
    lemma_words_acc_hold_no_separator(s, spaces_only);
}

proof fn lemma_words_acc_hold_no_separator(s: Seq<char>, spaces_only: bool)
    ensures
        forall|i: int|
            0 <= i < words_acc(s, spaces_only).0.len() ==> (#[trigger] words_acc(
                s,
                spaces_only,
            ).0[i]).len() > 0,
        forall|i: int, k: int|
            0 <= i < words_acc(s, spaces_only).0.len() && 0 <= k < words_acc(
                s,
                spaces_only,
            ).0[i].len() ==> !is_sep(#[trigger] words_acc(s, spaces_only).0[i][k], spaces_only),
        forall|k: int|
            0 <= k < words_acc(s, spaces_only).1.len() ==> !is_sep(
                #[trigger] words_acc(s, spaces_only).1[k],
                spaces_only,
            ),
    decreases s.len(),
{
    if s.len() > 0 {
        lemma_words_acc_hold_no_separator(s.drop_last(), spaces_only);
        let (done, cur) = words_acc(s.drop_last(), spaces_only);
        let (done2, cur2) = words_acc(s, spaces_only);
        assert forall|i: int| 0 <= i < done2.len() implies (#[trigger] done2[i]).len() > 0 by {
            if i < done.len() {
                assert(done2[i] == done[i]);
            }
        }
        assert forall|i: int, k: int| 0 <= i < done2.len() && 0 <= k < done2[i].len() implies !is_sep(
            #[trigger] done2[i][k],
            spaces_only,
        ) by {
            if i < done.len() {
                assert(done2[i] == done[i]);
                assert(!is_sep(done[i][k], spaces_only));
            } else {
                assert(done2[i] == cur);
                assert(!is_sep(cur[k], spaces_only));
            }
        }
        assert forall|k: int| 0 <= k < cur2.len() implies !is_sep(#[trigger] cur2[k], spaces_only) by {
            if k < cur.len() {
                assert(cur2[k] == cur[k]);
            }
        }
    }
}

/// What is left after trimming neither starts nor ends with white space.
pub proof fn lemma_trim_has_no_space_at_its_ends(s: Seq<char>)
    ensures
        trim(s).len() > 0 ==> !is_whitespace(trim(s)[0]) && !is_whitespace(trim(s).last()),
        trim(s).len() <= s.len(),
{
    lemma_trim_start(s);
    lemma_trim_end(trim_start(s));
}

proof fn lemma_trim_start(s: Seq<char>)
    ensures
        trim_start(s).len() > 0 ==> !is_whitespace(trim_start(s)[0]),
        trim_start(s).len() <= s.len(),
    decreases s.len(),
{
    if s.len() > 0 && is_whitespace(s[0]) {
        lemma_trim_start(s.skip(1));
    }
}

proof fn lemma_trim_end(s: Seq<char>)
    ensures
        trim_end(s).len() > 0 ==> !is_whitespace(trim_end(s).last()) && trim_end(s)[0] == s[0],
        trim_end(s).len() <= s.len(),
    decreases s.len(),
{
    if s.len() > 0 && is_whitespace(s.last()) {
        lemma_trim_end(s.drop_last());
    }
}

} // verus!
