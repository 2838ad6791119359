//! Numbers in text: fixed-width hexadecimal, unsigned decimal, and the
//! register notation `0x` followed by eight upper-case hexadecimal digits.

use vstd::prelude::*;

verus! {

/// Whether `c` is one of the digits `0` to `9`.
pub open spec fn is_digit(c: char) -> bool {
    48 <= c as u32 <= 57
}

/// The value of a decimal digit; 0 for any other character.
pub open spec fn digit_value(c: char) -> nat {
    if is_digit(c) {
        (c as u32 - 48) as nat
    } else {
        0
    }
}

/// Whether `s` holds decimal digits only.
pub open spec fn all_digits(s: Seq<char>) -> bool {
    forall|i: int| 0 <= i < s.len() ==> is_digit(#[trigger] s[i])
}

/// Whether `c` is a hexadecimal digit, in either case.
pub open spec fn is_hex_digit(c: char) -> bool {
    let n = c as u32;
    (48 <= n <= 57) || (65 <= n <= 70) || (97 <= n <= 102)
}

/// The value of a hexadecimal digit; 0 for any other character.
pub open spec fn hex_digit_value(c: char) -> nat {
    let n = c as u32;
    if 48 <= n <= 57 {
        (n - 48) as nat
    } else if 65 <= n <= 70 {
        (n - 55) as nat
    } else if 97 <= n <= 102 {
        (n - 87) as nat
    } else {
        0
    }
}

/// Whether `s` holds hexadecimal digits only.
pub open spec fn all_hex(s: Seq<char>) -> bool {
    forall|i: int| 0 <= i < s.len() ==> is_hex_digit(#[trigger] s[i])
}

/// The number that the hexadecimal digits of `s` denote.
pub open spec fn hex_value(s: Seq<char>) -> nat
    decreases s.len(),
{
    if s.len() == 0 {
        0
    } else {
        hex_value(s.drop_last()) * 16 + hex_digit_value(s.last())
    }
}

/// 16 to the power `k`, for `k` up to 8.
pub open spec fn pow16(k: int) -> int {
    if k <= 0 {
        1
    } else if k == 1 {
        0x10
    } else if k == 2 {
        0x100
    } else if k == 3 {
        0x1000
    } else if k == 4 {
        0x1_0000
    } else if k == 5 {
        0x10_0000
    } else if k == 6 {
        0x100_0000
    } else if k == 7 {
        0x1000_0000
    } else {
        0x1_0000_0000
    }
}

/// What a token of exactly `width` hexadecimal digits denotes; `None` for any
/// other token.
pub open spec fn hex_number(s: Seq<char>, width: int) -> Option<u32> {
    if s.len() == width && all_hex(s) {
        Some(hex_value(s) as u32)
    } else {
        None
    }
}

/// The value of one hexadecimal digit.
pub fn hex_digit(c: char) -> (r: Option<u8>)
    ensures
        r is Some <==> is_hex_digit(c),
        r matches Some(v) ==> v == hex_digit_value(c) && v < 16,
{
    let n: u32 = c as u32;
    if 48 <= n && n <= 57 {
        Some((n - 48) as u8)
    } else if 65 <= n && n <= 70 {
        Some((n - 55) as u8)
    } else if 97 <= n && n <= 102 {
        Some((n - 87) as u8)
    } else {
        None
    }
}

/// Reads a token of exactly `width` hexadecimal digits.
pub fn parse_hex(tok: &Vec<char>, width: usize) -> (r: Option<u32>)
    requires
        1 <= width <= 8,
    ensures
        r == hex_number(tok@, width as int),
        r matches Some(v) ==> v == hex_value(tok@) && v < pow16(width as int),
{
    if tok.len() != width {
        return None;
    }
    let mut acc: u64 = 0;
    let mut i: usize = 0;
    while i < tok.len()
        invariant
            tok.len() == width,
            width <= 8,
            i <= tok.len(),
            all_hex(tok@.take(i as int)),
            acc == hex_value(tok@.take(i as int)),
            acc < pow16(i as int),
        decreases tok.len() - i,
    {
        assert(tok@.take(i + 1).drop_last() == tok@.take(i as int));
        match hex_digit(tok[i]) {
            Some(d) => {
                acc = acc * 16 + d as u64;
            },
            None => {
                assert(!is_hex_digit(tok@[i as int]));
                return None;
            },
        }
        i += 1;
        assert forall|k: int| 0 <= k < i implies is_hex_digit(#[trigger] tok@.take(i as int)[k]) by {
            if k < i - 1 {
                assert(tok@.take(i as int)[k] == tok@.take(i - 1)[k]);
            }
        }
    }
    assert(tok@.take(tok@.len() as int) == tok@);
    Some(acc as u32)
}

/// The upper-case hexadecimal digit for a value below 16.
pub open spec fn upper_hex_char(d: int) -> char {
    if d == 0 {
        '0'
    } else if d == 1 {
        '1'
    } else if d == 2 {
        '2'
    } else if d == 3 {
        '3'
    } else if d == 4 {
        '4'
    } else if d == 5 {
        '5'
    } else if d == 6 {
        '6'
    } else if d == 7 {
        '7'
    } else if d == 8 {
        '8'
    } else if d == 9 {
        '9'
    } else if d == 10 {
        'A'
    } else if d == 11 {
        'B'
    } else if d == 12 {
        'C'
    } else if d == 13 {
        'D'
    } else if d == 14 {
        'E'
    } else {
        'F'
    }
}

/// The upper-case hexadecimal digit for a value below 16.
pub fn upper_hex(d: u32) -> (c: char)
    requires
        d < 16,
    ensures
        c == upper_hex_char(d as int),
{
    if d == 0 {
        '0'
    } else if d == 1 {
        '1'
    } else if d == 2 {
        '2'
    } else if d == 3 {
        '3'
    } else if d == 4 {
        '4'
    } else if d == 5 {
        '5'
    } else if d == 6 {
        '6'
    } else if d == 7 {
        '7'
    } else if d == 8 {
        '8'
    } else if d == 9 {
        '9'
    } else if d == 10 {
        'A'
    } else if d == 11 {
        'B'
    } else if d == 12 {
        'C'
    } else if d == 13 {
        'D'
    } else if d == 14 {
        'E'
    } else {
        'F'
    }
}

/// The hexadecimal digit of `v` at position `k` counted from the left, of
/// eight.
pub open spec fn hex_digit_at(v: u32, k: int) -> int {
    (v as int / pow16(7 - k)) % 16
}

/// A register value in text: `0x` and eight upper-case hexadecimal digits.
pub open spec fn register_text(v: u32) -> Seq<char> {
    seq!['0', 'x'] + Seq::new(8, |k: int| upper_hex_char(hex_digit_at(v, k)))
}

/// Whether `s` has the shape `0x` followed by eight digits out of `0-9A-F`.
pub open spec fn is_register_text(s: Seq<char>) -> bool {
    &&& s.len() == 10
    &&& s[0] == '0'
    &&& s[1] == 'x'
    &&& forall|k: int|
        2 <= k < 10 ==> {
            let n = (#[trigger] s[k]) as u32;
            (48 <= n <= 57) || (65 <= n <= 70)
        }
}

/// Every register text has the register shape.
pub proof fn lemma_register_text_shape(v: u32)
    ensures
        is_register_text(register_text(v)),
{
    let s = register_text(v);
    assert forall|k: int| 2 <= k < 10 implies {
        let n = (#[trigger] s[k]) as u32;
        (48 <= n <= 57) || (65 <= n <= 70)
    } by {
        let d = hex_digit_at(v, k - 2);
        assert(0 <= d < 16);
        assert(s[k] == upper_hex_char(d));
    }
}

/// Writes a register value as `0x` and eight upper-case hexadecimal digits.
pub fn format_register(v: u32) -> (r: Vec<char>)
    ensures
        r@ == register_text(v),
{
    let mut r: Vec<char> = Vec::new();
    r.push('0');
    r.push('x');
    let mut div: u32 = 0x1000_0000;
    let mut k: usize = 0;
    while k < 8
        invariant
            k <= 8,
            k < 8 ==> div == pow16(7 - k),
            r@.len() == 2 + k,
            r@[0] == '0',
            r@[1] == 'x',
            forall|j: int| 0 <= j < k ==> r@[2 + j] == upper_hex_char(hex_digit_at(v, j)),
        decreases 8 - k,
    {
        let d: u32 = (v / div) % 16;
        r.push(upper_hex(d));
        if k < 7 {
            div = div / 16;
        }
        k += 1;
    }
    assert(r@ =~= register_text(v));
    r
}

/// The number that the decimal digits of `s` denote.
pub open spec fn dec_value(s: Seq<char>) -> nat
    decreases s.len(),
{
    if s.len() == 0 {
        0
    } else {
        dec_value(s.drop_last()) * 10 + digit_value(s.last())
    }
}

/// `s` without one leading plus sign.
pub open spec fn unsigned_digits(s: Seq<char>) -> Seq<char> {
    if s.len() > 0 && s[0] == '+' {
        s.skip(1)
    } else {
        s
    }
}

/// What `s` denotes as an unsigned 32-bit decimal number: an optional plus
/// sign, then at least one digit, and a value that fits.
pub open spec fn decimal_u32(s: Seq<char>) -> Option<u32> {
    let d = unsigned_digits(s);
    if d.len() > 0 && all_digits(d) && dec_value(d) <= u32::MAX {
        Some(dec_value(d) as u32)
    } else {
        None
    }
}

proof fn lemma_dec_value_prefix(s: Seq<char>, k: int)
    requires
        0 <= k <= s.len(),
    ensures
        dec_value(s.take(k)) <= dec_value(s),
    decreases s.len() - k,
{
    if k == s.len() {
        assert(s.take(k) == s);
    } else {
        lemma_dec_value_prefix(s.drop_last(), k);
        assert(s.drop_last().take(k) == s.take(k));
    }
}

/// Reads an unsigned 32-bit decimal number.
pub fn parse_decimal(tok: &Vec<char>) -> (r: Option<u32>)
    ensures
        r == decimal_u32(tok@),
{
    let start: usize = if tok.len() > 0 && tok[0] == '+' {
        1
    } else {
        0
    };
    let ghost d = unsigned_digits(tok@);
    assert(d == tok@.skip(start as int));
    if start == tok.len() {
        return None;
    }
    let mut acc: u64 = 0;
    let mut i: usize = start;
    while i < tok.len()
        invariant
            start <= i <= tok.len(),
            d == tok@.skip(start as int),
            d == unsigned_digits(tok@),
            all_digits(d.take(i - start)),
            acc == dec_value(d.take(i - start)),
            acc <= u32::MAX,
        decreases tok.len() - i,
    {
        assert(d.take(i + 1 - start).drop_last() == d.take(i - start));
        let n: u32 = tok[i] as u32;
        if n < 48 || n > 57 {
            assert(!is_digit(d[i - start]));
            return None;
        }
        acc = acc * 10 + (n - 48) as u64;
        assert(acc == dec_value(d.take(i + 1 - start)));
        if acc > 0xFFFF_FFFF {
            proof {
                lemma_dec_value_prefix(d, i + 1 - start);
            }
            return None;
        }
        i += 1;
        assert forall|k: int| 0 <= k < i - start implies is_digit(#[trigger] d.take(i - start)[k]) by {
            if k < i - start - 1 {
                assert(d.take(i - start)[k] == d.take(i - start - 1)[k]);
            }
        }
    }
    assert(d.take(d.len() as int) == d);
    Some(acc as u32)
}

proof fn lemma_div_step(v: u32, j: int)
    requires
        0 <= j <= 7,
    ensures
        (v as int / pow16(j)) / 16 == v as int / pow16(j + 1),
{
    let n = v as int;
    if j == 0 {
        assert((n / 1) / 16 == n / 0x10);
    } else if j == 1 {
        assert((n / 0x10) / 16 == n / 0x100);
    } else if j == 2 {
        assert((n / 0x100) / 16 == n / 0x1000);
    } else if j == 3 {
        assert((n / 0x1000) / 16 == n / 0x1_0000);
    } else if j == 4 {
        assert((n / 0x1_0000) / 16 == n / 0x10_0000);
    } else if j == 5 {
        assert((n / 0x10_0000) / 16 == n / 0x100_0000);
    } else if j == 6 {
        assert((n / 0x100_0000) / 16 == n / 0x1000_0000);
    } else {
        assert((n / 0x1000_0000) / 16 == n / 0x1_0000_0000);
    }
}

proof fn lemma_upper_hex_value(d: int)
    requires
        0 <= d < 16,
    ensures
        is_hex_digit(upper_hex_char(d)),
        hex_digit_value(upper_hex_char(d)) == d,
{
}

proof fn lemma_register_prefix(v: u32, k: int)
    requires
        0 <= k <= 8,
    ensures
        hex_value(register_text(v).skip(2).take(k)) == v as int / pow16(8 - k),
        all_hex(register_text(v).skip(2).take(k)),
    decreases k,
{
    let s = register_text(v).skip(2);
    if k > 0 {
        lemma_register_prefix(v, k - 1);
        let t = s.take(k);
        assert(t.drop_last() == s.take(k - 1));
        let d = hex_digit_at(v, k - 1);
        assert(0 <= d < 16);
        assert(t.last() == upper_hex_char(d));
        lemma_upper_hex_value(d);
        lemma_div_step(v, 8 - k);
        assert(hex_value(t) == hex_value(s.take(k - 1)) * 16 + d);
        assert forall|i: int| 0 <= i < t.len() implies is_hex_digit(#[trigger] t[i]) by {
            if i < k - 1 {
                assert(t[i] == s.take(k - 1)[i]);
            }
        }
    }
}

/// Reading a register text gives the value back that it was written for.
pub proof fn lemma_register_text_denotes_its_value(v: u32)
    ensures
        hex_number(register_text(v).skip(2), 8) == Some(v),
{
    let s = register_text(v).skip(2);
    lemma_register_prefix(v, 8);
    assert(s.take(8) == s);
}

} // verus!
