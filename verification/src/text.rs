//! Lexical rules shared by the workload format and the event kernel: canonical
//! decimal integers, identifiers, and decimal rendering of counters.
use vstd::prelude::*;

verus! {

pub open spec fn is_ascii_digit(b: u8) -> bool {
    48 <= b <= 57
}

pub open spec fn is_ascii_alpha(b: u8) -> bool {
    (65 <= b <= 90) || (97 <= b <= 122)
}

/// Bytes allowed in an identifier: ASCII letters and digits and `.`, `_`, `:`, `~`, `-`.
pub open spec fn is_id_byte(b: u8) -> bool {
    is_ascii_alpha(b) || is_ascii_digit(b) || b == 46 || b == 95 || b == 58 || b == 126 || b == 45
}

/// A nonempty run of ASCII digits without a leading zero, except the single digit `0`.
pub open spec fn canonical_digits(b: Seq<u8>) -> bool {
    &&& b.len() > 0
    &&& (b =~= seq![48u8] || b[0] != 48)
    &&& forall|i: int| 0 <= i < b.len() ==> is_ascii_digit(#[trigger] b[i])
}

/// The number that a run of ASCII digits denotes in base ten.
pub open spec fn decimal_value(b: Seq<u8>) -> nat
    decreases b.len(),
{
    if b.len() == 0 {
        0
    } else {
        decimal_value(b.drop_last()) * 10 + (b.last() - 48) as nat
    }
}

/// The unsigned value of a canonical decimal text, if it fits in 64 bits.
pub open spec fn unsigned_text(b: Seq<u8>) -> Option<u64> {
    if canonical_digits(b) && decimal_value(b) <= u64::MAX {
        Some(decimal_value(b) as u64)
    } else {
        None
    }
}

/// The signed value of an optionally `-`-prefixed canonical decimal text
/// (`-0` excluded), if it fits in 64 bits.
pub open spec fn signed_text(b: Seq<u8>) -> Option<i64> {
    let negative = b.len() > 0 && b[0] == 45u8;
    let magnitude = if negative { b.drop_first() } else { b };
    let value: int = if negative { -decimal_value(magnitude) } else { decimal_value(magnitude) as int };
    if b =~= seq![45u8, 48u8] || !canonical_digits(magnitude) {
        None
    } else if i64::MIN <= value <= i64::MAX {
        Some(value as i64)
    } else {
        None
    }
}

/// A `u32` written as the standard library reads one: an optional `+`, then one or
/// more ASCII digits (leading zeros allowed), denoting at most `u32::MAX`.
pub open spec fn u32_text(b: Seq<u8>) -> Option<u32> {
    let digits = unsigned_part(b);
    if digits.len() > 0 && all_digits(digits) && decimal_value(digits) <= u32::MAX {
        Some(decimal_value(digits) as u32)
    } else {
        None
    }
}

/// The text after an optional leading `+`.
pub open spec fn unsigned_part(b: Seq<u8>) -> Seq<u8> {
    if b.len() > 0 && b[0] == 43u8 {
        b.drop_first()
    } else {
        b
    }
}

pub open spec fn all_digits(b: Seq<u8>) -> bool {
    forall|i: int| 0 <= i < b.len() ==> is_ascii_digit(#[trigger] b[i])
}

/// Identifier rule: 1 to 128 bytes, an ASCII letter first, identifier bytes throughout.
pub open spec fn is_identifier(b: Seq<u8>) -> bool {
    &&& 1 <= b.len() <= 128
    &&& is_ascii_alpha(b[0])
    &&& forall|i: int| 0 <= i < b.len() ==> is_id_byte(#[trigger] b[i])
}

pub open spec fn digit_char(d: nat) -> char {
    if d == 0 { '0' } else if d == 1 { '1' } else if d == 2 { '2' } else if d == 3 { '3' }
    else if d == 4 { '4' } else if d == 5 { '5' } else if d == 6 { '6' } else if d == 7 { '7' }
    else if d == 8 { '8' } else { '9' }
}

/// The shortest base-ten rendering of a natural number.
pub open spec fn decimal_chars(n: nat) -> Seq<char>
    decreases n,
{
    if n < 10 {
        seq![digit_char(n)]
    } else {
        decimal_chars(n / 10).push(digit_char(n % 10))
    }
}

proof fn lemma_decimal_grows(b: Seq<u8>, i: int)
    requires
        0 <= i <= b.len(),
        forall|k: int| 0 <= k < b.len() ==> is_ascii_digit(#[trigger] b[k]),
    ensures
        decimal_value(b.take(i)) <= decimal_value(b),
    decreases b.len() - i,
{
    if i < b.len() {
        lemma_decimal_grows(b, i + 1);
        assert(b.take(i + 1).drop_last() =~= b.take(i));
    } else {
        assert(b.take(i) =~= b);
    }
}

/// Reads an ASCII digit run as a `u64`; `None` when the value exceeds `u64::MAX`.
pub fn digits_value(b: &[u8]) -> (r: Option<u64>)
    requires
        forall|k: int| 0 <= k < b@.len() ==> is_ascii_digit(#[trigger] b@[k]),
    ensures
        r == (if decimal_value(b@) <= u64::MAX { Some(decimal_value(b@) as u64) } else { None::<u64> }),
{
    let mut acc: u64 = 0;
    let mut i: usize = 0;
    while i < b.len()
        invariant
            0 <= i <= b@.len(),
            forall|k: int| 0 <= k < b@.len() ==> is_ascii_digit(#[trigger] b@[k]),
            acc as nat == decimal_value(b@.take(i as int)),
        decreases b@.len() - i,
    {
        assert(b@.take(i + 1).drop_last() =~= b@.take(i as int));
        assert(b@.take(i + 1).last() == b@[i as int]);
        let d = (b[i] - 48) as u64;
        match acc.checked_mul(10) {
            None => {
                proof { lemma_decimal_grows(b@, i + 1); }
                return None;
            },
            Some(m) => match m.checked_add(d) {
                None => {
                    proof { lemma_decimal_grows(b@, i + 1); }
                    return None;
                },
                Some(s) => {
                    acc = s;
                },
            },
        }
        i = i + 1;
    }
    assert(b@.take(i as int) =~= b@);
    Some(acc)
}

/// Whether `b` is a canonical decimal digit run.
pub fn is_canonical_digits(b: &[u8]) -> (r: bool)
    ensures
        r == canonical_digits(b@),
{
    if b.len() == 0 {
        return false;
    }
    if b[0] == 48 && b.len() != 1 {
        assert(!(b@ =~= seq![48u8]));
        return false;
    }
    let mut i: usize = 0;
    while i < b.len()
        invariant
            0 <= i <= b@.len(),
            forall|k: int| 0 <= k < i ==> is_ascii_digit(#[trigger] b@[k]),
        decreases b@.len() - i,
    {
        if !(48 <= b[i] && b[i] <= 57) {
            return false;
        }
        i = i + 1;
    }
    proof {
        if b@[0] == 48 {
            assert(b@ =~= seq![48u8]);
        }
    }
    true
}

/// Parses canonical unsigned decimal text.
/// Reads a `u32` (see `u32_text`).
pub fn read_u32(b: &[u8]) -> (r: Option<u32>)
    ensures
        r == u32_text(b@),
{
    let start: usize = if b.len() > 0 && b[0] == 43 {
        1
    } else {
        0
    };
    let ghost digits = unsigned_part(b@);
    assert(digits =~= b@.subrange(start as int, b@.len() as int));
    if start == b.len() {
        return None;
    }
    let mut i: usize = start;
    while i < b.len()
        invariant
            start <= i <= b@.len(),
            digits =~= b@.subrange(start as int, b@.len() as int),
            digits == unsigned_part(b@),
            forall|k: int| start <= k < i ==> is_ascii_digit(#[trigger] b@[k]),
        decreases b@.len() - i,
    {
        if !(48 <= b[i] && b[i] <= 57) {
            assert(digits[i - start] == b@[i as int]);
            assert(!is_ascii_digit(digits[i - start]));
            assert(!all_digits(digits));
            return None;
        }
        i = i + 1;
    }
    assert(all_digits(digits)) by {
        assert(forall|k: int| 0 <= k < digits.len() ==> digits[k] == b@[k + start]);
    }
    let mut acc: u64 = 0;
    let mut j: usize = start;
    while j < b.len()
        invariant
            start <= j <= b@.len(),
            digits =~= b@.subrange(start as int, b@.len() as int),
            digits == unsigned_part(b@),
            forall|k: int| 0 <= k < digits.len() ==> is_ascii_digit(#[trigger] digits[k]),
            acc as nat == decimal_value(digits.take(j - start)),
            acc <= u32::MAX,
        decreases b@.len() - j,
    {
        assert(digits.take(j - start + 1).drop_last() =~= digits.take(j - start));
        assert(digits.take(j - start + 1).last() == b@[j as int]);
        let d = (b[j] - 48) as u64;
        acc = acc * 10 + d;
        assert(acc as nat == decimal_value(digits.take(j - start + 1)));
        if acc > 0xffff_ffff {
            proof {
                lemma_decimal_grows(digits, j - start + 1);
            }
            assert(decimal_value(digits) > u32::MAX);
            return None;
        }
        j = j + 1;
    }
    assert(digits.take(j - start) =~= digits);
    Some(acc as u32)
}

pub fn parse_unsigned(b: &[u8]) -> (r: Option<u64>)
    ensures
        r == unsigned_text(b@),
{
    if !is_canonical_digits(b) {
        return None;
    }
    digits_value(b)
}

/// Parses canonical signed decimal text.
pub fn parse_signed(b: &[u8]) -> (r: Option<i64>)
    ensures
        r == signed_text(b@),
{
    if b.len() == 2 && b[0] == 45 && b[1] == 48 {
        assert(b@ =~= seq![45u8, 48u8]);
        return None;
    }
    assert(!(b@ =~= seq![45u8, 48u8]));
    let negative = b.len() > 0 && b[0] == 45;
    let magnitude = if negative { slice_skip_first(b) } else { b };
    if !is_canonical_digits(magnitude) {
        return None;
    }
    match digits_value(magnitude) {
        None => None,
        Some(m) => {
            if negative {
                if m <= 0x8000_0000_0000_0000u64 {
                    if m == 0x8000_0000_0000_0000u64 {
                        Some(i64::MIN)
                    } else {
                        Some(-(m as i64))
                    }
                } else {
                    None
                }
            } else if m <= 0x7fff_ffff_ffff_ffffu64 {
                Some(m as i64)
            } else {
                None
            }
        },
    }
}

fn slice_skip_first(b: &[u8]) -> (r: &[u8])
    requires
        b@.len() > 0,
    ensures
        r@ == b@.drop_first(),
{
    let (_, rest) = b.split_at(1);
    rest
}

/// Whether `b` follows the identifier rule.
pub fn is_identifier_bytes(b: &[u8]) -> (r: bool)
    ensures
        r == is_identifier(b@),
{
    if b.len() == 0 || b.len() > 128 {
        return false;
    }
    let first = b[0];
    if !((65 <= first && first <= 90) || (97 <= first && first <= 122)) {
        return false;
    }
    let mut i: usize = 0;
    while i < b.len()
        invariant
            0 <= i <= b@.len(),
            forall|k: int| 0 <= k < i ==> is_id_byte(#[trigger] b@[k]),
        decreases b@.len() - i,
    {
        let c = b[i];
        let ok = (65 <= c && c <= 90) || (97 <= c && c <= 122) || (48 <= c && c <= 57) || c == 46
            || c == 95 || c == 58 || c == 126 || c == 45;
        if !ok {
            return false;
        }
        i = i + 1;
    }
    true
}

fn digit_to_char(d: u64) -> (c: char)
    requires
        d < 10,
    ensures
        c == digit_char(d as nat),
{
    if d == 0 { '0' } else if d == 1 { '1' } else if d == 2 { '2' } else if d == 3 { '3' }
    else if d == 4 { '4' } else if d == 5 { '5' } else if d == 6 { '6' } else if d == 7 { '7' }
    else if d == 8 { '8' } else { '9' }
}

/// Appends the base-ten rendering of `n` to `s`.
pub fn push_decimal(s: &mut String, n: u64)
    ensures
        final(s)@ == old(s)@ + decimal_chars(n as nat),
    decreases n,
{
    if n >= 10 {
        push_decimal(s, n / 10);
    }
    let c = digit_to_char(n % 10);
    push_char(s, c);
    proof {
        if n >= 10 {
            assert(decimal_chars(n as nat) == decimal_chars((n / 10) as nat).push(digit_char((n % 10) as nat)));
        }
    }
}

/// `String::push`: appends one character.
#[verifier::external_body]
pub(crate) fn push_char(s: &mut String, c: char)
    ensures
        final(s)@ == old(s)@.push(c),
{
    s.push(c);
}

/// `String::push_str`: appends a string slice.
#[verifier::external_body]
pub(crate) fn push_str(s: &mut String, t: &str)
    ensures
        final(s)@ == old(s)@ + t@,
{
    s.push_str(t);
}

/// `<str as PartialEq>::eq`: equality of string slices.
#[verifier::external_body]
pub(crate) fn str_eq(a: &str, b: &str) -> (r: bool)
    ensures
        r == (a@ == b@),
{
    a == b
}

} // verus!
