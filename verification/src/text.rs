//! Small text utilities shared by the formatting code: building `String`s
//! character by character, decimal rendering of integers, and the Unicode
//! whitespace test used by `str::trim`.

use vstd::prelude::*;

verus! {

/// Appends one character to a `String` (`String::push`).
/// Trusted: the new contents are the old contents followed by `c`.
#[verifier::external_body]
pub(crate) fn push_char(s: &mut String, c: char)
    ensures
        final(s)@ == old(s)@.push(c),
{
    s.push(c);
}

/// Appends a string slice to a `String`.
pub fn push_str(s: &mut String, t: &str)
    ensures
        final(s)@ == old(s)@ + t@,
{
    s.append(t);
}

/// Whether two string slices hold the same characters.
pub fn str_equals(a: &str, b: &str) -> (equal: bool)
    ensures
        equal == (a@ == b@),
{
    let a_owned: String = a.to_owned();
    let b_owned: String = b.to_owned();
    a_owned == b_owned
}

/// The characters of a string slice, collected into a vector.
pub fn chars_of(s: &str) -> (v: Vec<char>)
    ensures
        v@ == s@,
{
    let mut v: Vec<char> = Vec::new();
    for c in it: s.chars()
        invariant
            v@ == it.seq().take(it.index() as int),
            it.seq() == s@,
    {
        v.push(c);
    }
    v
}

/// A `String` holding exactly the given characters.
pub fn string_from_chars(chars: &[char]) -> (s: String)
    ensures
        s@ == chars@,
{
    let mut s = String::new();
    let mut i: usize = 0;
    while i < chars.len()
        invariant
            i <= chars@.len(),
            s@ == chars@.take(i as int),
        decreases chars@.len() - i,
    {
        push_char(&mut s, chars[i]);
        i += 1;
        assert(chars@.take(i as int) =~= chars@.take(i - 1).push(chars@[i - 1]));
    }
    assert(chars@.take(chars@.len() as int) =~= chars@);
    s
}

/// The decimal digit character for a value below ten.
pub open spec fn digit_char(d: nat) -> char {
    ((d + 0x30) as u32) as char
}

/// The decimal representation of a natural number, without leading zeros.
pub open spec fn decimal(n: nat) -> Seq<char>
    decreases n,
{
    if n < 10 {
        seq![digit_char(n)]
    } else {
        decimal(n / 10).push(digit_char(n % 10))
    }
}

/// The decimal representation of an integer, with a leading `-` when negative.
pub open spec fn signed_decimal(i: int) -> Seq<char> {
    if i < 0 {
        seq!['-'] + decimal((-i) as nat)
    } else {
        decimal(i as nat)
    }
}

fn digit(d: u128) -> (c: char)
    requires
        d < 10,
    ensures
        c == digit_char(d as nat),
{
    let b: u8 = d as u8 + 0x30u8;
    b as char
}

/// Appends the decimal representation of `n`.
pub fn push_decimal(s: &mut String, n: u128)
    ensures
        final(s)@ == old(s)@ + decimal(n as nat),
    decreases n,
{
    if n < 10 {
        push_char(s, digit(n));
    } else {
        push_decimal(s, n / 10);
        push_char(s, digit(n % 10));
    }
}

/// Appends the decimal representation of a signed 32-bit integer.
pub fn push_i32(s: &mut String, i: i32)
    ensures
        final(s)@ == old(s)@ + signed_decimal(i as int),
{
    if i < 0 {
        push_char(s, '-');
        let magnitude: u128 = (0i64 - i as i64) as u128;
        push_decimal(s, magnitude);
    } else {
        push_decimal(s, i as u128);
    }
}


/// True for the ASCII decimal digits `0`..=`9`.
pub open spec fn is_ascii_digit(b: u8) -> bool {
    0x30 <= b <= 0x39
}

/// True when every byte of `s` is an ASCII decimal digit.
pub open spec fn all_ascii_digits(s: Seq<u8>) -> bool {
    forall|i: int| 0 <= i < s.len() ==> is_ascii_digit(#[trigger] s[i])
}

/// The value of a string of decimal digits, most significant first.
pub open spec fn digits_value(s: Seq<u8>) -> nat
    decreases s.len(),
{
    if s.len() == 0 {
        0
    } else {
        digits_value(s.drop_last()) * 10 + (s.last() - 0x30) as nat
    }
}

/// The `i32` that a non-empty run of decimal digits denotes, negated when
/// `negative`, if it fits.
pub open spec fn signed_digits_value(d: Seq<u8>, negative: bool) -> Option<i32> {
    if d.len() > 0 && all_ascii_digits(d) {
        if negative && digits_value(d) <= 0x8000_0000 {
            Some((0 - digits_value(d)) as i32)
        } else if !negative && digits_value(d) <= 0x7fff_ffff {
            Some(digits_value(d) as i32)
        } else {
            None
        }
    } else {
        None
    }
}

/// What `i32::from_str` gives for the bytes `s`: an optional `+` or `-`
/// sign followed by one or more decimal digits whose value fits in `i32`.
pub open spec fn parse_i32_spec(s: Seq<u8>) -> Option<i32> {
    if s.len() > 0 && s[0] == 0x2d {
        signed_digits_value(s.drop_first(), true)
    } else if s.len() > 0 && s[0] == 0x2b {
        signed_digits_value(s.drop_first(), false)
    } else {
        signed_digits_value(s, false)
    }
}

/// A longer run of digits never has a smaller value than its prefix.
pub proof fn lemma_digits_value_prefix(s: Seq<u8>, k: int)
    requires
        0 <= k <= s.len(),
        all_ascii_digits(s),
    ensures
        digits_value(s.take(k)) <= digits_value(s),
    decreases s.len(),
{
    if k < s.len() {
        assert(s.drop_last().take(k) =~= s.take(k));
        assert(all_ascii_digits(s.drop_last()));
        lemma_digits_value_prefix(s.drop_last(), k);
    } else {
        assert(s.take(k) =~= s);
    }
}

/// The ASCII bytes of the decimal representation of `n`.
pub open spec fn decimal_bytes(n: nat) -> Seq<u8>
    decreases n,
{
    if n < 10 {
        seq![(n + 0x30) as u8]
    } else {
        decimal_bytes(n / 10).push((n % 10 + 0x30) as u8)
    }
}

/// The decimal bytes of `n` are digits and denote `n`.
pub proof fn lemma_decimal_bytes_digits(n: nat)
    ensures
        decimal_bytes(n).len() > 0,
        all_ascii_digits(decimal_bytes(n)),
        digits_value(decimal_bytes(n)) == n,
    decreases n,
{
    let d = decimal_bytes(n);
    if n < 10 {
        assert(d.drop_last() =~= Seq::<u8>::empty());
        assert(d.last() - 0x30 == n);
        assert(digits_value(d.drop_last()) == 0);
        assert(digits_value(d) == digits_value(d.drop_last()) * 10 + (d.last() - 0x30) as nat);
    } else {
        lemma_decimal_bytes_digits(n / 10);
        assert(d.drop_last() =~= decimal_bytes(n / 10));
        assert(d.last() == (n % 10 + 0x30) as u8);
        assert(d.last() - 0x30 == n % 10);
        assert(digits_value(d) == digits_value(decimal_bytes(n / 10)) * 10 + (d.last() - 0x30) as nat);
        assert((n / 10) * 10 + n % 10 == n);
        assert forall|i: int| 0 <= i < d.len() implies is_ascii_digit(#[trigger] d[i]) by {
            if i < d.len() - 1 {
                assert(d[i] == decimal_bytes(n / 10)[i]);
            }
        }
    }
}

/// Parsing inverts decimal formatting: the decimal bytes of any
/// non-negative `i32` parse back to it.
pub proof fn lemma_parse_decimal_bytes(n: i32)
    requires
        n >= 0,
    ensures
        parse_i32_spec(decimal_bytes(n as nat)) == Some(n),
{
    lemma_decimal_bytes_digits(n as nat);
    let d = decimal_bytes(n as nat);
    assert(is_ascii_digit(d[0]));
}

/// Parses a decimal `i32` exactly as `str::parse::<i32>` does on these bytes.
pub fn parse_i32(s: &[u8]) -> (value: Option<i32>)
    ensures
        value == parse_i32_spec(s@),
{
    let negative = s.len() > 0 && s[0] == 0x2d;
    let start: usize = if s.len() > 0 && (s[0] == 0x2d || s[0] == 0x2b) { 1 } else { 0 };
    let ghost d = s@.skip(start as int);
    proof {
        if s@.len() > 0 && s@[0] == 0x2d {
            assert(d =~= s@.drop_first());
        } else if s@.len() > 0 && s@[0] == 0x2b {
            assert(d =~= s@.drop_first());
        } else {
            assert(d =~= s@);
        }
    }
    if start >= s.len() {
        return None;
    }
    let bound: u64 = if negative { 0x8000_0000 } else { 0x7fff_ffff };
    let mut acc: u64 = 0;
    let mut i: usize = start;
    while i < s.len()
        invariant
            start <= i <= s@.len(),
            d == s@.skip(start as int),
            acc == digits_value(d.take(i - start)),
            acc <= bound,
            bound == (if negative { 0x8000_0000u64 } else { 0x7fff_ffffu64 }),
            parse_i32_spec(s@) == signed_digits_value(d, negative),
            all_ascii_digits(d.take(i - start)),
        decreases s@.len() - i,
    {
        let b = s[i];
        proof {
            assert(d.take(i - start + 1).drop_last() =~= d.take(i - start));
            assert(d.take(i - start + 1).last() == b);
        }
        if b < 0x30 || b > 0x39 {
            proof {
                assert(!is_ascii_digit(d[i - start]));
            }
            return None;
        }
        acc = acc * 10 + (b - 0x30) as u64;
        i += 1;
        assert(all_ascii_digits(d.take(i - start))) by {
            assert forall|j: int| 0 <= j < d.take(i - start).len() implies is_ascii_digit(#[trigger] d.take(i - start)[j]) by {
                if j < i - start - 1 {
                    assert(d.take(i - start)[j] == d.take(i - start - 1)[j]);
                }
            }
        }
        if acc > bound {
            proof {
                assert(d.take(i - start + 0) =~= d.take(i - start));
                if all_ascii_digits(d) {
                    lemma_digits_value_prefix(d, i - start);
                }
            }
            return None;
        }
    }
    assert(d.take(i - start) =~= d);
    if negative {
        Some((0i64 - acc as i64) as i32)
    } else {
        Some(acc as i32)
    }
}


/// `char::is_whitespace`: the characters with the Unicode `White_Space`
/// property.
pub open spec fn is_unicode_whitespace(c: char) -> bool {
    let u = c as u32;
    (0x09 <= u <= 0x0d) || u == 0x20 || u == 0x85 || u == 0xa0 || u == 0x1680 || (0x2000 <= u
        <= 0x200a) || u == 0x2028 || u == 0x2029 || u == 0x202f || u == 0x205f || u == 0x3000
}

/// Every character of `s` is whitespace, which is when `str::trim` leaves
/// nothing of it.
pub open spec fn is_blank(s: Seq<char>) -> bool {
    forall|i: int| 0 <= i < s.len() ==> is_unicode_whitespace(#[trigger] s[i])
}

/// `char::is_whitespace`.
pub fn is_whitespace(c: char) -> (b: bool)
    ensures
        b == is_unicode_whitespace(c),
{
    let u = c as u32;
    (0x09 <= u && u <= 0x0d) || u == 0x20 || u == 0x85 || u == 0xa0 || u == 0x1680 || (0x2000
        <= u && u <= 0x200a) || u == 0x2028 || u == 0x2029 || u == 0x202f || u == 0x205f || u
        == 0x3000
}

/// Whether `str::trim` leaves nothing of the characters `s`.
pub fn chars_are_blank(s: &[char]) -> (b: bool)
    ensures
        b == is_blank(s@),
{
    let mut i: usize = 0;
    while i < s.len()
        invariant
            i <= s@.len(),
            forall|k: int| 0 <= k < i ==> is_unicode_whitespace(#[trigger] s@[k]),
        decreases s@.len() - i,
    {
        if !is_whitespace(s[i]) {
            return false;
        }
        i += 1;
    }
    true
}

/// Whether `c` occurs among the characters `s`.
pub fn chars_contain(s: &[char], c: char) -> (b: bool)
    ensures
        b == s@.contains(c),
{
    let mut i: usize = 0;
    while i < s.len()
        invariant
            i <= s@.len(),
            forall|k: int| 0 <= k < i ==> s@[k] != c,
        decreases s@.len() - i,
    {
        if s[i] == c {
            assert(s@[i as int] == c);
            return true;
        }
        i += 1;
    }
    false
}

} // verus!
