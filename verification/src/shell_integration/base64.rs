//! Standard base64 (RFC 4648 alphabet, `=` padding), used to carry raw
//! command output inside the JSON event protocol.

use vstd::prelude::*;
use vstd::utf8::encode_utf8;
use crate::text::push_char;

verus! {

/// Why a string is not valid base64.
#[derive(Debug, Clone, Copy, PartialEq, Eq, Structural)]
pub enum Base64DecodeFailure {
    /// The length is not a multiple of four.
    LengthNotMultipleOfFour,
    /// A byte outside the base64 alphabet.
    InvalidCharacter,
    /// `=` where a data character is required.
    UnexpectedPadding,
    /// `=` in the third position of a quartet without one in the fourth.
    InvalidPadding,
    /// `=` in a quartet other than the last one.
    PaddingNotFinal,
}

/// The error returned for malformed base64 input.
#[derive(Debug, Clone, PartialEq, Eq)]
pub struct Base64DecodeError {
    pub failure: Base64DecodeFailure,
}

impl Base64DecodeError {
    fn new(failure: Base64DecodeFailure) -> (error: Self)
        ensures
            error.failure == failure,
    {
        Base64DecodeError { failure }
    }

    /// A human-readable description of the failure.
    pub fn message(&self) -> (message: &'static str)
        ensures
            message@ == failure_message(self.failure),
    {
        match self.failure {
            Base64DecodeFailure::LengthNotMultipleOfFour => "base64 length must be a multiple of 4",
            Base64DecodeFailure::InvalidCharacter => "invalid base64 character",
            Base64DecodeFailure::UnexpectedPadding => "unexpected base64 padding",
            Base64DecodeFailure::InvalidPadding => "invalid base64 padding",
            Base64DecodeFailure::PaddingNotFinal => "base64 padding must be in the final quartet",
        }
    }
}

/// The message that describes each failure.
pub open spec fn failure_message(failure: Base64DecodeFailure) -> Seq<char> {
    match failure {
        Base64DecodeFailure::LengthNotMultipleOfFour => "base64 length must be a multiple of 4"@,
        Base64DecodeFailure::InvalidCharacter => "invalid base64 character"@,
        Base64DecodeFailure::UnexpectedPadding => "unexpected base64 padding"@,
        Base64DecodeFailure::InvalidPadding => "invalid base64 padding"@,
        Base64DecodeFailure::PaddingNotFinal => "base64 padding must be in the final quartet"@,
    }
}

/// The byte that encodes the six-bit value `v`:
/// `A`..`Z`, `a`..`z`, `0`..`9`, `+`, `/`.
pub open spec fn base64_symbol(v: u8) -> u8 {
    if v < 26 {
        (0x41 + v) as u8
    } else if v < 52 {
        (0x61 + v - 26) as u8
    } else if v < 62 {
        (0x30 + v - 52) as u8
    } else if v == 62 {
        0x2b
    } else {
        0x2f
    }
}

/// The six-bit value a byte of the base64 alphabet stands for.
pub open spec fn base64_symbol_value(b: u8) -> Option<u8> {
    if 0x41 <= b <= 0x5a {
        Some((b - 0x41) as u8)
    } else if 0x61 <= b <= 0x7a {
        Some((b - 0x61 + 26) as u8)
    } else if 0x30 <= b <= 0x39 {
        Some((b - 0x30 + 52) as u8)
    } else if b == 0x2b {
        Some(62)
    } else if b == 0x2f {
        Some(63)
    } else {
        None
    }
}

/// The padding byte `=`.
pub open spec fn pad() -> u8 {
    0x3d
}

/// The four symbols that encode three bytes.
pub open spec fn encode_group(x: u8, y: u8, z: u8) -> Seq<u8> {
    seq![
        base64_symbol(x >> 2),
        base64_symbol(((x & 3) << 4) | (y >> 4)),
        base64_symbol(((y & 15) << 2) | (z >> 6)),
        base64_symbol(z & 63),
    ]
}

/// The base64 encoding of `b`, as bytes.
pub open spec fn base64_encode_spec(b: Seq<u8>) -> Seq<u8>
    decreases b.len(),
{
    if b.len() >= 3 {
        encode_group(b[0], b[1], b[2]) + base64_encode_spec(b.skip(3))
    } else if b.len() == 2 {
        seq![
            base64_symbol(b[0] >> 2),
            base64_symbol(((b[0] & 3) << 4) | (b[1] >> 4)),
            base64_symbol((b[1] & 15) << 2),
            pad(),
        ]
    } else if b.len() == 1 {
        seq![base64_symbol(b[0] >> 2), base64_symbol((b[0] & 3) << 4), pad(), pad()]
    } else {
        Seq::empty()
    }
}

/// ASCII bytes read as characters.
pub open spec fn ascii_chars(b: Seq<u8>) -> Seq<char> {
    b.map_values(|u: u8| u as char)
}

/// The base64 encoding of `b`, as characters.
pub open spec fn base64_encode_chars(b: Seq<u8>) -> Seq<char> {
    ascii_chars(base64_encode_spec(b))
}

fn symbol(v: u8) -> (b: u8)
    requires
        v < 64,
    ensures
        b == base64_symbol(v),
{
    if v < 26 {
        0x41 + v
    } else if v < 52 {
        0x61 + v - 26
    } else if v < 62 {
        0x30 + v - 52
    } else if v == 62 {
        0x2b
    } else {
        0x2f
    }
}

proof fn lemma_group_indices_small(x: u8, y: u8, z: u8)
    ensures
        x >> 2 < 64,
        ((x & 3) << 4) | (y >> 4) < 64,
        ((y & 15) << 2) | (z >> 6) < 64,
        z & 63 < 64,
        (x & 3) << 4 < 64,
        (y & 15) << 2 < 64,
{
    assert(x >> 2 < 64) by (bit_vector);
    assert(((x & 3) << 4) | (y >> 4) < 64) by (bit_vector);
    assert(((y & 15) << 2) | (z >> 6) < 64) by (bit_vector);
    assert(z & 63 < 64) by (bit_vector);
    assert((x & 3) << 4 < 64) by (bit_vector);
    assert((y & 15) << 2 < 64) by (bit_vector);
}

fn push_symbol(s: &mut String, v: u8)
    requires
        v < 64,
    ensures
        final(s)@ == old(s)@.push(base64_symbol(v) as char),
{
    let b = symbol(v);
    push_char(s, b as char);
}

/// Encodes bytes as base64.
pub fn encode_base64(bytes: &[u8]) -> (encoded: String)
    ensures
        encoded@ == base64_encode_chars(bytes@),
{
    let mut encoded = String::new();
    let mut i: usize = 0;
    let n = bytes.len();
    proof {
        assert(bytes@.skip(0) =~= bytes@);
        assert(ascii_chars(base64_encode_spec(bytes@)) =~= encoded@ + ascii_chars(
            base64_encode_spec(bytes@.skip(0)),
        ));
    }
    while n - i >= 3
        invariant
            i <= n == bytes@.len(),
            base64_encode_chars(bytes@) == encoded@ + ascii_chars(
                base64_encode_spec(bytes@.skip(i as int)),
            ),
        decreases n - i,
    {
        let x = bytes[i];
        let y = bytes[i + 1];
        let z = bytes[i + 2];
        let ghost tail = bytes@.skip(i as int);
        proof {
            lemma_group_indices_small(x, y, z);
            assert(tail[0] == x && tail[1] == y && tail[2] == z);
            assert(tail.skip(3) =~= bytes@.skip(i + 3));
            assert(ascii_chars(encode_group(x, y, z) + base64_encode_spec(tail.skip(3)))
                =~= ascii_chars(encode_group(x, y, z)) + ascii_chars(
                base64_encode_spec(tail.skip(3)),
            ));
        }
        let ghost before = encoded@;
        push_symbol(&mut encoded, x >> 2);
        push_symbol(&mut encoded, ((x & 3) << 4) | (y >> 4));
        push_symbol(&mut encoded, ((y & 15) << 2) | (z >> 6));
        push_symbol(&mut encoded, z & 63);
        proof {
            assert(encoded@ =~= before + ascii_chars(encode_group(x, y, z)));
        }
        i += 3;
    }
    let ghost tail = bytes@.skip(i as int);
    if n - i == 2 {
        let x = bytes[i];
        let y = bytes[i + 1];
        proof {
            lemma_group_indices_small(x, y, 0);
        }
        let ghost before = encoded@;
        push_symbol(&mut encoded, x >> 2);
        push_symbol(&mut encoded, ((x & 3) << 4) | (y >> 4));
        push_symbol(&mut encoded, (y & 15) << 2);
        push_char(&mut encoded, '=');
        proof {
            assert(encoded@ =~= before + ascii_chars(base64_encode_spec(tail)));
        }
    } else if n - i == 1 {
        let x = bytes[i];
        proof {
            lemma_group_indices_small(x, 0, 0);
        }
        let ghost before = encoded@;
        push_symbol(&mut encoded, x >> 2);
        push_symbol(&mut encoded, (x & 3) << 4);
        push_char(&mut encoded, '=');
        push_char(&mut encoded, '=');
        proof {
            assert(encoded@ =~= before + ascii_chars(base64_encode_spec(tail)));
        }
    } else {
        proof {
            assert(encoded@ =~= encoded@ + ascii_chars(base64_encode_spec(tail)));
        }
    }
    encoded
}


/// A data symbol: its six-bit value, or `UnexpectedPadding` for `=` and
/// `InvalidCharacter` for any other byte outside the alphabet.
pub open spec fn data_cell(b: u8) -> Result<u8, Base64DecodeFailure> {
    if b == pad() {
        Err(Base64DecodeFailure::UnexpectedPadding)
    } else {
        match base64_symbol_value(b) {
            Some(v) => Ok(v),
            None => Err(Base64DecodeFailure::InvalidCharacter),
        }
    }
}

/// A symbol that may be padding: `None` for `=`, else as `data_cell`.
pub open spec fn data_or_padding_cell(b: u8) -> Result<Option<u8>, Base64DecodeFailure> {
    if b == pad() {
        Ok(None)
    } else {
        match data_cell(b) {
            Ok(v) => Ok(Some(v)),
            Err(e) => Err(e),
        }
    }
}

/// The bytes that a quartet of six-bit values stands for.
pub open spec fn quartet_bytes(a: u8, b: u8, c: Option<u8>, d: Option<u8>) -> Seq<u8> {
    let first = seq![((a << 2) | (b >> 4)) as u8];
    match c {
        None => first,
        Some(c) => match d {
            None => first.push((((b & 15) << 4) | (c >> 2)) as u8),
            Some(d) => first.push((((b & 15) << 4) | (c >> 2)) as u8).push(
                (((c & 3) << 6) | d) as u8,
            ),
        },
    }
}

/// Decodes one quartet; `is_last` tells whether it is the final one, the
/// only one where padding is allowed. Failures are reported in the order
/// the symbols are examined.
pub open spec fn decode_quartet(q: Seq<u8>, is_last: bool) -> Result<Seq<u8>, Base64DecodeFailure> {
    match data_cell(q[0]) {
        Err(e) => Err(e),
        Ok(a) => match data_cell(q[1]) {
            Err(e) => Err(e),
            Ok(b) => match data_or_padding_cell(q[2]) {
                Err(e) => Err(e),
                Ok(c) => match data_or_padding_cell(q[3]) {
                    Err(e) => Err(e),
                    Ok(d) => if c is None && d is Some {
                        Err(Base64DecodeFailure::InvalidPadding)
                    } else if (c is None || d is None) && !is_last {
                        Err(Base64DecodeFailure::PaddingNotFinal)
                    } else {
                        Ok(quartet_bytes(a, b, c, d))
                    },
                },
            },
        },
    }
}

/// Decodes the first `n` quartets of `bytes`.
pub open spec fn decode_quartets(bytes: Seq<u8>, n: nat) -> Result<Seq<u8>, Base64DecodeFailure>
    decreases n,
{
    if n == 0 {
        Ok(Seq::empty())
    } else {
        match decode_quartets(bytes, (n - 1) as nat) {
            Err(e) => Err(e),
            Ok(prefix) => match decode_quartet(
                bytes.subrange(4 * (n - 1), (4 * n) as int),
                4 * n == bytes.len(),
            ) {
                Err(e) => Err(e),
                Ok(out) => Ok(prefix + out),
            },
        }
    }
}

/// The bytes that base64 text (given as its bytes) stands for, or the
/// first failure met when reading it.
pub open spec fn base64_decode_spec(bytes: Seq<u8>) -> Result<Seq<u8>, Base64DecodeFailure> {
    if bytes.len() % 4 != 0 {
        Err(Base64DecodeFailure::LengthNotMultipleOfFour)
    } else {
        decode_quartets(bytes, (bytes.len() / 4) as nat)
    }
}

fn decode_base64_value(byte: u8) -> (value: Result<u8, Base64DecodeError>)
    ensures
        match value {
            Ok(v) => data_cell(byte) == Ok::<u8, Base64DecodeFailure>(v),
            Err(e) => data_cell(byte) == Err::<u8, Base64DecodeFailure>(e.failure),
        },
{
    if 0x41 <= byte && byte <= 0x5a {
        Ok(byte - 0x41)
    } else if 0x61 <= byte && byte <= 0x7a {
        Ok(byte - 0x61 + 26)
    } else if 0x30 <= byte && byte <= 0x39 {
        Ok(byte - 0x30 + 52)
    } else if byte == 0x2b {
        Ok(62)
    } else if byte == 0x2f {
        Ok(63)
    } else if byte == 0x3d {
        Err(Base64DecodeError::new(Base64DecodeFailure::UnexpectedPadding))
    } else {
        Err(Base64DecodeError::new(Base64DecodeFailure::InvalidCharacter))
    }
}

fn decode_base64_value_or_padding(byte: u8) -> (cell: Result<Option<u8>, Base64DecodeError>)
    ensures
        match cell {
            Ok(c) => data_or_padding_cell(byte) == Ok::<Option<u8>, Base64DecodeFailure>(c),
            Err(e) => data_or_padding_cell(byte) == Err::<Option<u8>, Base64DecodeFailure>(
                e.failure,
            ),
        },
{
    if byte == 0x3d {
        return Ok(None);
    }
    match decode_base64_value(byte) {
        Ok(v) => Ok(Some(v)),
        Err(e) => Err(e),
    }
}

/// Decodes one quartet of `bytes`, starting at `start`.
fn decode_one_quartet(bytes: &[u8], start: usize, is_last: bool, decoded: &mut Vec<u8>) -> (result: Result<(), Base64DecodeError>)
    requires
        start + 4 <= bytes@.len(),
    ensures
        match decode_quartet(bytes@.subrange(start as int, start + 4), is_last) {
            Ok(out) => result is Ok && final(decoded)@ == old(decoded)@ + out,
            Err(e) => result matches Err(err) && err.failure == e,
        },
{
    let ghost q = bytes@.subrange(start as int, start + 4);
    assert(q[0] == bytes@[start as int] && q[1] == bytes@[start + 1] && q[2] == bytes@[start + 2]
        && q[3] == bytes@[start + 3]);
    let a = match decode_base64_value(bytes[start]) {
        Ok(v) => v,
        Err(e) => return Err(e),
    };
    let b = match decode_base64_value(bytes[start + 1]) {
        Ok(v) => v,
        Err(e) => return Err(e),
    };
    let c = match decode_base64_value_or_padding(bytes[start + 2]) {
        Ok(v) => v,
        Err(e) => return Err(e),
    };
    let d = match decode_base64_value_or_padding(bytes[start + 3]) {
        Ok(v) => v,
        Err(e) => return Err(e),
    };
    if c.is_none() && d.is_some() {
        return Err(Base64DecodeError::new(Base64DecodeFailure::InvalidPadding));
    }
    if (c.is_none() || d.is_none()) && !is_last {
        return Err(Base64DecodeError::new(Base64DecodeFailure::PaddingNotFinal));
    }
    let ghost before = decoded@;
    decoded.push((a << 2) | (b >> 4));
    match c {
        None => {},
        Some(c) => {
            decoded.push(((b & 0x0f) << 4) | (c >> 2));
            match d {
                None => {},
                Some(d) => {
                    decoded.push(((c & 0x03) << 6) | d);
                },
            }
        },
    }
    assert(decoded@ =~= before + quartet_bytes(a, b, c, d));
    Ok(())
}

/// A failure in the first `n` quartets is the failure of any longer prefix.
proof fn lemma_decode_quartets_error_persists(bytes: Seq<u8>, n: nat, m: nat)
    requires
        n <= m,
        decode_quartets(bytes, n) is Err,
    ensures
        decode_quartets(bytes, m) == decode_quartets(bytes, n),
    decreases m - n,
{
    if n < m {
        lemma_decode_quartets_error_persists(bytes, n, (m - 1) as nat);
    }
}

/// Decodes base64 text.
pub fn decode_base64(encoded: &str) -> (result: Result<Vec<u8>, Base64DecodeError>)
    ensures
        match base64_decode_spec(encode_utf8(encoded@)) {
            Ok(bytes) => result matches Ok(v) && v@ == bytes,
            Err(failure) => result matches Err(e) && e.failure == failure,
        },
{
    let bytes = encoded.as_bytes();
    let n = bytes.len();
    if n % 4 != 0 {
        return Err(Base64DecodeError::new(Base64DecodeFailure::LengthNotMultipleOfFour));
    }
    let chunk_count = n / 4;
    let mut decoded: Vec<u8> = Vec::with_capacity(chunk_count * 3);
    let mut index: usize = 0;
    while index < chunk_count
        invariant
            bytes@ == encode_utf8(encoded@),
            n == bytes@.len(),
            n % 4 == 0,
            chunk_count == n / 4,
            index <= chunk_count,
            decode_quartets(bytes@, index as nat) == Ok::<Seq<u8>, Base64DecodeFailure>(decoded@),
        decreases chunk_count - index,
    {
        let is_last = index + 1 == chunk_count;
        let start = index * 4;
        let r = decode_one_quartet(bytes, start, is_last, &mut decoded);
        proof {
            assert(4 * (index + 1) == bytes@.len() <==> is_last);
        }
        match r {
            Ok(()) => {},
            Err(e) => {
                proof {
                    assert(decode_quartets(bytes@, (index + 1) as nat) == Err::<
                        Seq<u8>,
                        Base64DecodeFailure,
                    >(e.failure));
                    lemma_decode_quartets_error_persists(
                        bytes@,
                        (index + 1) as nat,
                        chunk_count as nat,
                    );
                }
                return Err(e);
            },
        }
        index += 1;
    }
    Ok(decoded)
}

// ---------------------------------------------------------------------------
// Round trip

proof fn lemma_symbol_value(v: u8)
    requires
        v < 64,
    ensures
        base64_symbol_value(base64_symbol(v)) == Some(v),
        base64_symbol(v) != pad(),
        base64_symbol(v) < 0x80,
{
}

proof fn lemma_group_round_trip(x: u8, y: u8, z: u8)
    ensures
        (((x >> 2) << 2) | ((((x & 3) << 4) | (y >> 4)) >> 4)) as u8 == x,
        ((((((x & 3) << 4) | (y >> 4)) & 15) << 4) | ((((y & 15) << 2) | (z >> 6)) >> 2)) as u8
            == y,
        ((((((y & 15) << 2) | (z >> 6)) & 3) << 6) | (z & 63)) as u8 == z,
        ((((((x & 3) << 4) | (y >> 4)) & 15) << 4) | (((y & 15) << 2) >> 2)) as u8 == y,
        (((x >> 2) << 2) | (((x & 3) << 4) >> 4)) as u8 == x,
{
    assert((((x >> 2) << 2) | ((((x & 3) << 4) | (y >> 4)) >> 4)) as u8 == x) by (bit_vector);
    assert(((((((x & 3) << 4) | (y >> 4)) & 15) << 4) | ((((y & 15) << 2) | (z >> 6)) >> 2)) as u8
        == y) by (bit_vector);
    assert(((((((y & 15) << 2) | (z >> 6)) & 3) << 6) | (z & 63)) as u8 == z) by (bit_vector);
    assert(((((((x & 3) << 4) | (y >> 4)) & 15) << 4) | (((y & 15) << 2) >> 2)) as u8 == y)
        by (bit_vector);
    assert((((x >> 2) << 2) | (((x & 3) << 4) >> 4)) as u8 == x) by (bit_vector);
}

/// The encoding is four symbols per started group of three bytes.
pub proof fn lemma_encode_length(b: Seq<u8>)
    ensures
        base64_encode_spec(b).len() == 4 * ((b.len() + 2) / 3),
    decreases b.len(),
{
    if b.len() >= 3 {
        lemma_encode_length(b.skip(3));
    }
}

proof fn lemma_encode_skip(b: Seq<u8>, j: nat)
    requires
        3 * j <= b.len(),
    ensures
        base64_encode_spec(b).skip(4 * j as int) == base64_encode_spec(b.skip(3 * j as int)),
    decreases j,
{
    if j == 0 {
        assert(b.skip(0) =~= b);
        assert(base64_encode_spec(b).skip(0) =~= base64_encode_spec(b));
    } else {
        lemma_encode_skip(b.skip(3), (j - 1) as nat);
        assert(b.skip(3).skip(3 * (j - 1)) =~= b.skip(3 * j as int));
        let g = encode_group(b[0], b[1], b[2]);
        assert(base64_encode_spec(b) == g + base64_encode_spec(b.skip(3)));
        assert(g.len() == 4);
        lemma_encode_length(b.skip(3));
        assert(4 * (j - 1) <= base64_encode_spec(b.skip(3)).len());
        assert((g + base64_encode_spec(b.skip(3))).skip(4 * j as int) =~= base64_encode_spec(b.skip(3)).skip(
            4 * (j - 1),
        ));
    }
}

proof fn lemma_decode_first_quartet(c: Seq<u8>, is_last: bool)
    requires
        c.len() >= 3 || (c.len() >= 1 && is_last),
    ensures
        decode_quartet(base64_encode_spec(c).take(4), is_last) == Ok::<
            Seq<u8>,
            Base64DecodeFailure,
        >(if c.len() >= 3 {
            c.take(3)
        } else {
            c
        }),
{
    let q = base64_encode_spec(c).take(4);
    if c.len() >= 3 {
        let (x, y, z) = (c[0], c[1], c[2]);
        lemma_group_indices_small(x, y, z);
        lemma_group_round_trip(x, y, z);
        lemma_symbol_value(x >> 2);
        lemma_symbol_value(((x & 3) << 4) | (y >> 4));
        lemma_symbol_value(((y & 15) << 2) | (z >> 6));
        lemma_symbol_value(z & 63);
        assert(q =~= encode_group(x, y, z));
        assert(quartet_bytes(
            x >> 2,
            ((x & 3) << 4) | (y >> 4),
            Some(((y & 15) << 2) | (z >> 6)),
            Some(z & 63),
        ) =~= c.take(3));
    } else if c.len() == 2 {
        let (x, y) = (c[0], c[1]);
        lemma_group_indices_small(x, y, 0);
        lemma_group_round_trip(x, y, 0);
        lemma_symbol_value(x >> 2);
        lemma_symbol_value(((x & 3) << 4) | (y >> 4));
        lemma_symbol_value((y & 15) << 2);
        assert(quartet_bytes(x >> 2, ((x & 3) << 4) | (y >> 4), Some((y & 15) << 2), None) =~= c);
    } else {
        let x = c[0];
        lemma_group_indices_small(x, 0, 0);
        lemma_group_round_trip(x, 0, 0);
        lemma_symbol_value(x >> 2);
        lemma_symbol_value((x & 3) << 4);
        assert(quartet_bytes(x >> 2, (x & 3) << 4, None, None) =~= c);
    }
}

proof fn lemma_decode_full_groups(b: Seq<u8>, m: nat)
    requires
        3 * m <= b.len(),
    ensures
        decode_quartets(base64_encode_spec(b), m) == Ok::<Seq<u8>, Base64DecodeFailure>(
            b.take(3 * m as int),
        ),
    decreases m,
{
    let e = base64_encode_spec(b);
    lemma_encode_length(b);
    if m == 0 {
        assert(b.take(0) =~= Seq::<u8>::empty());
    } else {
        let j = (m - 1) as nat;
        lemma_decode_full_groups(b, j);
        lemma_encode_skip(b, j);
        let c = b.skip(3 * j as int);
        assert(e.subrange(4 * j as int, 4 * j as int + 4) =~= base64_encode_spec(c).take(4));
        lemma_decode_first_quartet(c, 4 * m == e.len());
        assert(b.take(3 * j as int) + c.take(3) =~= b.take(3 * m as int));
    }
}

/// Round trip: decoding the base64 encoding of any bytes gives them back.
pub proof fn lemma_base64_round_trip(b: Seq<u8>)
    ensures
        base64_decode_spec(base64_encode_spec(b)) == Ok::<Seq<u8>, Base64DecodeFailure>(b),
        encode_utf8(base64_encode_chars(b)) == base64_encode_spec(b),
{
    let e = base64_encode_spec(b);
    lemma_encode_length(b);
    let k = (b.len() + 2) / 3;
    assert(e.len() % 4 == 0);
    assert(e.len() / 4 == k);
    if b.len() % 3 == 0 {
        lemma_decode_full_groups(b, k as nat);
        assert(b.take(3 * k as int) =~= b);
    } else {
        let j = (k - 1) as nat;
        lemma_decode_full_groups(b, j);
        lemma_encode_skip(b, j);
        let c = b.skip(3 * j as int);
        assert(e.subrange(4 * j as int, 4 * j as int + 4) =~= base64_encode_spec(c).take(4));
        lemma_decode_first_quartet(c, true);
        assert(b.take(3 * j as int) + c =~= b);
    }
    lemma_encode_ascii(b);
    let chars = base64_encode_chars(b);
    vstd::utf8::is_ascii_chars_encode_utf8(chars);
    assert(encode_utf8(chars) =~= e);
}

/// Every symbol of an encoding is an ASCII byte.
proof fn lemma_encode_ascii(b: Seq<u8>)
    ensures
        forall|i: int| 0 <= i < base64_encode_spec(b).len() ==> #[trigger] base64_encode_spec(b)[i] < 0x80,
        vstd::utf8::is_ascii_chars(base64_encode_chars(b)),
    decreases b.len(),
{
    let e = base64_encode_spec(b);
    if b.len() >= 3 {
        lemma_encode_ascii(b.skip(3));
        let (x, y, z) = (b[0], b[1], b[2]);
        lemma_group_indices_small(x, y, z);
        lemma_symbol_value(x >> 2);
        lemma_symbol_value(((x & 3) << 4) | (y >> 4));
        lemma_symbol_value(((y & 15) << 2) | (z >> 6));
        lemma_symbol_value(z & 63);
        assert forall|i: int| 0 <= i < e.len() implies #[trigger] e[i] < 0x80 by {
            if i >= 4 {
                assert(e[i] == base64_encode_spec(b.skip(3))[i - 4]);
            }
        }
    } else if b.len() == 2 {
        lemma_group_indices_small(b[0], b[1], 0);
        lemma_symbol_value(b[0] >> 2);
        lemma_symbol_value(((b[0] & 3) << 4) | (b[1] >> 4));
        lemma_symbol_value((b[1] & 15) << 2);
    } else if b.len() == 1 {
        lemma_group_indices_small(b[0], 0, 0);
        lemma_symbol_value(b[0] >> 2);
        lemma_symbol_value((b[0] & 3) << 4);
    }
    let chars = base64_encode_chars(b);
    assert forall|i: int| 0 <= i < chars.len() implies '\0' <= #[trigger] chars[i] <= '\u{7f}' by {
        assert(chars[i] == e[i] as char);
    }
}

} // verus!
