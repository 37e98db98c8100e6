//! Incremental parser for OSC 133 shell-integration markers.
//!
//! Bytes are pushed as they arrive from the shell. The parser splits them
//! into plain output and recognised OSC 133 events, keeping an unfinished
//! escape sequence buffered until the rest of it arrives.

use vstd::prelude::*;
use vstd::utf8::{valid_utf8, decode_utf8};
use crate::text::{decimal_bytes, lemma_decimal_bytes_digits, lemma_parse_decimal_bytes, parse_i32, parse_i32_spec};

verus! {

/// The escape byte that starts an OSC introducer or an ST terminator.
pub const ESC: u8 = 0x1b;

/// The BEL byte that terminates an OSC sequence.
pub const BEL: u8 = 0x07;

/// The most bytes of an unfinished OSC sequence that the parser keeps.
pub const MAX_BUFFER_LEN: usize = 64 * 1024;

/// A shell-integration event carried by an OSC 133 marker.
#[derive(Debug, Clone, PartialEq, Eq)]
pub enum Osc133Event {
    PromptStart,
    PromptEnd,
    CommandStart { command: Option<String> },
    CommandFinished { status: Option<i32> },
}

/// One item of the parser's record stream: plain output or an event.
#[derive(Debug, Clone, PartialEq, Eq)]
pub enum Osc133Record {
    Output(Vec<u8>),
    Event(Osc133Event),
}

/// The mathematical value of an [`Osc133Event`].
pub ghost enum Osc133EventModel {
    PromptStart,
    PromptEnd,
    CommandStart { command: Option<Seq<char>> },
    CommandFinished { status: Option<i32> },
}

/// The mathematical value of an [`Osc133Record`].
pub ghost enum Osc133RecordModel {
    Output(Seq<u8>),
    Event(Osc133EventModel),
}

/// A record of the stream together with the input bytes it was made from.
pub ghost struct Osc133Piece {
    pub record: Osc133RecordModel,
    pub source: Seq<u8>,
}

/// The view of an optional `String`.
pub open spec fn option_string_view(s: Option<String>) -> Option<Seq<char>> {
    match s {
        Some(s) => Some(s@),
        None => None,
    }
}

impl View for Osc133Event {
    type V = Osc133EventModel;

    open spec fn view(&self) -> Osc133EventModel {
        match self {
            Osc133Event::PromptStart => Osc133EventModel::PromptStart,
            Osc133Event::PromptEnd => Osc133EventModel::PromptEnd,
            Osc133Event::CommandStart { command } => Osc133EventModel::CommandStart {
                command: option_string_view(*command),
            },
            Osc133Event::CommandFinished { status } => Osc133EventModel::CommandFinished {
                status: *status,
            },
        }
    }
}

impl View for Osc133Record {
    type V = Osc133RecordModel;

    open spec fn view(&self) -> Osc133RecordModel {
        match self {
            Osc133Record::Output(bytes) => Osc133RecordModel::Output(bytes@),
            Osc133Record::Event(event) => Osc133RecordModel::Event(event@),
        }
    }
}

/// The views of a sequence of records.
pub open spec fn record_models(records: Seq<Osc133Record>) -> Seq<Osc133RecordModel> {
    records.map_values(|r: Osc133Record| r@)
}

/// The records of a sequence of pieces.
pub open spec fn piece_records(pieces: Seq<Osc133Piece>) -> Seq<Osc133RecordModel> {
    pieces.map_values(|p: Osc133Piece| p.record)
}

// ---------------------------------------------------------------------------
// Locating introducers and terminators

/// `ESC ]` starts at position `i` of `b`.
pub open spec fn is_introducer_at(b: Seq<u8>, i: int) -> bool {
    0 <= i && i + 1 < b.len() && b[i] == ESC && b[i + 1] == 0x5d
}

/// The first position at or after `i` where an `ESC ]` introducer starts.
pub open spec fn find_introducer_from(b: Seq<u8>, i: int) -> Option<int>
    decreases b.len() - i,
{
    if i < 0 || i + 1 >= b.len() {
        None
    } else if is_introducer_at(b, i) {
        Some(i)
    } else {
        find_introducer_from(b, i + 1)
    }
}

/// The length of the terminator (BEL, or the ST pair `ESC \`) that starts at
/// position `i` of `b`, if one does.
pub open spec fn terminator_len_at(b: Seq<u8>, i: int) -> Option<int> {
    if 0 <= i < b.len() && b[i] == BEL {
        Some(1)
    } else if 0 <= i && i + 1 < b.len() && b[i] == ESC && b[i + 1] == 0x5c {
        Some(2)
    } else {
        None
    }
}

/// The first terminator at or after position `i`: its position and length.
pub open spec fn find_terminator_from(b: Seq<u8>, i: int) -> Option<(int, int)>
    decreases b.len() - i,
{
    if i < 0 || i >= b.len() {
        None
    } else {
        match terminator_len_at(b, i) {
            Some(len) => Some((i, len)),
            None => find_terminator_from(b, i + 1),
        }
    }
}

/// A terminator found from `i` lies at or after `i` and within `b`.
pub proof fn lemma_find_terminator_bounds(b: Seq<u8>, i: int)
    ensures
        find_terminator_from(b, i) matches Some((j, len)) ==> {
            &&& i <= j
            &&& 1 <= len <= 2
            &&& j + len <= b.len()
            &&& terminator_len_at(b, j) == Some(len)
        },
    decreases b.len() - i,
{
    if i >= 0 && i < b.len() && terminator_len_at(b, i) is None {
        lemma_find_terminator_bounds(b, i + 1);
    }
}

/// An introducer found from `i` lies at or after `i` and is a real one.
pub proof fn lemma_find_introducer_bounds(b: Seq<u8>, i: int)
    ensures
        find_introducer_from(b, i) matches Some(j) ==> i <= j && is_introducer_at(b, j),
    decreases b.len() - i,
{
    if i >= 0 && i + 1 < b.len() && !is_introducer_at(b, i) {
        lemma_find_introducer_bounds(b, i + 1);
    }
}

/// The position of the first `ESC ]` in `haystack`.
fn find_introducer(haystack: &[u8]) -> (found: Option<usize>)
    ensures
        match found {
            Some(i) => find_introducer_from(haystack@, 0) == Some(i as int),
            None => find_introducer_from(haystack@, 0) is None,
        },
{
    let mut i: usize = 0;
    while i < haystack.len()
        invariant
            find_introducer_from(haystack@, 0) == find_introducer_from(haystack@, i as int),
        decreases haystack@.len() - i,
    {
        if i + 1 < haystack.len() && haystack[i] == ESC && haystack[i + 1] == 0x5d {
            return Some(i);
        }
        i += 1;
    }
    None
}

/// The first terminator at or after `start`: its position and length.
fn find_terminator(buffer: &[u8], start: usize) -> (found: Option<(usize, usize)>)
    ensures
        match found {
            Some((j, len)) => find_terminator_from(buffer@, start as int) == Some(
                (j as int, len as int),
            ),
            None => find_terminator_from(buffer@, start as int) is None,
        },
{
    let mut index: usize = start;
    while index < buffer.len()
        invariant
            start <= index,
            find_terminator_from(buffer@, start as int) == find_terminator_from(
                buffer@,
                index as int,
            ),
        decreases buffer@.len() - index,
    {
        if buffer[index] == BEL {
            return Some((index, 1));
        }
        if index + 1 < buffer.len() && buffer[index] == ESC && buffer[index + 1] == 0x5c {
            return Some((index, 2));
        }
        index += 1;
    }
    None
}


// ---------------------------------------------------------------------------
// Payloads

/// The value of an ASCII hexadecimal digit, if `byte` is one.
pub open spec fn hex_digit_value(byte: u8) -> Option<u8> {
    if 0x30 <= byte <= 0x39 {
        Some((byte - 0x30) as u8)
    } else if 0x61 <= byte <= 0x66 {
        Some((byte - 0x61 + 10) as u8)
    } else if 0x41 <= byte <= 0x46 {
        Some((byte - 0x41 + 10) as u8)
    } else {
        None
    }
}

fn hex_value(byte: u8) -> (value: Option<u8>)
    ensures
        value == hex_digit_value(byte),
{
    if 0x30 <= byte && byte <= 0x39 {
        Some(byte - 0x30)
    } else if 0x61 <= byte && byte <= 0x66 {
        Some(byte - 0x61 + 10)
    } else if 0x41 <= byte && byte <= 0x46 {
        Some(byte - 0x41 + 10)
    } else {
        None
    }
}

/// Percent-decoding of `b`: `%` followed by two hexadecimal digits stands for
/// the byte they spell; any other byte stands for itself. `None` when a `%`
/// is not followed by two hexadecimal digits.
pub open spec fn percent_decode_spec(b: Seq<u8>) -> Option<Seq<u8>>
    decreases b.len(),
{
    if b.len() == 0 {
        Some(Seq::empty())
    } else if b[0] == 0x25 {
        if b.len() >= 3 && hex_digit_value(b[1]) is Some && hex_digit_value(b[2]) is Some {
            match percent_decode_spec(b.skip(3)) {
                Some(rest) => Some(
                    seq![(hex_digit_value(b[1])->0 * 16 + hex_digit_value(b[2])->0) as u8] + rest,
                ),
                None => None,
            }
        } else {
            None
        }
    } else {
        match percent_decode_spec(b.skip(1)) {
            Some(rest) => Some(seq![b[0]] + rest),
            None => None,
        }
    }
}

/// The characters that a byte string decodes to, if it is valid UTF-8.
pub open spec fn utf8_chars(b: Seq<u8>) -> Option<Seq<char>> {
    if valid_utf8(b) {
        Some(decode_utf8(b))
    } else {
        None
    }
}

/// Converts bytes to a `String` (`String::from_utf8(bytes).ok()`).
/// Trusted: the result is present exactly when the bytes are valid UTF-8,
/// and then holds the characters they encode.
#[verifier::external_body]
fn string_from_utf8(bytes: Vec<u8>) -> (s: Option<String>)
    ensures
        option_string_view(s) == utf8_chars(bytes@),
{
    String::from_utf8(bytes).ok()
}

/// Percent-decodes `bytes` and reads the result as UTF-8.
fn percent_decode_utf8(bytes: &[u8]) -> (decoded: Option<String>)
    ensures
        option_string_view(decoded) == match percent_decode_spec(bytes@) {
            Some(d) => utf8_chars(d),
            None => None,
        },
{
    let mut decoded: Vec<u8> = Vec::new();
    let mut index: usize = 0;
    proof {
        assert(bytes@.skip(0) =~= bytes@);
        assert forall|r: Seq<u8>| true implies decoded@ + r =~= r by {}
    }
    while index < bytes.len()
        invariant
            index <= bytes@.len(),
            percent_decode_spec(bytes@) == match percent_decode_spec(bytes@.skip(index as int)) {
                Some(rest) => Some(decoded@ + rest),
                None => None,
            },
        decreases bytes@.len() - index,
    {
        let ghost tail = bytes@.skip(index as int);
        if bytes[index] == 0x25 {
            if bytes.len() - index < 3 {
                return None;
            }
            let high = hex_value(bytes[index + 1]);
            let low = hex_value(bytes[index + 2]);
            match (high, low) {
                (Some(high), Some(low)) => {
                    proof {
                        assert(tail.skip(3) =~= bytes@.skip(index + 3));
                    }
                    decoded.push(high * 16 + low);
                    index += 3;
                    proof {
                        assert forall|r: Seq<u8>| true implies (decoded@.drop_last() + (seq![decoded@.last()] + r)) =~= decoded@ + r by {}
                    }
                },
                _ => {
                    return None;
                },
            }
        } else {
            proof {
                assert(tail.skip(1) =~= bytes@.skip(index + 1));
            }
            decoded.push(bytes[index]);
            index += 1;
            proof {
                assert forall|r: Seq<u8>| true implies (decoded@.drop_last() + (seq![decoded@.last()] + r)) =~= decoded@ + r by {}
            }
        }
    }
    proof {
        assert(bytes@.skip(index as int) =~= Seq::<u8>::empty());
        assert(decoded@ + Seq::<u8>::empty() =~= decoded@);
    }
    string_from_utf8(decoded)
}


/// The end of the `;`-separated segment of `s` that starts at `start`: the
/// position of the next `;`, or the length of `s`.
pub open spec fn segment_end(s: Seq<u8>, start: int) -> int
    decreases s.len() - start,
{
    if start < 0 || start >= s.len() {
        s.len() as int
    } else if s[start] == 0x3b {
        start
    } else {
        segment_end(s, start + 1)
    }
}

/// A segment end lies between its start and the end of `s`.
pub proof fn lemma_segment_end_bounds(s: Seq<u8>, start: int)
    requires
        0 <= start <= s.len(),
    ensures
        start <= segment_end(s, start) <= s.len(),
        segment_end(s, start) < s.len() ==> s[segment_end(s, start)] == 0x3b,
        forall|k: int| start <= k < segment_end(s, start) ==> s[k] != 0x3b,
    decreases s.len() - start,
{
    if start < s.len() && s[start] != 0x3b {
        lemma_segment_end_bounds(s, start + 1);
    }
}

/// The key of the command-line parameter: `cmdline_url=`.
pub open spec fn cmdline_url_key() -> Seq<u8> {
    seq![0x63u8, 0x6d, 0x64, 0x6c, 0x69, 0x6e, 0x65, 0x5f, 0x75, 0x72, 0x6c, 0x3d]
}

/// `s` begins with `prefix`.
pub open spec fn has_prefix(s: Seq<u8>, prefix: Seq<u8>) -> bool {
    prefix.len() <= s.len() && s.take(prefix.len() as int) == prefix
}

/// The value of the first `;`-separated parameter, from the segment that
/// starts at `start` on, that begins with `cmdline_url=`.
pub open spec fn find_cmdline_param_from(s: Seq<u8>, start: int) -> Option<Seq<u8>>
    decreases s.len() - start,
{
    if start < 0 || start > s.len() {
        None
    } else {
        let end = segment_end(s, start);
        let segment = s.subrange(start, end);
        if has_prefix(segment, cmdline_url_key()) {
            Some(segment.skip(12))
        } else if end >= s.len() {
            None
        } else {
            proof {
                lemma_segment_end_bounds(s, start);
            }
            find_cmdline_param_from(s, end + 1)
        }
    }
}

/// The command line carried by the parameters of an extended `C` marker:
/// the first `cmdline_url=` parameter, percent-decoded, read as UTF-8, and
/// only when not empty.
pub open spec fn parse_cmdline_url_spec(params: Seq<u8>) -> Option<Seq<char>> {
    match find_cmdline_param_from(params, 0) {
        Some(value) => match percent_decode_spec(value) {
            Some(decoded) => match utf8_chars(decoded) {
                Some(command) => if command.len() > 0 {
                    Some(command)
                } else {
                    None
                },
                None => None,
            },
            None => None,
        },
        None => None,
    }
}

fn segment_end_exec(s: &[u8], start: usize) -> (end: usize)
    requires
        start <= s@.len(),
    ensures
        end as int == segment_end(s@, start as int),
{
    let mut i = start;
    while i < s.len() && s[i] != 0x3b
        invariant
            start <= i <= s@.len(),
            segment_end(s@, start as int) == segment_end(s@, i as int),
        decreases s@.len() - i,
    {
        i += 1;
    }
    i
}

fn starts_with_cmdline_key(s: &[u8], start: usize, end: usize) -> (b: bool)
    requires
        start <= end <= s@.len(),
    ensures
        b == has_prefix(s@.subrange(start as int, end as int), cmdline_url_key()),
{
    let key: [u8; 12] = [0x63, 0x6d, 0x64, 0x6c, 0x69, 0x6e, 0x65, 0x5f, 0x75, 0x72, 0x6c, 0x3d];
    assert(key@ =~= cmdline_url_key());
    if end - start < 12 {
        return false;
    }
    let ghost segment = s@.subrange(start as int, end as int);
    let mut k: usize = 0;
    while k < 12
        invariant
            k <= 12,
            start <= end <= s@.len(),
            end - start >= 12,
            key@ == cmdline_url_key(),
            segment == s@.subrange(start as int, end as int),
            forall|m: int| 0 <= m < k ==> segment[m] == key@[m],
        decreases 12 - k,
    {
        if s[start + k] != key[k] {
            assert(segment.take(12)[k as int] != cmdline_url_key()[k as int]);
            return false;
        }
        k += 1;
    }
    assert(segment.take(12) =~= cmdline_url_key());
    true
}

/// The command line carried by the parameters of an extended `C` marker.
fn parse_cmdline_url(params: &[u8]) -> (command: Option<String>)
    ensures
        option_string_view(command) == parse_cmdline_url_spec(params@),
{
    let mut start: usize = 0;
    loop
        invariant
            start <= params@.len(),
            find_cmdline_param_from(params@, 0) == find_cmdline_param_from(params@, start as int),
        decreases params@.len() - start,
    {
        let end = segment_end_exec(params, start);
        proof {
            lemma_segment_end_bounds(params@, start as int);
        }
        if starts_with_cmdline_key(params, start, end) {
            let value = vstd::slice::slice_subrange(params, start + 12, end);
            proof {
                assert(value@ =~= params@.subrange(start as int, end as int).skip(12));
            }
            let decoded = percent_decode_utf8(value);
            return match decoded {
                Some(command) => {
                    if command.as_str().is_empty() {
                        None
                    } else {
                        Some(command)
                    }
                },
                None => None,
            };
        }
        if end >= params.len() {
            return None;
        }
        start = end + 1;
    }
}

/// The status carried by a `D;` marker: with extended markers only the
/// first `;`-separated parameter counts; it must be a decimal `i32`.
pub open spec fn parse_status_spec(params: Seq<u8>, parse_extended_markers: bool) -> Option<i32> {
    if parse_extended_markers {
        parse_i32_spec(params.take(segment_end(params, 0)))
    } else {
        parse_i32_spec(params)
    }
}

fn parse_status(params: &[u8], parse_extended_markers: bool) -> (status: Option<i32>)
    ensures
        status == parse_status_spec(params@, parse_extended_markers),
{
    if parse_extended_markers {
        let end = segment_end_exec(params, 0);
        proof {
            lemma_segment_end_bounds(params@, 0);
        }
        let first = vstd::slice::slice_subrange(params, 0, end);
        assert(first@ =~= params@.take(segment_end(params@, 0)));
        parse_i32(first)
    } else {
        parse_i32(params)
    }
}


/// The marker is exactly the single letter `letter`.
pub open spec fn is_bare_marker(m: Seq<u8>, letter: u8) -> bool {
    m.len() == 1 && m[0] == letter
}

/// The marker is the letter `letter` followed by `;` and parameters.
pub open spec fn is_marker_with_params(m: Seq<u8>, letter: u8) -> bool {
    m.len() >= 2 && m[0] == letter && m[1] == 0x3b
}

/// The payload begins with `133;`.
pub open spec fn is_osc133_payload(payload: Seq<u8>) -> bool {
    payload.len() >= 4 && payload[0] == 0x31 && payload[1] == 0x33 && payload[2] == 0x33
        && payload[3] == 0x3b
}

/// The event that the payload of an OSC sequence (the bytes between `ESC ]`
/// and the terminator) stands for. `A`, `B`, `C` and `D` mark prompt start,
/// prompt end, command start and command finished; `D;<status>` carries an
/// exit status. With extended markers, `A`, `B` and `C` may carry
/// parameters, and `C` may carry the command line.
pub open spec fn parse_payload_spec(payload: Seq<u8>, parse_extended_markers: bool) -> Option<
    Osc133EventModel,
> {
    if !is_osc133_payload(payload) {
        None
    } else {
        let m = payload.skip(4);
        if parse_extended_markers && is_marker_with_params(m, 0x41) {
            Some(Osc133EventModel::PromptStart)
        } else if is_bare_marker(m, 0x41) {
            Some(Osc133EventModel::PromptStart)
        } else if parse_extended_markers && is_marker_with_params(m, 0x42) {
            Some(Osc133EventModel::PromptEnd)
        } else if is_bare_marker(m, 0x42) {
            Some(Osc133EventModel::PromptEnd)
        } else if parse_extended_markers && is_marker_with_params(m, 0x43) {
            Some(Osc133EventModel::CommandStart { command: parse_cmdline_url_spec(m.skip(2)) })
        } else if is_bare_marker(m, 0x43) {
            Some(Osc133EventModel::CommandStart { command: None })
        } else if is_bare_marker(m, 0x44) {
            Some(Osc133EventModel::CommandFinished { status: None })
        } else if is_marker_with_params(m, 0x44) {
            Some(
                Osc133EventModel::CommandFinished {
                    status: parse_status_spec(m.skip(2), parse_extended_markers),
                },
            )
        } else {
            None
        }
    }
}

/// The view of an optional event.
pub open spec fn option_event_view(e: Option<Osc133Event>) -> Option<Osc133EventModel> {
    match e {
        Some(e) => Some(e@),
        None => None,
    }
}

fn parse_payload(payload: &[u8], parse_extended_markers: bool) -> (event: Option<Osc133Event>)
    ensures
        option_event_view(event) == parse_payload_spec(payload@, parse_extended_markers),
{
    if !(payload.len() >= 4 && payload[0] == 0x31 && payload[1] == 0x33 && payload[2] == 0x33
        && payload[3] == 0x3b) {
        return None;
    }
    let marker = vstd::slice::slice_subrange(payload, 4, payload.len());
    assert(marker@ =~= payload@.skip(4));
    let n = marker.len();
    let with_params = n >= 2 && marker[1] == 0x3b;
    let letter: u8 = if n >= 1 { marker[0] } else { 0 };
    if parse_extended_markers && with_params && letter == 0x41 {
        Some(Osc133Event::PromptStart)
    } else if n == 1 && letter == 0x41 {
        Some(Osc133Event::PromptStart)
    } else if parse_extended_markers && with_params && letter == 0x42 {
        Some(Osc133Event::PromptEnd)
    } else if n == 1 && letter == 0x42 {
        Some(Osc133Event::PromptEnd)
    } else if parse_extended_markers && with_params && letter == 0x43 {
        let params = vstd::slice::slice_subrange(marker, 2, n);
        assert(params@ =~= marker@.skip(2));
        Some(Osc133Event::CommandStart { command: parse_cmdline_url(params) })
    } else if n == 1 && letter == 0x43 {
        Some(Osc133Event::CommandStart { command: None })
    } else if n == 1 && letter == 0x44 {
        Some(Osc133Event::CommandFinished { status: None })
    } else if with_params && letter == 0x44 {
        let params = vstd::slice::slice_subrange(marker, 2, n);
        assert(params@ =~= marker@.skip(2));
        Some(Osc133Event::CommandFinished { status: parse_status(params, parse_extended_markers) })
    } else {
        None
    }
}


// ---------------------------------------------------------------------------
// The record stream

/// A piece of plain output, made from exactly those bytes.
pub open spec fn output_piece(bytes: Seq<u8>) -> Osc133Piece {
    Osc133Piece { record: Osc133RecordModel::Output(bytes), source: bytes }
}

/// Bytes without an introducer go out as output, except a trailing `ESC`,
/// which may begin an introducer and so stays buffered.
pub open spec fn drain_plain(buf: Seq<u8>) -> (Seq<Osc133Piece>, Seq<u8>) {
    if buf.len() == 0 {
        (Seq::empty(), buf)
    } else if buf.last() == ESC {
        if buf.len() > 1 {
            (seq![output_piece(buf.take(buf.len() - 1))], buf.skip(buf.len() - 1))
        } else {
            (Seq::empty(), buf)
        }
    } else {
        (seq![output_piece(buf)], Seq::empty())
    }
}

/// An unterminated sequence is kept, but only its last `MAX_BUFFER_LEN`
/// bytes; the older ones go out as output.
pub open spec fn limit_unterminated(buf: Seq<u8>) -> (Seq<Osc133Piece>, Seq<u8>) {
    if buf.len() > MAX_BUFFER_LEN {
        let n = buf.len() - MAX_BUFFER_LEN;
        (seq![output_piece(buf.take(n))], buf.skip(n))
    } else {
        (Seq::empty(), buf)
    }
}

/// The piece made from a complete OSC sequence `source`, whose terminator
/// starts at `j`: an event when its payload is an OSC 133 marker, and the
/// whole sequence as output otherwise.
pub open spec fn sequence_piece(source: Seq<u8>, j: int, parse_extended_markers: bool) -> Osc133Piece {
    match parse_payload_spec(source.subrange(2, j), parse_extended_markers) {
        Some(event) => Osc133Piece { record: Osc133RecordModel::Event(event), source },
        None => output_piece(source),
    }
}

/// How the parser splits its buffer `buf`: the pieces it emits, in order,
/// and the bytes it keeps buffered.
pub open spec fn scan(buf: Seq<u8>, parse_extended_markers: bool) -> (Seq<Osc133Piece>, Seq<u8>)
    decreases buf.len(),
{
    match find_introducer_from(buf, 0) {
        None => drain_plain(buf),
        Some(i) => {
            let before: Seq<Osc133Piece> = if i > 0 {
                seq![output_piece(buf.take(i))]
            } else {
                Seq::empty()
            };
            let rest = buf.skip(i);
            match find_terminator_from(rest, 2) {
                None => {
                    let limited = limit_unterminated(rest);
                    (before + limited.0, limited.1)
                },
                Some((j, len)) => {
                    let piece = sequence_piece(rest.take(j + len), j, parse_extended_markers);
                    proof {
                        lemma_find_introducer_bounds(buf, 0);
                        lemma_find_terminator_bounds(rest, 2);
                    }
                    let next = scan(rest.skip(j + len), parse_extended_markers);
                    (before.push(piece) + next.0, next.1)
                },
            }
        },
    }
}

/// The events among a sequence of records, in order.
pub open spec fn record_events(records: Seq<Osc133RecordModel>) -> Seq<Osc133EventModel>
    decreases records.len(),
{
    if records.len() == 0 {
        Seq::empty()
    } else {
        let rest = record_events(records.drop_last());
        match records.last() {
            Osc133RecordModel::Event(e) => rest.push(e),
            Osc133RecordModel::Output(_) => rest,
        }
    }
}

/// Removes the first `n` bytes of `v` and returns them.
fn take_front(v: &mut Vec<u8>, n: usize) -> (front: Vec<u8>)
    requires
        n <= old(v)@.len(),
    ensures
        front@ == old(v)@.take(n as int),
        final(v)@ == old(v)@.skip(n as int),
{
    let mut rest = v.split_off(n);
    std::mem::swap(v, &mut rest);
    assert(rest@ =~= old(v)@.take(n as int));
    assert(v@ =~= old(v)@.skip(n as int));
    rest
}

/// A parser of OSC 133 markers in a stream of terminal output.
#[derive(Debug)]
pub struct Osc133Parser {
    buffer: Vec<u8>,
    parse_extended_markers: bool,
}

impl Default for Osc133Parser {
    /// A parser with an empty buffer that recognises only the plain markers.
    fn default() -> (parser: Self)
        ensures
            parser.buffered()@ == Seq::<u8>::empty(),
            !parser.extended(),
    {
        Osc133Parser { buffer: Vec::new(), parse_extended_markers: false }
    }
}

impl Osc133Parser {
    /// The bytes the parser keeps while waiting for the rest of a sequence.
    pub closed spec fn buffered(&self) -> Vec<u8> {
        self.buffer
    }

    /// Whether extended markers (`A;`, `B;`, `C;cmdline_url=`) are parsed.
    pub closed spec fn extended(&self) -> bool {
        self.parse_extended_markers
    }

    /// A parser with an empty buffer that also parses extended markers.
    pub fn with_extended_markers() -> (parser: Self)
        ensures
            parser.buffered()@ == Seq::<u8>::empty(),
            parser.extended(),
    {
        Osc133Parser { buffer: Vec::new(), parse_extended_markers: true }
    }

    /// How many bytes are buffered.
    pub fn buffered_len(&self) -> (len: usize)
        ensures
            len == self.buffered()@.len(),
    {
        self.buffer.len()
    }

    fn enforce_buffer_limit(&mut self, records: &mut Vec<Osc133Record>)
        ensures
            record_models(final(records)@) == record_models(old(records)@) + piece_records(
                limit_unterminated(old(self).buffer@).0,
            ),
            final(self).buffer@ == limit_unterminated(old(self).buffer@).1,
            final(self).parse_extended_markers == old(self).parse_extended_markers,
    {
        if self.buffer.len() > MAX_BUFFER_LEN {
            let drain_len = self.buffer.len() - MAX_BUFFER_LEN;
            let front = take_front(&mut self.buffer, drain_len);
            records.push(Osc133Record::Output(front));
            proof {
                assert(record_models(records@) =~= record_models(old(records)@) + piece_records(
                    limit_unterminated(old(self).buffer@).0,
                ));
            }
        } else {
            assert(record_models(records@) =~= record_models(old(records)@) + piece_records(
                limit_unterminated(old(self).buffer@).0,
            ));
        }
    }

    fn drain_non_osc_bytes(&mut self, records: &mut Vec<Osc133Record>)
        ensures
            record_models(final(records)@) == record_models(old(records)@) + piece_records(
                drain_plain(old(self).buffer@).0,
            ),
            final(self).buffer@ == drain_plain(old(self).buffer@).1,
            final(self).parse_extended_markers == old(self).parse_extended_markers,
    {
        let ghost old_models = record_models(records@);
        if self.buffer.len() == 0 {
            assert(record_models(records@) =~= old_models + piece_records(
                drain_plain(old(self).buffer@).0,
            ));
            return;
        }
        let last = self.buffer[self.buffer.len() - 1];
        if last == ESC {
            if self.buffer.len() > 1 {
                let drain_len = self.buffer.len() - 1;
                let front = take_front(&mut self.buffer, drain_len);
                records.push(Osc133Record::Output(front));
            }
        } else {
            let n = self.buffer.len();
            let front = take_front(&mut self.buffer, n);
            assert(front@ =~= old(self).buffer@);
            assert(self.buffer@ =~= Seq::<u8>::empty());
            records.push(Osc133Record::Output(front));
        }
        assert(record_models(records@) =~= old_models + piece_records(
            drain_plain(old(self).buffer@).0,
        ));
    }

    /// Removes a complete OSC sequence, whose terminator of length `len`
    /// starts at `j`, from the front of the buffer and turns it into a record.
    fn take_sequence(&mut self, j: usize, len: usize) -> (record: Osc133Record)
        requires
            2 <= j,
            j + len <= old(self).buffer@.len(),
        ensures
            record@ == sequence_piece(
                old(self).buffer@.take(j + len),
                j as int,
                old(self).parse_extended_markers,
            ).record,
            final(self).buffer@ == old(self).buffer@.skip(j + len),
            final(self).parse_extended_markers == old(self).parse_extended_markers,
    {
        let _buffer_len = self.buffer.len();
        let payload = vstd::slice::slice_subrange(self.buffer.as_slice(), 2, j);
        let event = parse_payload(payload, self.parse_extended_markers);
        let source = take_front(&mut self.buffer, j + len);
        assert(payload@ =~= source@.subrange(2, j as int));
        match event {
            Some(e) => Osc133Record::Event(e),
            None => Osc133Record::Output(source),
        }
    }

    /// Feeds bytes to the parser and returns the records that are complete:
    /// plain output and OSC 133 events, in stream order.
    pub fn push_records(&mut self, bytes: &[u8]) -> (records: Vec<Osc133Record>)
        ensures
            record_models(records@) == piece_records(
                scan(old(self).buffered()@ + bytes@, old(self).extended()).0,
            ),
            final(self).buffered()@ == scan(old(self).buffered()@ + bytes@, old(self).extended()).1,
            final(self).buffered()@.len() <= MAX_BUFFER_LEN,
            final(self).extended() == old(self).extended(),
    {
        let ghost input = self.buffer@ + bytes@;
        proof {
            lemma_scan_conserves_input(input, self.parse_extended_markers);
        }
        let ghost ext = self.parse_extended_markers;
        self.buffer.extend_from_slice(bytes);
        proof {
            assert forall|k: int| 0 <= k < self.buffer@.len() implies self.buffer@[k] == input[k] by {
                if k >= old(self).buffer@.len() {
                    assert(cloned::<u8>(bytes@[k - old(self).buffer@.len()], self.buffer@[k]));
                }
            }
            assert(self.buffer@ =~= input);
        }
        let mut records: Vec<Osc133Record> = Vec::new();
        let ghost mut done: Seq<Osc133Piece> = Seq::empty();
        proof {
            assert(record_models(records@) =~= piece_records(done));
            assert(scan(input, ext).0 =~= done + scan(self.buffer@, ext).0);
        }
        loop
            invariant_except_break
                record_models(records@) == piece_records(done),
                scan(input, ext).0 == done + scan(self.buffer@, ext).0,
                scan(input, ext).1 == scan(self.buffer@, ext).1,
            invariant
                self.parse_extended_markers == ext,
            ensures
                record_models(records@) == piece_records(scan(input, ext).0),
                self.buffer@ == scan(input, ext).1,
                self.parse_extended_markers == ext,
            decreases self.buffer@.len(),
        {
            let ghost buf = self.buffer@;
            let found = find_introducer(self.buffer.as_slice());
            match found {
                None => {
                    let ghost before = records@;
                    self.drain_non_osc_bytes(&mut records);
                    proof {
                        assert(piece_records(done + drain_plain(buf).0) =~= piece_records(done)
                            + piece_records(drain_plain(buf).0));
                        done = done + drain_plain(buf).0;
                        assert(scan(buf, ext) == drain_plain(buf));
                        assert(done + Seq::<Osc133Piece>::empty() =~= done);
                    }
                    break;
                },
                Some(i) => {
                    proof {
                        lemma_find_introducer_bounds(buf, 0);
                    }
                    let ghost before: Seq<Osc133Piece> = if i > 0 {
                        seq![output_piece(buf.take(i as int))]
                    } else {
                        Seq::empty()
                    };
                    if i > 0 {
                        let front = take_front(&mut self.buffer, i);
                        records.push(Osc133Record::Output(front));
                    } else {
                        assert(self.buffer@ =~= buf.skip(0));
                    }
                    proof {
                        assert(piece_records(done + before) =~= piece_records(done) + piece_records(
                            before,
                        ));
                        assert(record_models(records@) =~= piece_records(done + before));
                    }
                    let ghost rest = self.buffer@;
                    assert(rest == buf.skip(i as int));
                    let terminator = find_terminator(self.buffer.as_slice(), 2);
                    match terminator {
                        None => {
                            self.enforce_buffer_limit(&mut records);
                            proof {
                                let limited = limit_unterminated(rest);
                                assert(scan(buf, ext) == (before + limited.0, limited.1));
                                assert(piece_records(done + before + limited.0) =~= piece_records(
                                    done + before,
                                ) + piece_records(limited.0));
                                done = done + before + limited.0;
                                assert(scan(input, ext).0 =~= done);
                            }
                            break;
                        },
                        Some((j, len)) => {
                            proof {
                                lemma_find_terminator_bounds(rest, 2);
                            }
                            let record = self.take_sequence(j, len);
                            let ghost piece = sequence_piece(rest.take(j + len), j as int, ext);
                            let ghost before_push = record_models(records@);
                            records.push(record);
                            proof {
                                assert(record_models(records@) =~= before_push.push(piece.record));
                                assert(piece_records(done + before.push(piece)) =~= piece_records(
                                    done + before,
                                ).push(piece.record));
                            }
                            proof {
                                let next = scan(rest.skip(j + len), ext);
                                assert(self.buffer@ == rest.skip(j + len));
                                assert(scan(buf, ext) == (before.push(piece) + next.0, next.1));
                                assert(record_models(records@) =~= piece_records(
                                    done + before.push(piece),
                                ));
                                assert(done + (before.push(piece) + next.0) =~= (done + before.push(
                                    piece,
                                )) + next.0);
                                done = done + before.push(piece);
                            }
                        },
                    }
                },
            }
        }
        records
    }

    /// Feeds bytes to the parser and returns the OSC 133 events that are
    /// complete, in stream order; plain output is dropped.
    pub fn push(&mut self, bytes: &[u8]) -> (events: Vec<Osc133Event>)
        ensures
            events@.map_values(|e: Osc133Event| e@) == record_events(
                piece_records(scan(old(self).buffered()@ + bytes@, old(self).extended()).0),
            ),
            final(self).buffered()@ == scan(old(self).buffered()@ + bytes@, old(self).extended()).1,
            final(self).buffered()@.len() <= MAX_BUFFER_LEN,
            final(self).extended() == old(self).extended(),
    {
        let records = self.push_records(bytes);
        let ghost all = records@;
        let mut events: Vec<Osc133Event> = Vec::new();
        proof {
            assert(all.take(0) =~= Seq::<Osc133Record>::empty());
            assert(record_models(all.take(0)) =~= Seq::<Osc133RecordModel>::empty());
            assert(events@.map_values(|e: Osc133Event| e@) =~= Seq::<Osc133EventModel>::empty());
        }
        for record in it: records
            invariant
                it.seq() == all,
                events@.map_values(|e: Osc133Event| e@) == record_events(
                    record_models(all.take(it.index() as int)),
                ),
        {
            let ghost k = it.index() as int;
            proof {
                assert(record_models(all.take(k + 1)).drop_last() =~= record_models(all.take(k)));
                assert(record_models(all.take(k + 1)).last() == all[k]@);
            }
            match record {
                Osc133Record::Event(event) => {
                    let ghost before = events@;
                    let ghost event_view = event@;
                    events.push(event);
                    proof {
                        assert(events@.map_values(|e: Osc133Event| e@) =~= before.map_values(
                            |e: Osc133Event| e@,
                        ).push(event_view));
                    }
                },
                Osc133Record::Output(_) => {},
            }
        }
        proof {
            assert(all.take(all.len() as int) =~= all);
        }
        events
    }
}


// ---------------------------------------------------------------------------
// Laws of the record stream

/// The input bytes that a sequence of pieces was made from, in order.
pub open spec fn piece_sources(pieces: Seq<Osc133Piece>) -> Seq<u8>
    decreases pieces.len(),
{
    if pieces.len() == 0 {
        Seq::empty()
    } else {
        piece_sources(pieces.drop_last()) + pieces.last().source
    }
}

/// A piece is faithful to its source: plain output is exactly the bytes it
/// was made from, and an event was made from a complete OSC sequence
/// (`ESC ]`, a payload, and a BEL or ST terminator) whose payload is the
/// OSC 133 marker of that event.
pub open spec fn faithful_piece(piece: Osc133Piece, parse_extended_markers: bool) -> bool {
    match piece.record {
        Osc133RecordModel::Output(bytes) => bytes == piece.source,
        Osc133RecordModel::Event(event) => exists|j: int|
            #![trigger terminator_len_at(piece.source, j)]
            {
                &&& 2 <= j
                &&& is_introducer_at(piece.source, 0)
                &&& terminator_len_at(piece.source, j) == Some(piece.source.len() - j)
                &&& parse_payload_spec(piece.source.subrange(2, j), parse_extended_markers)
                    == Some(event)
            },
    }
}

proof fn lemma_piece_sources_append(a: Seq<Osc133Piece>, b: Seq<Osc133Piece>)
    ensures
        piece_sources(a + b) == piece_sources(a) + piece_sources(b),
    decreases b.len(),
{
    if b.len() == 0 {
        assert(a + b =~= a);
        assert(piece_sources(a) + piece_sources(b) =~= piece_sources(a));
    } else {
        lemma_piece_sources_append(a, b.drop_last());
        assert((a + b).drop_last() =~= a + b.drop_last());
        assert(piece_sources(a) + piece_sources(b.drop_last()) + b.last().source =~= piece_sources(
            a,
        ) + (piece_sources(b.drop_last()) + b.last().source));
    }
}

proof fn lemma_single_piece_sources(p: Osc133Piece)
    ensures
        piece_sources(seq![p]) == p.source,
{
    assert(seq![p].drop_last() =~= Seq::<Osc133Piece>::empty());
    assert(piece_sources(Seq::<Osc133Piece>::empty()) == Seq::<u8>::empty());
    assert(seq![p].last() == p);
    assert(Seq::<u8>::empty() + p.source =~= p.source);
}

/// The pieces are all faithful, their sources and the kept bytes make up
/// `buf`, and at most `MAX_BUFFER_LEN` bytes are kept.
pub open spec fn conserves(buf: Seq<u8>, result: (Seq<Osc133Piece>, Seq<u8>), parse_extended_markers: bool) -> bool {
    &&& piece_sources(result.0) + result.1 == buf
    &&& forall|k: int|
        0 <= k < result.0.len() ==> faithful_piece(#[trigger] result.0[k], parse_extended_markers)
    &&& result.1.len() <= MAX_BUFFER_LEN
}

proof fn lemma_drain_plain_conserves(buf: Seq<u8>, ext: bool)
    ensures
        conserves(buf, drain_plain(buf), ext),
{
    let d = drain_plain(buf);
    if buf.len() == 0 {
        assert(piece_sources(d.0) + d.1 =~= buf);
    } else if buf.last() == ESC {
        if buf.len() > 1 {
            lemma_single_piece_sources(output_piece(buf.take(buf.len() - 1)));
            assert(buf.take(buf.len() - 1) + buf.skip(buf.len() - 1) =~= buf);
        } else {
            assert(piece_sources(d.0) + d.1 =~= buf);
        }
    } else {
        lemma_single_piece_sources(output_piece(buf));
        assert(buf + Seq::<u8>::empty() =~= buf);
    }
}

proof fn lemma_prefix_then_conserves(
    head: Seq<u8>,
    before: Seq<Osc133Piece>,
    tail: Seq<u8>,
    result: (Seq<Osc133Piece>, Seq<u8>),
    ext: bool,
)
    requires
        piece_sources(before) == head,
        forall|k: int| 0 <= k < before.len() ==> faithful_piece(#[trigger] before[k], ext),
        conserves(tail, result, ext),
    ensures
        conserves(head + tail, (before + result.0, result.1), ext),
{
    lemma_piece_sources_append(before, result.0);
    assert(piece_sources(before + result.0) + result.1 =~= head + tail);
    assert forall|k: int| 0 <= k < (before + result.0).len() implies faithful_piece(
        #[trigger] (before + result.0)[k],
        ext,
    ) by {
        if k < before.len() {
            assert((before + result.0)[k] == before[k]);
        } else {
            assert((before + result.0)[k] == result.0[k - before.len()]);
        }
    }
}

proof fn lemma_limit_conserves(rest: Seq<u8>, ext: bool)
    ensures
        conserves(rest, limit_unterminated(rest), ext),
{
    let limited = limit_unterminated(rest);
    if rest.len() > MAX_BUFFER_LEN {
        let n = rest.len() - MAX_BUFFER_LEN;
        lemma_single_piece_sources(output_piece(rest.take(n)));
        assert(rest.take(n) + rest.skip(n) =~= rest);
    } else {
        assert(piece_sources(limited.0) + limited.1 =~= rest);
    }
}

proof fn lemma_sequence_piece_faithful(source: Seq<u8>, j: int, ext: bool)
    requires
        2 <= j < source.len(),
        is_introducer_at(source, 0),
        terminator_len_at(source, j) == Some(source.len() - j),
    ensures
        faithful_piece(sequence_piece(source, j, ext), ext),
        sequence_piece(source, j, ext).source == source,
{
}

/// Conservation: the parser loses and invents no bytes. Laid end to end,
/// the bytes each record was made from, followed by the bytes it keeps
/// buffered, are exactly its input; every output record holds exactly the
/// bytes it was made from; every event was made from a complete OSC 133
/// marker sequence; and the buffered bytes never exceed `MAX_BUFFER_LEN`.
pub proof fn lemma_scan_conserves_input(buf: Seq<u8>, parse_extended_markers: bool)
    ensures
        conserves(buf, scan(buf, parse_extended_markers), parse_extended_markers),
    decreases buf.len(),
{
    let ext = parse_extended_markers;
    match find_introducer_from(buf, 0) {
        None => {
            lemma_drain_plain_conserves(buf, ext);
        },
        Some(i) => {
            lemma_find_introducer_bounds(buf, 0);
            let before: Seq<Osc133Piece> = if i > 0 {
                seq![output_piece(buf.take(i))]
            } else {
                Seq::empty()
            };
            let rest = buf.skip(i);
            assert(piece_sources(before) == buf.take(i)) by {
                if i > 0 {
                    lemma_single_piece_sources(output_piece(buf.take(i)));
                } else {
                    assert(buf.take(i) =~= Seq::<u8>::empty());
                }
            }
            assert(buf.take(i) + rest =~= buf);
            match find_terminator_from(rest, 2) {
                None => {
                    lemma_limit_conserves(rest, ext);
                    lemma_prefix_then_conserves(buf.take(i), before, rest, limit_unterminated(rest), ext);
                },
                Some((j, len)) => {
                    lemma_find_terminator_bounds(rest, 2);
                    let source = rest.take(j + len);
                    let piece = sequence_piece(source, j, ext);
                    let tail = rest.skip(j + len);
                    lemma_scan_conserves_input(tail, ext);
                    assert(is_introducer_at(source, 0));
                    assert(terminator_len_at(source, j) == terminator_len_at(rest, j));
                    lemma_sequence_piece_faithful(source, j, ext);
                    lemma_single_piece_sources(piece);
                    lemma_piece_sources_append(before, seq![piece]);
                    assert(before + seq![piece] =~= before.push(piece));
                    assert(buf.take(i) + source + tail =~= buf);
                    assert(forall|k: int| 0 <= k < before.push(piece).len() ==> #[trigger] before.push(piece)[k] == if k < before.len() { before[k] } else { piece });
                    lemma_prefix_then_conserves(buf.take(i) + source, before.push(piece), tail, scan(tail, ext), ext);
                },
            }
        },
    }
}


// ---------------------------------------------------------------------------
// Chunking does not change the events

/// Whether scanning `buf` drops the front of an unterminated sequence that
/// outgrew `MAX_BUFFER_LEN`.
pub open spec fn scan_truncates(buf: Seq<u8>, parse_extended_markers: bool) -> bool
    decreases buf.len(),
{
    match find_introducer_from(buf, 0) {
        None => false,
        Some(i) => {
            let rest = buf.skip(i);
            match find_terminator_from(rest, 2) {
                None => rest.len() > MAX_BUFFER_LEN,
                Some((j, len)) => {
                    proof {
                        lemma_find_introducer_bounds(buf, 0);
                        lemma_find_terminator_bounds(rest, 2);
                    }
                    scan_truncates(rest.skip(j + len), parse_extended_markers)
                },
            }
        },
    }
}

/// The events of the pieces of a scan.
pub open spec fn scan_events(buf: Seq<u8>, parse_extended_markers: bool) -> Seq<Osc133EventModel> {
    record_events(piece_records(scan(buf, parse_extended_markers).0))
}

proof fn lemma_record_events_append(a: Seq<Osc133RecordModel>, b: Seq<Osc133RecordModel>)
    ensures
        record_events(a + b) == record_events(a) + record_events(b),
    decreases b.len(),
{
    if b.len() == 0 {
        assert(a + b =~= a);
        assert(record_events(a) + record_events(b) =~= record_events(a));
    } else {
        lemma_record_events_append(a, b.drop_last());
        assert((a + b).drop_last() =~= a + b.drop_last());
        assert((a + b).last() == b.last());
        match b.last() {
            Osc133RecordModel::Event(e) => {
                assert(record_events(a) + record_events(b.drop_last()).push(e) =~= (record_events(
                    a,
                ) + record_events(b.drop_last())).push(e));
            },
            Osc133RecordModel::Output(_) => {},
        }
    }
}

proof fn lemma_piece_records_append(a: Seq<Osc133Piece>, b: Seq<Osc133Piece>)
    ensures
        piece_records(a + b) == piece_records(a) + piece_records(b),
{
    assert(piece_records(a + b) =~= piece_records(a) + piece_records(b));
}

proof fn lemma_output_pieces_no_events(pieces: Seq<Osc133Piece>)
    requires
        forall|k: int| 0 <= k < pieces.len() ==> (#[trigger] pieces[k]).record is Output,
    ensures
        record_events(piece_records(pieces)) == Seq::<Osc133EventModel>::empty(),
    decreases pieces.len(),
{
    if pieces.len() > 0 {
        lemma_output_pieces_no_events(pieces.drop_last());
        assert(piece_records(pieces).drop_last() =~= piece_records(pieces.drop_last()));
        assert(pieces[pieces.len() - 1].record is Output);
    }
}

/// `find_introducer_from(b, s)` is the first introducer at or after `s`.
proof fn lemma_find_introducer_first(b: Seq<u8>, s: int)
    requires
        0 <= s,
    ensures
        match find_introducer_from(b, s) {
            Some(i) => s <= i && is_introducer_at(b, i) && forall|k: int|
                s <= k < i ==> !is_introducer_at(b, k),
            None => forall|k: int| s <= k ==> !is_introducer_at(b, k),
        },
    decreases b.len() - s,
{
    if s + 1 < b.len() && !is_introducer_at(b, s) {
        lemma_find_introducer_first(b, s + 1);
    }
}

/// Introducers located by position determine `find_introducer_from`.
proof fn lemma_find_introducer_unique(b: Seq<u8>, i: int)
    requires
        0 <= i,
        is_introducer_at(b, i),
        forall|k: int| 0 <= k < i ==> !is_introducer_at(b, k),
    ensures
        find_introducer_from(b, 0) == Some(i),
{
    lemma_find_introducer_first(b, 0);
}

proof fn lemma_find_introducer_none(b: Seq<u8>)
    requires
        forall|k: int| 0 <= k ==> !is_introducer_at(b, k),
    ensures
        find_introducer_from(b, 0) is None,
{
    lemma_find_introducer_first(b, 0);
    if find_introducer_from(b, 0) is Some {
        let i = find_introducer_from(b, 0)->0;
        assert(is_introducer_at(b, i));
    }
}

/// Scanning from the first introducer: the bytes before it go out as output,
/// and the rest is scanned as if it were the whole buffer.
proof fn lemma_scan_from_introducer(buf: Seq<u8>, ext: bool)
    requires
        find_introducer_from(buf, 0) is Some,
    ensures
        ({
            let i = find_introducer_from(buf, 0)->0;
            let before: Seq<Osc133Piece> = if i > 0 {
                seq![output_piece(buf.take(i))]
            } else {
                Seq::empty()
            };
            scan(buf, ext) == (before + scan(buf.skip(i), ext).0, scan(buf.skip(i), ext).1)
                && scan_truncates(buf, ext) == scan_truncates(buf.skip(i), ext)
        }),
{
    let i = find_introducer_from(buf, 0)->0;
    lemma_find_introducer_bounds(buf, 0);
    let rest = buf.skip(i);
    assert(is_introducer_at(rest, 0));
    assert(find_introducer_from(rest, 0) == Some(0int));
    assert(rest.skip(0) =~= rest);
    let before: Seq<Osc133Piece> = if i > 0 {
        seq![output_piece(buf.take(i))]
    } else {
        Seq::empty()
    };
    match find_terminator_from(rest, 2) {
        None => {
            assert(Seq::<Osc133Piece>::empty() + limit_unterminated(rest).0 =~= limit_unterminated(
                rest,
            ).0);
        },
        Some((j, len)) => {
            lemma_find_terminator_bounds(rest, 2);
            let piece = sequence_piece(rest.take(j + len), j, ext);
            let next = scan(rest.skip(j + len), ext);
            assert(Seq::<Osc133Piece>::empty().push(piece) =~= seq![piece]);
            assert(before.push(piece) + next.0 =~= before + (seq![piece] + next.0));
        },
    }
}

/// Bytes without an introducer before the start of `tail` change neither the
/// events nor the kept bytes of a scan.
proof fn lemma_scan_skip_plain(head: Seq<u8>, tail: Seq<u8>, ext: bool)
    requires
        tail.len() > 0,
        forall|k: int| 0 <= k < head.len() ==> !is_introducer_at(head + tail, k),
    ensures
        scan_events(head + tail, ext) == scan_events(tail, ext),
        scan(head + tail, ext).1 == scan(tail, ext).1,
        scan_truncates(head + tail, ext) == scan_truncates(tail, ext),
{
    let buf = head + tail;
    lemma_find_introducer_first(buf, 0);
    lemma_find_introducer_first(tail, 0);
    assert forall|k: int| 0 <= k implies is_introducer_at(buf, k + head.len()) == is_introducer_at(
        tail,
        k,
    ) by {
        if 0 <= k && k + 1 < tail.len() {
            assert(buf[k + head.len()] == tail[k]);
            assert(buf[k + head.len() + 1] == tail[k + 1]);
        }
    }
    match find_introducer_from(buf, 0) {
        Some(i) => {
            assert(i >= head.len());
            let it = i - head.len();
            assert(is_introducer_at(tail, it));
            assert forall|k: int| 0 <= k < it implies !is_introducer_at(tail, k) by {
                assert(is_introducer_at(buf, k + head.len()) == is_introducer_at(tail, k));
            }
            lemma_find_introducer_unique(tail, it);
            lemma_scan_from_introducer(buf, ext);
            lemma_scan_from_introducer(tail, ext);
            assert(buf.skip(i) =~= tail.skip(it));
            let rb: Seq<Osc133Piece> = if i > 0 {
                seq![output_piece(buf.take(i))]
            } else {
                Seq::empty()
            };
            let rt: Seq<Osc133Piece> = if it > 0 {
                seq![output_piece(tail.take(it))]
            } else {
                Seq::empty()
            };
            let inner = scan(tail.skip(it), ext).0;
            lemma_piece_records_append(rb, inner);
            lemma_piece_records_append(rt, inner);
            lemma_record_events_append(piece_records(rb), piece_records(inner));
            lemma_record_events_append(piece_records(rt), piece_records(inner));
            lemma_output_pieces_no_events(rb);
            lemma_output_pieces_no_events(rt);
            assert(Seq::<Osc133EventModel>::empty() + record_events(piece_records(inner))
                =~= record_events(piece_records(inner)));
        },
        None => {
            assert forall|k: int| 0 <= k implies !is_introducer_at(tail, k) by {
                assert(is_introducer_at(buf, k + head.len()) == is_introducer_at(tail, k));
            }
            lemma_find_introducer_none(tail);
            assert(buf.last() == tail.last());
            let db = drain_plain(buf);
            let dt = drain_plain(tail);
            lemma_output_pieces_no_events(db.0);
            lemma_output_pieces_no_events(dt.0);
            if tail.last() == ESC {
                assert(buf.skip(buf.len() - 1) =~= seq![ESC]);
                if tail.len() > 1 {
                    assert(tail.skip(tail.len() - 1) =~= seq![ESC]);
                } else {
                    assert(tail =~= seq![ESC]);
                }
            }
        },
    }
}

/// `find_terminator_from` on a prefix that holds the terminator it finds.
proof fn lemma_find_terminator_extend(x: Seq<u8>, y: Seq<u8>, s: int)
    requires
        0 <= s,
        find_terminator_from(x, s) is Some,
    ensures
        find_terminator_from(x + y, s) == find_terminator_from(x, s),
    decreases x.len() - s,
{
    lemma_find_terminator_bounds(x, s);
    let xy = x + y;
    if s < x.len() {
        if s + 1 < x.len() {
            assert(xy[s + 1] == x[s + 1]);
        }
        assert(xy[s] == x[s]);
        if terminator_len_at(x, s) is None {
            if s + 1 >= x.len() {
                // the terminator found later would lie past the end of x
                lemma_find_terminator_bounds(x, s + 1);
                assert(false);
            }
            lemma_find_terminator_extend(x, y, s + 1);
        }
    }
}

/// Chunking does not matter: scanning `first` and then the bytes it kept
/// followed by `second` gives the same events, and keeps the same bytes,
/// as scanning `first + second` at once — provided that scanning `first`
/// did not have to drop the front of an overlong unterminated sequence.
#[verifier::spinoff_prover]
#[verifier::rlimit(50)]
pub proof fn lemma_scan_chunking(first: Seq<u8>, second: Seq<u8>, parse_extended_markers: bool)
    requires
        !scan_truncates(first, parse_extended_markers),
    ensures
        scan_events(first, parse_extended_markers) + scan_events(
            scan(first, parse_extended_markers).1 + second,
            parse_extended_markers,
        ) == scan_events(first + second, parse_extended_markers),
        scan(scan(first, parse_extended_markers).1 + second, parse_extended_markers).1 == scan(
            first + second,
            parse_extended_markers,
        ).1,
    decreases first.len(),
{
    let ext = parse_extended_markers;
    let a = first;
    let b = second;
    let ab = a + b;
    lemma_find_introducer_first(a, 0);
    match find_introducer_from(a, 0) {
        None => {
            lemma_output_pieces_no_events(drain_plain(a).0);
            assert(scan_events(a, ext) =~= Seq::<Osc133EventModel>::empty());
            if a.len() == 0 {
                assert(ab =~= b);
                assert(scan(a, ext).1 + b =~= b);
            } else if b.len() == 0 {
                assert(ab =~= a);
                assert(scan(a, ext).1 + b =~= scan(a, ext).1);
                let kept = scan(a, ext).1;
                if a.last() == ESC {
                    if a.len() > 1 {
                        assert(kept =~= seq![ESC]);
                        assert(find_introducer_from(kept, 0) is None);
                        assert(drain_plain(kept).1 =~= kept);
                        lemma_output_pieces_no_events(drain_plain(kept).0);
                    } else {
                        assert(kept =~= a);
                    }
                } else {
                    assert(kept =~= Seq::<u8>::empty());
                    lemma_output_pieces_no_events(drain_plain(kept).0);
                }
                assert(Seq::<Osc133EventModel>::empty() + scan_events(scan(a, ext).1 + b, ext)
                    =~= scan_events(scan(a, ext).1 + b, ext));
            } else {
                let kept = scan(a, ext).1;
                let head = a.take(a.len() - kept.len());
                if a.last() == ESC {
                    if a.len() > 1 {
                        assert(kept =~= a.skip(a.len() - 1));
                    } else {
                        assert(kept =~= a);
                    }
                } else {
                    assert(kept =~= Seq::<u8>::empty());
                }
                assert(head + (kept + b) =~= ab);
                assert forall|k: int| 0 <= k < head.len() implies !is_introducer_at(
                    head + (kept + b),
                    k,
                ) by {
                    assert(!is_introducer_at(a, k));
                    if k + 1 < a.len() {
                        assert((head + (kept + b))[k] == a[k]);
                        assert((head + (kept + b))[k + 1] == a[k + 1]);
                    } else {
                        // k is the last byte of a, which is not ESC here
                        assert((head + (kept + b))[k] == a[k]);
                    }
                }
                lemma_scan_skip_plain(head, kept + b, ext);
                assert(Seq::<Osc133EventModel>::empty() + scan_events(kept + b, ext) =~= scan_events(
                    kept + b,
                    ext,
                ));
            }
        },
        Some(i) => {
            lemma_find_introducer_bounds(a, 0);
            assert forall|k: int| 0 <= k < i implies !is_introducer_at(ab, k) by {
                assert(!is_introducer_at(a, k));
                assert(ab[k] == a[k]);
                assert(ab[k + 1] == a[k + 1]);
            }
            assert(ab[i] == a[i] && ab[i + 1] == a[i + 1]);
            lemma_find_introducer_unique(ab, i);
            lemma_scan_from_introducer(a, ext);
            lemma_scan_from_introducer(ab, ext);
            let rest = a.skip(i);
            assert(ab.skip(i) =~= rest + b);
            let before: Seq<Osc133Piece> = if i > 0 {
                seq![output_piece(a.take(i))]
            } else {
                Seq::empty()
            };
            assert(before == (if i > 0 {
                seq![output_piece(ab.take(i))]
            } else {
                Seq::<Osc133Piece>::empty()
            })) by {
                assert(ab.take(i) =~= a.take(i));
            }
            lemma_output_pieces_no_events(before);
            // events of `before + X` are the events of X
            assert forall|x: Seq<Osc133Piece>| true implies record_events(piece_records(before + x))
                == record_events(piece_records(x)) by {
                lemma_piece_records_append(before, x);
                lemma_record_events_append(piece_records(before), piece_records(x));
                assert(Seq::<Osc133EventModel>::empty() + record_events(piece_records(x))
                    =~= record_events(piece_records(x)));
            }
            assert(is_introducer_at(rest, 0));
            match find_terminator_from(rest, 2) {
                None => {
                    // not truncated: everything from the introducer stays buffered
                    assert(scan(rest, ext) == limit_unterminated(rest));
                    assert(scan(a, ext).1 =~= rest);
                    assert(scan_events(rest, ext) =~= Seq::<Osc133EventModel>::empty());
                    assert(scan_events(a, ext) =~= Seq::<Osc133EventModel>::empty());
                    assert(Seq::<Osc133EventModel>::empty() + scan_events(rest + b, ext)
                        =~= scan_events(rest + b, ext));
                },
                Some((j, len)) => {
                    lemma_find_terminator_bounds(rest, 2);
                    lemma_find_terminator_extend(rest, b, 2);
                    let source = rest.take(j + len);
                    let piece = sequence_piece(source, j, ext);
                    let tail = rest.skip(j + len);
                    assert((rest + b).take(j + len) =~= source);
                    assert((rest + b).skip(j + len) =~= tail + b);
                    assert(find_introducer_from(rest + b, 0) == Some(0int)) by {
                        assert(is_introducer_at(rest + b, 0));
                    }
                    assert((rest + b).skip(0) =~= rest + b);
                    assert(rest.skip(0) =~= rest);
                    assert(find_introducer_from(rest, 0) == Some(0int));
                    let st = scan(tail, ext);
                    let stb = scan(tail + b, ext);
                    assert(scan(rest, ext) == (Seq::<Osc133Piece>::empty().push(piece) + st.0, st.1));
                    assert(scan(rest + b, ext) == (Seq::<Osc133Piece>::empty().push(piece) + stb.0, stb.1));
                    assert(scan_truncates(rest, ext) == scan_truncates(tail, ext));
                    lemma_scan_chunking(tail, b, ext);
                    let one = Seq::<Osc133Piece>::empty().push(piece);
                    lemma_piece_records_append(one, st.0);
                    lemma_piece_records_append(one, stb.0);
                    lemma_record_events_append(piece_records(one), piece_records(st.0));
                    lemma_record_events_append(piece_records(one), piece_records(stb.0));
                    assert(scan(a, ext).1 == st.1);
                    assert(scan_events(a, ext) == record_events(piece_records(one)) + scan_events(
                        tail,
                        ext,
                    ));
                    assert(scan_events(ab, ext) == record_events(piece_records(one)) + scan_events(
                        tail + b,
                        ext,
                    ));
                    assert(record_events(piece_records(one)) + scan_events(tail, ext) + scan_events(
                        st.1 + b,
                        ext,
                    ) =~= record_events(piece_records(one)) + (scan_events(tail, ext) + scan_events(
                        st.1 + b,
                        ext,
                    )));
                },
            }
        },
    }
}

// ---------------------------------------------------------------------------
// Chunking does not change the record stream

/// One item of the record stream read byte by byte: an output byte, or an
/// event.
pub ghost enum StreamItem {
    Byte(u8),
    Marker(Osc133EventModel),
}

/// Output bytes as stream items.
pub open spec fn byte_items(bytes: Seq<u8>) -> Seq<StreamItem> {
    bytes.map_values(|b: u8| StreamItem::Byte(b))
}

/// The record stream read byte by byte: output records give their bytes,
/// events give themselves.
pub open spec fn record_items(records: Seq<Osc133RecordModel>) -> Seq<StreamItem>
    decreases records.len(),
{
    if records.len() == 0 {
        Seq::empty()
    } else {
        record_items(records.drop_last()) + match records.last() {
            Osc133RecordModel::Output(bytes) => byte_items(bytes),
            Osc133RecordModel::Event(e) => seq![StreamItem::Marker(e)],
        }
    }
}

/// The records that a byte-by-byte stream reads as when each run of output
/// bytes forms one output record.
pub open spec fn merged_records(items: Seq<StreamItem>) -> Seq<Osc133RecordModel>
    decreases items.len(),
{
    if items.len() == 0 {
        Seq::empty()
    } else {
        let m = merged_records(items.drop_last());
        match items.last() {
            StreamItem::Byte(b) => if m.len() > 0 && m.last() is Output {
                m.drop_last().push(Osc133RecordModel::Output(m.last()->Output_0.push(b)))
            } else {
                m.push(Osc133RecordModel::Output(seq![b]))
            },
            StreamItem::Marker(e) => m.push(Osc133RecordModel::Event(e)),
        }
    }
}

/// A record stream with adjacent output records joined into one.
pub open spec fn merge_outputs(records: Seq<Osc133RecordModel>) -> Seq<Osc133RecordModel> {
    merged_records(record_items(records))
}

proof fn lemma_byte_items_append(x: Seq<u8>, y: Seq<u8>)
    ensures
        byte_items(x + y) == byte_items(x) + byte_items(y),
{
    assert(byte_items(x + y) =~= byte_items(x) + byte_items(y));
}

proof fn lemma_record_items_append(a: Seq<Osc133RecordModel>, b: Seq<Osc133RecordModel>)
    ensures
        record_items(a + b) == record_items(a) + record_items(b),
    decreases b.len(),
{
    if b.len() == 0 {
        assert(a + b =~= a);
        assert(record_items(a) + record_items(b) =~= record_items(a));
    } else {
        lemma_record_items_append(a, b.drop_last());
        assert((a + b).drop_last() =~= a + b.drop_last());
        assert((a + b).last() == b.last());
        let t = match b.last() {
            Osc133RecordModel::Output(bytes) => byte_items(bytes),
            Osc133RecordModel::Event(e) => seq![StreamItem::Marker(e)],
        };
        assert(record_items(a) + record_items(b.drop_last()) + t =~= record_items(a) + (record_items(
            b.drop_last(),
        ) + t));
    }
}

/// The stream items of a sequence of pieces.
pub open spec fn piece_items(pieces: Seq<Osc133Piece>) -> Seq<StreamItem> {
    record_items(piece_records(pieces))
}

proof fn lemma_piece_items_append(a: Seq<Osc133Piece>, b: Seq<Osc133Piece>)
    ensures
        piece_items(a + b) == piece_items(a) + piece_items(b),
{
    lemma_piece_records_append(a, b);
    lemma_record_items_append(piece_records(a), piece_records(b));
}

proof fn lemma_piece_items_output(bytes: Seq<u8>)
    ensures
        piece_items(seq![output_piece(bytes)]) == byte_items(bytes),
        piece_items(Seq::<Osc133Piece>::empty()) == Seq::<StreamItem>::empty(),
{
    let r = piece_records(seq![output_piece(bytes)]);
    assert(r.len() == 1);
    assert(r.last() == Osc133RecordModel::Output(bytes));
    assert(r.drop_last() =~= Seq::<Osc133RecordModel>::empty());
    assert(record_items(r.drop_last()) == Seq::<StreamItem>::empty());
    assert(piece_records(Seq::<Osc133Piece>::empty()) =~= Seq::<Osc133RecordModel>::empty());
    assert(Seq::<StreamItem>::empty() + byte_items(bytes) =~= byte_items(bytes));
}

/// Bytes without an introducer before the start of `tail` go out as output
/// in front of what `tail` alone gives.
proof fn lemma_scan_skip_plain_items(head: Seq<u8>, tail: Seq<u8>, ext: bool)
    requires
        tail.len() > 0,
        forall|k: int| 0 <= k < head.len() ==> !is_introducer_at(head + tail, k),
    ensures
        piece_items(scan(head + tail, ext).0) == byte_items(head) + piece_items(scan(tail, ext).0),
{
    let buf = head + tail;
    lemma_find_introducer_first(buf, 0);
    lemma_find_introducer_first(tail, 0);
    lemma_piece_items_output(head);
    assert forall|k: int| 0 <= k implies is_introducer_at(buf, k + head.len()) == is_introducer_at(
        tail,
        k,
    ) by {
        if 0 <= k && k + 1 < tail.len() {
            assert(buf[k + head.len()] == tail[k]);
            assert(buf[k + head.len() + 1] == tail[k + 1]);
        }
    }
    match find_introducer_from(buf, 0) {
        Some(i) => {
            assert(i >= head.len());
            let it = i - head.len();
            assert(is_introducer_at(tail, it));
            assert forall|k: int| 0 <= k < it implies !is_introducer_at(tail, k) by {
                assert(is_introducer_at(buf, k + head.len()) == is_introducer_at(tail, k));
            }
            lemma_find_introducer_unique(tail, it);
            lemma_scan_from_introducer(buf, ext);
            lemma_scan_from_introducer(tail, ext);
            assert(buf.skip(i) =~= tail.skip(it));
            let rb: Seq<Osc133Piece> = if i > 0 {
                seq![output_piece(buf.take(i))]
            } else {
                Seq::empty()
            };
            let rt: Seq<Osc133Piece> = if it > 0 {
                seq![output_piece(tail.take(it))]
            } else {
                Seq::empty()
            };
            let inner = scan(tail.skip(it), ext).0;
            lemma_piece_items_append(rb, inner);
            lemma_piece_items_append(rt, inner);
            lemma_piece_items_output(buf.take(i));
            lemma_piece_items_output(tail.take(it));
            assert(buf.take(i) =~= head + tail.take(it));
            lemma_byte_items_append(head, tail.take(it));
            assert(byte_items(tail.take(0)) =~= Seq::<StreamItem>::empty());
            assert(byte_items(head) + Seq::<StreamItem>::empty() =~= byte_items(head));
            assert(Seq::<StreamItem>::empty() + piece_items(inner) =~= piece_items(inner));
            assert(byte_items(head) + (piece_items(rt) + piece_items(inner)) =~= (byte_items(head)
                + piece_items(rt)) + piece_items(inner));
        },
        None => {
            assert forall|k: int| 0 <= k implies !is_introducer_at(tail, k) by {
                assert(is_introducer_at(buf, k + head.len()) == is_introducer_at(tail, k));
            }
            lemma_find_introducer_none(tail);
            assert(buf.last() == tail.last());
            if tail.last() == ESC {
                assert(buf.take(buf.len() - 1) =~= head + tail.take(tail.len() - 1));
                lemma_byte_items_append(head, tail.take(tail.len() - 1));
                lemma_piece_items_output(buf.take(buf.len() - 1));
                if tail.len() > 1 {
                    lemma_piece_items_output(tail.take(tail.len() - 1));
                } else {
                    assert(tail.take(0) =~= Seq::<u8>::empty());
                    assert(byte_items(Seq::<u8>::empty()) =~= Seq::<StreamItem>::empty());
                    assert(byte_items(head) + Seq::<StreamItem>::empty() =~= byte_items(head));
                }
            } else {
                lemma_piece_items_output(buf);
                lemma_piece_items_output(tail);
                lemma_byte_items_append(head, tail);
            }
        },
    }
}

/// A buffer no longer than `MAX_BUFFER_LEN` is never cut.
pub proof fn lemma_short_input_not_truncated(buf: Seq<u8>, parse_extended_markers: bool)
    requires
        buf.len() <= MAX_BUFFER_LEN,
    ensures
        !scan_truncates(buf, parse_extended_markers),
    decreases buf.len(),
{
    match find_introducer_from(buf, 0) {
        None => {},
        Some(i) => {
            lemma_find_introducer_bounds(buf, 0);
            let rest = buf.skip(i);
            match find_terminator_from(rest, 2) {
                None => {},
                Some((j, len)) => {
                    lemma_find_terminator_bounds(rest, 2);
                    lemma_short_input_not_truncated(rest.skip(j + len), parse_extended_markers);
                },
            }
        },
    }
}

#[verifier::spinoff_prover]
#[verifier::rlimit(50)]
proof fn lemma_scan_chunking_items(a: Seq<u8>, b: Seq<u8>, ext: bool)
    requires
        !scan_truncates(a, ext),
    ensures
        piece_items(scan(a, ext).0) + piece_items(scan(scan(a, ext).1 + b, ext).0) == piece_items(
            scan(a + b, ext).0,
        ),
    decreases a.len(),
{
    let ab = a + b;
    lemma_find_introducer_first(a, 0);
    match find_introducer_from(a, 0) {
        None => {
            let kept = scan(a, ext).1;
            let head = a.take(a.len() - kept.len());
            if a.len() > 0 && a.last() == ESC {
                if a.len() > 1 {
                    assert(kept =~= a.skip(a.len() - 1));
                    lemma_piece_items_output(head);
                } else {
                    assert(kept =~= a);
                    assert(head =~= Seq::<u8>::empty());
                    lemma_piece_items_output(head);
                    assert(byte_items(head) =~= Seq::<StreamItem>::empty());
                }
            } else {
                assert(kept =~= Seq::<u8>::empty());
                assert(head =~= a);
                lemma_piece_items_output(a);
                if a.len() == 0 {
                    assert(byte_items(a) =~= Seq::<StreamItem>::empty());
                }
            }
            assert(piece_items(scan(a, ext).0) == byte_items(head));
            if kept.len() + b.len() == 0 {
                assert(ab =~= head);
                assert(kept + b =~= Seq::<u8>::empty());
                assert(find_introducer_from(kept + b, 0) is None);
                lemma_piece_items_output(head);
                assert(piece_items(scan(kept + b, ext).0) == Seq::<StreamItem>::empty());
                if head.len() > 0 {
                    assert(a.last() != ESC);
                    assert(piece_items(scan(ab, ext).0) == byte_items(head));
                } else {
                    assert(byte_items(head) =~= Seq::<StreamItem>::empty());
                }
                assert(byte_items(head) + Seq::<StreamItem>::empty() =~= byte_items(head));
            } else {
                assert(head + (kept + b) =~= ab);
                assert forall|k: int| 0 <= k < head.len() implies !is_introducer_at(
                    head + (kept + b),
                    k,
                ) by {
                    assert(!is_introducer_at(a, k));
                    assert((head + (kept + b))[k] == a[k]);
                    if k + 1 < a.len() {
                        assert((head + (kept + b))[k + 1] == a[k + 1]);
                    }
                }
                lemma_scan_skip_plain_items(head, kept + b, ext);
            }
        },
        Some(i) => {
            lemma_find_introducer_bounds(a, 0);
            assert forall|k: int| 0 <= k < i implies !is_introducer_at(ab, k) by {
                assert(!is_introducer_at(a, k));
                assert(ab[k] == a[k]);
                assert(ab[k + 1] == a[k + 1]);
            }
            assert(ab[i] == a[i] && ab[i + 1] == a[i + 1]);
            lemma_find_introducer_unique(ab, i);
            lemma_scan_from_introducer(a, ext);
            lemma_scan_from_introducer(ab, ext);
            let rest = a.skip(i);
            assert(ab.skip(i) =~= rest + b);
            let before: Seq<Osc133Piece> = if i > 0 {
                seq![output_piece(a.take(i))]
            } else {
                Seq::empty()
            };
            assert(before == (if i > 0 {
                seq![output_piece(ab.take(i))]
            } else {
                Seq::<Osc133Piece>::empty()
            })) by {
                assert(ab.take(i) =~= a.take(i));
            }
            assert(is_introducer_at(rest, 0));
            match find_terminator_from(rest, 2) {
                None => {
                    assert(scan(rest, ext) == limit_unterminated(rest));
                    assert(scan(a, ext).1 =~= rest);
                    assert(scan(rest, ext).0 =~= Seq::<Osc133Piece>::empty());
                    assert(before + Seq::<Osc133Piece>::empty() =~= before);
                    lemma_piece_items_append(before, scan(rest + b, ext).0);
                },
                Some((j, len)) => {
                    lemma_find_terminator_bounds(rest, 2);
                    lemma_find_terminator_extend(rest, b, 2);
                    let source = rest.take(j + len);
                    let piece = sequence_piece(source, j, ext);
                    let tail = rest.skip(j + len);
                    assert((rest + b).take(j + len) =~= source);
                    assert((rest + b).skip(j + len) =~= tail + b);
                    assert(find_introducer_from(rest + b, 0) == Some(0int)) by {
                        assert(is_introducer_at(rest + b, 0));
                    }
                    assert((rest + b).skip(0) =~= rest + b);
                    assert(rest.skip(0) =~= rest);
                    assert(find_introducer_from(rest, 0) == Some(0int));
                    let st = scan(tail, ext);
                    let stb = scan(tail + b, ext);
                    let one = Seq::<Osc133Piece>::empty().push(piece);
                    assert(scan(rest, ext) == (one + st.0, st.1));
                    assert(scan(rest + b, ext) == (one + stb.0, stb.1));
                    assert(scan_truncates(rest, ext) == scan_truncates(tail, ext));
                    lemma_scan_chunking_items(tail, b, ext);
                    lemma_piece_items_append(one, st.0);
                    lemma_piece_items_append(one, stb.0);
                    lemma_piece_items_append(before, one + st.0);
                    lemma_piece_items_append(before, one + stb.0);
                    assert(scan(a, ext).1 == st.1);
                    let x = piece_items(before);
                    let y = piece_items(one);
                    assert(x + (y + piece_items(st.0)) + piece_items(scan(st.1 + b, ext).0) =~= x + (y
                        + (piece_items(st.0) + piece_items(scan(st.1 + b, ext).0))));
                },
            }
        },
    }
}

/// Chunking does not change the record stream: the records of scanning
/// `first`, followed by those of scanning the bytes it kept followed by
/// `second`, are the records of scanning `first + second` at once once
/// adjacent output records are joined; the kept bytes agree too. This holds
/// whenever scanning `first` did not have to drop the front of an overlong
/// unterminated sequence, in particular whenever `first` is at most
/// `MAX_BUFFER_LEN` bytes long (`lemma_short_input_not_truncated`).
pub proof fn lemma_scan_chunking_records(first: Seq<u8>, second: Seq<u8>, parse_extended_markers: bool)
    requires
        !scan_truncates(first, parse_extended_markers),
    ensures
        merge_outputs(
            piece_records(scan(first, parse_extended_markers).0) + piece_records(
                scan(scan(first, parse_extended_markers).1 + second, parse_extended_markers).0,
            ),
        ) == merge_outputs(piece_records(scan(first + second, parse_extended_markers).0)),
        scan(scan(first, parse_extended_markers).1 + second, parse_extended_markers).1 == scan(
            first + second,
            parse_extended_markers,
        ).1,
{
    let ext = parse_extended_markers;
    lemma_scan_chunking_items(first, second, ext);
    lemma_scan_chunking(first, second, ext);
    lemma_record_items_append(
        piece_records(scan(first, ext).0),
        piece_records(scan(scan(first, ext).1 + second, ext).0),
    );
}

// ---------------------------------------------------------------------------
// Prefixes that carry no event

/// `x` is one complete OSC sequence that is not an OSC 133 marker the parser
/// recognises: `ESC ]`, a payload free of BEL and ESC that names no event,
/// and a BEL.
pub open spec fn is_foreign_osc_sequence(x: Seq<u8>, parse_extended_markers: bool) -> bool {
    &&& x.len() >= 3
    &&& x[0] == ESC
    &&& x[1] == 0x5d
    &&& x.last() == BEL
    &&& forall|k: int| 2 <= k < x.len() - 1 ==> #[trigger] x[k] != BEL && x[k] != ESC
    &&& parse_payload_spec(x.subrange(2, x.len() - 1), parse_extended_markers) is None
}

/// The first terminator from `s` is the BEL at `j` when none comes before.
proof fn lemma_find_terminator_at(b: Seq<u8>, s: int, j: int)
    requires
        0 <= s <= j < b.len(),
        b[j] == BEL,
        forall|k: int| s <= k < j ==> #[trigger] b[k] != BEL && b[k] != ESC,
    ensures
        find_terminator_from(b, s) == Some((j, 1int)),
    decreases j - s,
{
    if s < j {
        assert(b[s] != BEL && b[s] != ESC);
        lemma_find_terminator_at(b, s + 1, j);
    }
}

/// Plain text without `ESC`, or one complete OSC sequence that is not a
/// recognised OSC 133 marker, in front of any input changes neither the
/// events the parser reports nor the bytes it keeps.
pub proof fn lemma_eventless_prefix(x: Seq<u8>, y: Seq<u8>, parse_extended_markers: bool)
    requires
        (forall|k: int| 0 <= k < x.len() ==> #[trigger] x[k] != ESC) || is_foreign_osc_sequence(
            x,
            parse_extended_markers,
        ),
    ensures
        scan_events(x + y, parse_extended_markers) == scan_events(y, parse_extended_markers),
        scan(x + y, parse_extended_markers).1 == scan(y, parse_extended_markers).1,
{
    let ext = parse_extended_markers;
    let xy = x + y;
    if forall|k: int| 0 <= k < x.len() ==> #[trigger] x[k] != ESC {
        if y.len() > 0 {
            assert forall|k: int| 0 <= k < x.len() implies !is_introducer_at(xy, k) by {
                assert(xy[k] == x[k]);
                assert(x[k] != ESC);
            }
            lemma_scan_skip_plain(x, y, ext);
        } else {
            assert(xy =~= x);
            assert forall|k: int| 0 <= k implies !is_introducer_at(x, k) by {
                if 0 <= k < x.len() {
                    assert(x[k] != ESC);
                }
            }
            lemma_find_introducer_none(x);
            lemma_find_introducer_none(y);
            lemma_output_pieces_no_events(drain_plain(x).0);
            lemma_output_pieces_no_events(drain_plain(y).0);
            if x.len() > 0 {
                assert(x[x.len() - 1] != ESC);
            }
        }
    } else {
        let j = x.len() - 1;
        assert(is_introducer_at(xy, 0)) by {
            assert(xy[0] == x[0] && xy[1] == x[1]);
        }
        assert(find_introducer_from(xy, 0) == Some(0int));
        assert(xy.skip(0) =~= xy);
        assert forall|k: int| 2 <= k < j implies #[trigger] xy[k] != BEL && xy[k] != ESC by {
            assert(xy[k] == x[k]);
        }
        assert(xy[j] == BEL);
        lemma_find_terminator_at(xy, 2, j);
        assert(xy.take(j + 1) =~= x);
        assert(xy.skip(j + 1) =~= y);
        assert(x.subrange(2, j) =~= x.subrange(2, x.len() - 1));
        let piece = sequence_piece(x, j, ext);
        assert(piece == output_piece(x));
        let next = scan(y, ext);
        assert(scan(xy, ext) == (Seq::<Osc133Piece>::empty().push(piece) + next.0, next.1));
        let one = Seq::<Osc133Piece>::empty().push(piece);
        lemma_output_pieces_no_events(one);
        lemma_piece_records_append(one, next.0);
        lemma_record_events_append(piece_records(one), piece_records(next.0));
        assert(Seq::<Osc133EventModel>::empty() + record_events(piece_records(next.0))
            =~= record_events(piece_records(next.0)));
    }
}

// ---------------------------------------------------------------------------
// Exit statuses

proof fn lemma_segment_end_without_separator(s: Seq<u8>, start: int)
    requires
        0 <= start,
        forall|k: int| start <= k < s.len() ==> #[trigger] s[k] != 0x3b,
    ensures
        segment_end(s, start) == s.len(),
    decreases s.len() - start,
{
    if start < s.len() {
        lemma_segment_end_without_separator(s, start + 1);
    }
}

/// Status parsing inverts decimal formatting: the decimal digits of any
/// non-negative `i32` read back as that status, with or without extended
/// markers.
pub proof fn lemma_status_reads_decimal(n: i32, parse_extended_markers: bool)
    requires
        n >= 0,
    ensures
        parse_status_spec(decimal_bytes(n as nat), parse_extended_markers) == Some(n),
{
    let d = decimal_bytes(n as nat);
    lemma_decimal_bytes_digits(n as nat);
    lemma_parse_decimal_bytes(n);
    assert forall|k: int| 0 <= k < d.len() implies #[trigger] d[k] != 0x3b by {
        assert(crate::text::is_ascii_digit(d[k]));
    }
    lemma_segment_end_without_separator(d, 0);
    assert(d.take(d.len() as int) =~= d);
}

/// The payload `133;D;` followed by the decimal digits of a non-negative
/// `i32` stands for a finished command with that exit status.
pub proof fn lemma_finished_payload_status(n: i32, parse_extended_markers: bool)
    requires
        n >= 0,
    ensures
        parse_payload_spec(
            seq![0x31u8, 0x33u8, 0x33u8, 0x3bu8, 0x44u8, 0x3bu8] + decimal_bytes(n as nat),
            parse_extended_markers,
        ) == Some(Osc133EventModel::CommandFinished { status: Some(n) }),
{
    let d = decimal_bytes(n as nat);
    let payload = seq![0x31u8, 0x33u8, 0x33u8, 0x3bu8, 0x44u8, 0x3bu8] + d;
    lemma_decimal_bytes_digits(n as nat);
    lemma_status_reads_decimal(n, parse_extended_markers);
    let m = payload.skip(4);
    assert(m =~= seq![0x44u8, 0x3bu8] + d);
    assert(m.skip(2) =~= d);
    assert(m[0] == 0x44u8 && m[1] == 0x3bu8 && m.len() >= 3);
}

/// One complete OSC sequence `ESC ] p BEL`, its payload free of BEL and ESC,
/// gives the event its payload names, if any, and leaves nothing buffered.
pub proof fn lemma_single_sequence_events(p: Seq<u8>, parse_extended_markers: bool)
    requires
        forall|k: int| 0 <= k < p.len() ==> #[trigger] p[k] != BEL && p[k] != ESC,
    ensures
        scan_events(seq![ESC, 0x5du8] + p + seq![BEL], parse_extended_markers) == match parse_payload_spec(
            p,
            parse_extended_markers,
        ) {
            Some(e) => seq![e],
            None => Seq::<Osc133EventModel>::empty(),
        },
        scan(seq![ESC, 0x5du8] + p + seq![BEL], parse_extended_markers).1 == Seq::<u8>::empty(),
{
    let ext = parse_extended_markers;
    let x = seq![ESC, 0x5du8] + p + seq![BEL];
    let j = x.len() - 1;
    assert(is_introducer_at(x, 0));
    assert(find_introducer_from(x, 0) == Some(0int));
    assert(x.skip(0) =~= x);
    assert forall|k: int| 2 <= k < j implies #[trigger] x[k] != BEL && x[k] != ESC by {
        assert(x[k] == p[k - 2]);
    }
    lemma_find_terminator_at(x, 2, j);
    assert(x.take(j + 1) =~= x);
    assert(x.skip(j + 1) =~= Seq::<u8>::empty());
    assert(x.subrange(2, j) =~= p);
    let piece = sequence_piece(x, j, ext);
    let empty = Seq::<u8>::empty();
    assert(find_introducer_from(empty, 0) is None);
    let next = scan(empty, ext);
    assert(next.0 =~= Seq::<Osc133Piece>::empty());
    let one = Seq::<Osc133Piece>::empty().push(piece);
    assert(scan(x, ext) == (one + next.0, next.1));
    assert(one + next.0 =~= one);
    let r = piece_records(one);
    assert(r.len() == 1 && r.last() == piece.record);
    assert(r.drop_last() =~= Seq::<Osc133RecordModel>::empty());
    assert(record_events(r.drop_last()) == Seq::<Osc133EventModel>::empty());
    match parse_payload_spec(p, ext) {
        Some(e) => {
            assert(piece.record == Osc133RecordModel::Event(e));
            assert(record_events(r) =~= seq![e]);
        },
        None => {
            assert(piece.record is Output);
        },
    }
}

/// A command-finished marker `ESC ] 133;D;<n> BEL` reports exactly the exit
/// status `n`, for every non-negative `i32` `n`.
pub proof fn lemma_finished_marker_reports_status(n: i32, parse_extended_markers: bool)
    requires
        n >= 0,
    ensures
        scan_events(
            seq![ESC, 0x5du8] + (seq![0x31u8, 0x33u8, 0x33u8, 0x3bu8, 0x44u8, 0x3bu8] + decimal_bytes(
                n as nat,
            )) + seq![BEL],
            parse_extended_markers,
        ) == seq![Osc133EventModel::CommandFinished { status: Some(n) }],
{
    let d = decimal_bytes(n as nat);
    let p = seq![0x31u8, 0x33u8, 0x33u8, 0x3bu8, 0x44u8, 0x3bu8] + d;
    lemma_decimal_bytes_digits(n as nat);
    assert forall|k: int| 0 <= k < p.len() implies #[trigger] p[k] != BEL && p[k] != ESC by {
        if k >= 6 {
            assert(p[k] == d[k - 6]);
            assert(crate::text::is_ascii_digit(d[k - 6]));
        }
    }
    lemma_finished_payload_status(n, parse_extended_markers);
    lemma_single_sequence_events(p, parse_extended_markers);
}

} // verus!
