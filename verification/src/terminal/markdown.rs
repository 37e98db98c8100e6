//! Markdown (and plain-value) export of command blocks: a section per
//! block, a summary table, and a report with the captured output.

use vstd::prelude::*;
use vstd::utf8::{valid_utf8, decode_utf8};
use vstd::arithmetic::power2::{pow2, lemma2_to64, lemma2_to64_rest, lemma_pow2_adds, lemma_pow2_pos, lemma_pow2_unfold, lemma_pow2_strictly_increases};
use super::command_block::{CommandBlock, CommandBlockModel, block_duration, block_has_output_metadata, block_models};
use super::timestamp::ElapsedTime;
use crate::text::{chars_are_blank, chars_of, decimal, digit_char, is_blank, push_char, push_decimal, push_i32, push_str, signed_decimal, string_from_chars};

verus! {

// ---------------------------------------------------------------------------
// Numbers

/// `n / d` rounded to the nearest integer, ties to the even one.
pub open spec fn round_half_even(n: nat, d: nat) -> nat
    recommends
        d > 0,
{
    let q = n / d;
    let r = n % d;
    if 2 * r > d {
        q + 1
    } else if 2 * r < d {
        q
    } else if q % 2 == 0 {
        q
    } else {
        q + 1
    }
}

/// A count of tenths written with one decimal, as `{:.1}` does, and with a
/// trailing `.0` dropped.
pub open spec fn tenths_text(t: nat) -> Seq<char> {
    if t % 10 == 0 {
        decimal(t / 10)
    } else {
        decimal(t / 10).push('.').push(digit_char(t % 10))
    }
}

/// The smallest `e`, from `e` on, at which `n * 2^e` reaches
/// `2^52 * 10^9`: the scale at which `n / 10^9` has a 53-bit significand.
pub open spec fn quotient_exponent_from(n: nat, e: nat) -> nat
    decreases 90 - e,
{
    if e >= 90 || n * pow2(e) >= pow2(52) * 1_000_000_000 {
        e
    } else {
        quotient_exponent_from(n, e + 1)
    }
}

/// The seconds of a duration as the double `Duration::as_secs_f64` gives,
/// counted in tenths as `{:.1}` rounds them: the fraction `n / 10^9` is
/// rounded to a double, added to the whole seconds and rounded again to a
/// double, and that value is rounded to tenths, ties to even. (For a value
/// of at most ten seconds.)
pub open spec fn secs_f64_tenths(nanos: nat) -> nat {
    let s = nanos / 1_000_000_000;
    let n = nanos % 1_000_000_000;
    if n == 0 {
        10 * s
    } else {
        let e = quotient_exponent_from(n, 0);
        let fraction = round_half_even(n * pow2(e), 1_000_000_000);
        round_half_even(10 * f64_value(s * pow2(e) + fraction), pow2(e))
    }
}

/// A duration as shown in exports: whole milliseconds below one second,
/// seconds with one decimal below ten seconds, whole seconds above.
pub open spec fn duration_text(nanos: nat) -> Seq<char> {
    if nanos / 1_000_000 < 1000 {
        decimal(nanos / 1_000_000) + "ms"@
    } else if nanos < 10_000_000_000 {
        tenths_text(secs_f64_tenths(nanos)) + "s"@
    } else {
        decimal(nanos / 1_000_000_000) + "s"@
    }
}

/// The number of binary digits of `n`.
pub open spec fn bit_length(n: nat) -> nat
    decreases n,
{
    if n == 0 {
        0
    } else {
        1 + bit_length(n / 2)
    }
}

/// The value of `n as f64`: `n` itself when it has at most 53 significant
/// bits, otherwise `n` rounded to 53 significant bits, ties to even.
pub open spec fn f64_value(n: nat) -> nat {
    if bit_length(n) <= 53 {
        n
    } else {
        let e = (bit_length(n) - 53) as nat;
        round_half_even(n, pow2(e)) * pow2(e)
    }
}

/// A byte count as shown in exports: bytes below 1024, otherwise KiB below
/// 1024 KiB and MiB above, with one decimal and a trailing `.0` dropped.
pub open spec fn byte_size_text(bytes: nat) -> Seq<char> {
    if bytes < 1024 {
        decimal(bytes) + " B"@
    } else if f64_value(bytes) < 1_048_576 {
        tenths_text(round_half_even(f64_value(bytes) * 10, 1024)) + " KiB"@
    } else {
        tenths_text(round_half_even(f64_value(bytes) * 10, 1_048_576)) + " MiB"@
    }
}

fn rounded_quotient(n: u128, d: u128) -> (q: u128)
    requires
        d > 0,
        n / d < u128::MAX,
    ensures
        q == round_half_even(n as nat, d as nat),
{
    let q = n / d;
    let r = n % d;
    if r > d - r {
        q + 1
    } else if r < d - r {
        q
    } else if q % 2 == 0 {
        q
    } else {
        q + 1
    }
}

fn push_tenths(s: &mut String, t: u128)
    ensures
        final(s)@ == old(s)@ + tenths_text(t as nat),
{
    push_decimal(s, t / 10);
    if t % 10 != 0 {
        push_char(s, '.');
        push_decimal(s, t % 10);
        proof {
            let d = (t % 10) as nat;
            assert(decimal(d) =~= seq![digit_char(d)]);
        }
    }
    proof {
        let t = t as nat;
        if t % 10 == 0 {
            assert(final(s)@ =~= old(s)@ + tenths_text(t));
        } else {
            assert(final(s)@ =~= old(s)@ + tenths_text(t));
        }
    }
}

/// The tenths of seconds that `{:.1}` shows for a duration of one to ten
/// seconds.
fn secs_f64_tenths_below_ten(nanos: u128) -> (tenths: u128)
    requires
        1_000_000_000 <= nanos < 10_000_000_000,
    ensures
        tenths == secs_f64_tenths(nanos as nat),
{
    let s = nanos / 1_000_000_000;
    let n = nanos % 1_000_000_000;
    if n == 0 {
        return 10 * s;
    }
    let target: u128 = 0x10_0000_0000_0000 * 1_000_000_000;
    proof {
        lemma2_to64();
        lemma2_to64_rest();
        lemma_pow2_adds(64, 19);
        lemma2_to64();
        assert(pow2(19) == 0x8_0000);
        assert(pow2(83) == 0x8_0000_0000_0000_0000_0000);
        assert(target == pow2(52) * 1_000_000_000);
    }
    let mut e: u64 = 0;
    let mut scaled: u128 = n;
    let mut p: u128 = 1;
    while scaled < target
        invariant
            1 <= n < 1_000_000_000,
            target == pow2(52) * 1_000_000_000,
            target == 0x10_0000_0000_0000 * 1_000_000_000,
            pow2(83) == 0x8_0000_0000_0000_0000_0000,
            p == pow2(e as nat),
            scaled == n * p,
            e <= 83,
            scaled < 2 * target,
            quotient_exponent_from(n as nat, 0) == quotient_exponent_from(n as nat, e as nat),
        decreases 83 - e,
    {
        proof {
            assert(p <= scaled) by (nonlinear_arith)
                requires scaled == n * p, n >= 1, p >= 0;
            if e >= 83 {
                lemma_pow2_monotonic(83, e as nat);
            }
            assert(e < 83);
            lemma_pow2_unfold((e + 1) as nat);
        }
        scaled = scaled * 2;
        p = p * 2;
        e = e + 1;
        proof {
            assert(scaled == n * p) by (nonlinear_arith)
                requires scaled == 2 * (n * (p / 2)), p % 2 == 0;
        }
    }
    proof {
        assert(quotient_exponent_from(n as nat, e as nat) == e);
        assert(scaled / 1_000_000_000 < pow2(53)) by {
            lemma2_to64_rest();
        }
    }
    let fraction = rounded_quotient(scaled, 1_000_000_000);
    proof {
        lemma2_to64_rest();
        assert(fraction <= pow2(53));
        lemma_pow2_monotonic(e as nat, 83);
        assert(s * p <= 9 * pow2(83)) by (nonlinear_arith)
            requires s <= 9, p <= pow2(83);
    }
    let value = f64_rounded(s * p + fraction);
    let tenths = rounded_quotient(10 * value, p);
    tenths
}

/// Formats a command duration.
pub fn format_command_block_duration(duration: ElapsedTime) -> (text: String)
    ensures
        text@ == duration_text(duration@),
{
    let nanos = duration.as_nanos();
    let millis = duration.as_millis();
    let mut text = String::new();
    if millis < 1000 {
        push_decimal(&mut text, millis);
        push_str(&mut text, "ms");
    } else if nanos < 10_000_000_000 {
        let tenths = secs_f64_tenths_below_ten(nanos);
        push_tenths(&mut text, tenths);
        push_str(&mut text, "s");
    } else {
        push_decimal(&mut text, duration.as_secs());
        push_str(&mut text, "s");
    }
    proof {
        assert(text@ =~= duration_text(duration@));
    }
    text
}


proof fn lemma_bit_length_bounds(n: nat)
    ensures
        n < pow2(bit_length(n)),
    decreases n,
{
    if n > 0 {
        lemma_bit_length_bounds(n / 2);
        lemma_pow2_unfold(bit_length(n));
    } else {
        lemma2_to64();
    }
}

proof fn lemma_pow2_monotonic(a: nat, b: nat)
    requires
        a <= b,
    ensures
        pow2(a) <= pow2(b),
{
    if a < b {
        lemma_pow2_strictly_increases(a, b);
    }
}

/// `2^100`, the bound below which integers are rounded to doubles here.
spec fn two_to_100() -> nat {
    0x10_0000_0000_0000_0000_0000_0000
}

proof fn lemma_pow2_100()
    ensures
        pow2(100) == two_to_100(),
{
    lemma2_to64();
    lemma_pow2_adds(64, 36);
    lemma_pow2_adds(32, 4);
}

/// `n` rounded to 53 significant bits, ties to even: the value of the
/// nearest double (exactly an integer here).
fn f64_rounded(n: u128) -> (v: u128)
    requires
        n < 0x10_0000_0000_0000_0000_0000_0000,
    ensures
        v == f64_value(n as nat),
        v <= 0x10_0000_0000_0000_0000_0000_0000,
{
    let mut len: u64 = 0;
    let mut m: u128 = n;
    proof {
        lemma2_to64();
        lemma_pow2_100();
    }
    while m > 0
        invariant
            bit_length(n as nat) == len + bit_length(m as nat),
            len <= 100,
            m as nat * pow2(len as nat) <= n,
            n < two_to_100(),
            pow2(100) == two_to_100(),
        decreases m,
    {
        proof {
            lemma_pow2_unfold((len + 1) as nat);
            assert((m / 2) as nat * pow2((len + 1) as nat) <= m as nat * pow2(len as nat)) by (nonlinear_arith)
                requires pow2((len + 1) as nat) == 2 * pow2(len as nat);
            if len == 100 {
                assert(m as nat * pow2(100) >= pow2(100)) by (nonlinear_arith)
                    requires m >= 1, pow2(100) >= 1;
            }
        }
        m = m / 2;
        len = len + 1;
    }
    if len <= 53 {
        return n;
    }
    let e = len - 53;
    let mut p: u128 = 1;
    let mut k: u64 = 0;
    proof {
        lemma2_to64();
    }
    while k < e
        invariant
            k <= e <= 47,
            p == pow2(k as nat),
        decreases e - k,
    {
        proof {
            lemma_pow2_monotonic(k as nat, 47);
            lemma2_to64();
            lemma2_to64_rest();
            lemma_pow2_unfold((k + 1) as nat);
        }
        p = p * 2;
        k = k + 1;
    }
    proof {
        lemma_bit_length_bounds(n as nat);
        lemma_pow2_pos(e as nat);
        lemma_pow2_adds(e as nat, 53);
        assert((e + 53) as nat == len as nat);
        lemma2_to64_rest();
        assert(pow2(53) == 0x20_0000_0000_0000);
        assert((n as nat) / (p as nat) < pow2(53)) by (nonlinear_arith)
            requires n < pow2(len as nat), pow2(len as nat) == p * pow2(53), p >= 1;
    }
    let q = rounded_quotient(n, p);
    proof {
        assert(q <= pow2(53));
        lemma_pow2_monotonic(len as nat, 100);
        lemma_pow2_100();
        assert(q * p <= pow2(53) * p) by (nonlinear_arith)
            requires q <= pow2(53), p >= 0;
    }
    q * p
}

/// Formats a byte count for exports.
pub fn format_command_block_output_size(bytes: usize) -> (text: String)
    ensures
        text@ == byte_size_text(bytes as nat),
{
    format_byte_size(bytes)
}

fn format_byte_size(bytes: usize) -> (text: String)
    ensures
        text@ == byte_size_text(bytes as nat),
{
    let mut text = String::new();
    if bytes < 1024 {
        push_decimal(&mut text, bytes as u128);
        push_str(&mut text, " B");
        assert(text@ =~= byte_size_text(bytes as nat));
        return text;
    }
    let value = f64_rounded(bytes as u128);
    if value < 1_048_576 {
        let tenths = rounded_quotient(value * 10, 1024);
        push_tenths(&mut text, tenths);
        push_str(&mut text, " KiB");
    } else {
        let tenths = rounded_quotient(value * 10, 1_048_576);
        push_tenths(&mut text, tenths);
        push_str(&mut text, " MiB");
    }
    assert(text@ =~= byte_size_text(bytes as nat));
    text
}


// ---------------------------------------------------------------------------
// Fields of a block

/// `yes` or `no`.
pub open spec fn yes_no_text(value: bool) -> Seq<char> {
    if value {
        "yes"@
    } else {
        "no"@
    }
}

/// `finished` once the block has an end time, `running` before.
pub open spec fn state_text(b: CommandBlockModel) -> Seq<char> {
    if b.ended_at is Some {
        "finished"@
    } else {
        "running"@
    }
}

/// The exit status, `unknown` when a finished command reported none, and
/// `unfinished` while it runs.
pub open spec fn exit_status_text(b: CommandBlockModel) -> Seq<char> {
    if b.ended_at is None {
        "unfinished"@
    } else {
        match b.exit_status {
            Some(status) => signed_decimal(status as int),
            None => "unknown"@,
        }
    }
}

/// The duration, `unknown` when a finished block ended before it started,
/// and `unfinished` while it runs.
pub open spec fn duration_field_text(b: CommandBlockModel) -> Seq<char> {
    match block_duration(b) {
        Some(nanos) => duration_text(nanos),
        None => if b.ended_at is Some {
            "unknown"@
        } else {
            "unfinished"@
        },
    }
}

/// The command line, if there is one that is not blank.
pub open spec fn export_command(b: CommandBlockModel) -> Option<Seq<char>> {
    match b.command {
        Some(c) => if is_blank(c) {
            None
        } else {
            Some(c)
        },
        None => None,
    }
}

fn yes_no(value: bool) -> (text: &'static str)
    ensures
        text@ == yes_no_text(value),
{
    if value {
        "yes"
    } else {
        "no"
    }
}

pub(crate) fn command_block_state(block: &CommandBlock) -> (text: &'static str)
    ensures
        text@ == state_text(block@),
{
    if block.ended_at.is_some() {
        "finished"
    } else {
        "running"
    }
}

fn command_block_exit_status_for_markdown(block: &CommandBlock) -> (text: String)
    ensures
        text@ == exit_status_text(block@),
{
    let mut text = String::new();
    if block.ended_at.is_none() {
        push_str(&mut text, "unfinished");
    } else {
        match block.exit_status {
            Some(status) => push_i32(&mut text, status),
            None => push_str(&mut text, "unknown"),
        }
    }
    assert(text@ =~= exit_status_text(block@));
    text
}

fn command_block_duration_for_markdown(block: &CommandBlock) -> (text: String)
    ensures
        text@ == duration_field_text(block@),
{
    match block.duration() {
        Some(duration) => format_command_block_duration(duration),
        None => {
            let mut text = String::new();
            if block.ended_at.is_some() {
                push_str(&mut text, "unknown");
            } else {
                push_str(&mut text, "unfinished");
            }
            assert(text@ =~= duration_field_text(block@));
            text
        },
    }
}

/// The command line of a block for export: absent when missing or blank.
pub fn command_text_for_export(block: &CommandBlock) -> (command: Option<&str>)
    ensures
        match command {
            Some(c) => export_command(block@) == Some(c@),
            None => export_command(block@) is None,
        },
{
    match &block.command {
        Some(command) => {
            let chars = chars_of(command.as_str());
            if chars_are_blank(chars.as_slice()) {
                None
            } else {
                Some(command.as_str())
            }
        },
        None => None,
    }
}

// ---------------------------------------------------------------------------
// Escaping and fences

/// How one character is written inside a Markdown table cell.
pub open spec fn escape_cell_char(c: char) -> Seq<char> {
    if c == '\\' {
        seq!['\\', '\\']
    } else if c == '|' {
        seq!['\\', '|']
    } else if c == '\r' {
        seq!['\\', 'r']
    } else if c == '\n' {
        seq!['<', 'b', 'r', '>']
    } else {
        seq![c]
    }
}

/// Text made safe for a Markdown table cell: backslashes and pipes are
/// escaped, carriage returns written as `\r`, newlines as `<br>`.
pub open spec fn escape_cell(text: Seq<char>) -> Seq<char>
    decreases text.len(),
{
    if text.len() == 0 {
        Seq::empty()
    } else {
        escape_cell(text.drop_last()) + escape_cell_char(text.last())
    }
}

/// An escaped cell stays on one line: it holds no newline and no carriage
/// return.
pub proof fn lemma_escaped_cell_is_one_line(text: Seq<char>)
    ensures
        !escape_cell(text).contains('\n'),
        !escape_cell(text).contains('\r'),
    decreases text.len(),
{
    if text.len() > 0 {
        lemma_escaped_cell_is_one_line(text.drop_last());
        let prefix = escape_cell(text.drop_last());
        let tail = escape_cell_char(text.last());
        assert(!tail.contains('\n') && !tail.contains('\r'));
        assert forall|c: char| c == '\n' || c == '\r' implies !(prefix + tail).contains(c) by {
            if (prefix + tail).contains(c) {
                let k = choose|k: int| 0 <= k < (prefix + tail).len() && (prefix + tail)[k] == c;
                if k < prefix.len() {
                    assert(prefix[k] == c);
                } else {
                    assert(tail[k - prefix.len()] == c);
                }
            }
        }
    }
}

/// Escapes text for a Markdown table cell.
pub fn escape_markdown_table_cell(text: &str) -> (escaped: String)
    ensures
        escaped@ == escape_cell(text@),
{
    let chars = chars_of(text);
    let mut escaped = String::new();
    let mut i: usize = 0;
    while i < chars.len()
        invariant
            i <= chars@.len(),
            chars@ == text@,
            escaped@ == escape_cell(chars@.take(i as int)),
        decreases chars@.len() - i,
    {
        let c = chars[i];
        let ghost before = escaped@;
        if c == '\\' {
            push_char(&mut escaped, '\\');
            push_char(&mut escaped, '\\');
        } else if c == '|' {
            push_char(&mut escaped, '\\');
            push_char(&mut escaped, '|');
        } else if c == '\r' {
            push_char(&mut escaped, '\\');
            push_char(&mut escaped, 'r');
        } else if c == '\n' {
            push_char(&mut escaped, '<');
            push_char(&mut escaped, 'b');
            push_char(&mut escaped, 'r');
            push_char(&mut escaped, '>');
        } else {
            push_char(&mut escaped, c);
        }
        proof {
            assert(chars@.take(i + 1).drop_last() =~= chars@.take(i as int));
            assert(escaped@ =~= before + escape_cell_char(c));
        }
        i += 1;
    }
    assert(chars@.take(chars@.len() as int) =~= chars@);
    escaped
}

/// The longest run of consecutive backticks seen so far, and the length of
/// the run that the text ends with.
pub open spec fn backtick_runs(text: Seq<char>) -> (nat, nat)
    decreases text.len(),
{
    if text.len() == 0 {
        (0, 0)
    } else {
        let (longest, current) = backtick_runs(text.drop_last());
        if text.last() == '`' {
            let c = current + 1;
            (if c > longest {
                c
            } else {
                longest
            }, c)
        } else {
            (longest, 0)
        }
    }
}

/// The length of the longest run of consecutive backticks in `text`.
pub open spec fn longest_backtick_run_spec(text: Seq<char>) -> nat {
    backtick_runs(text).0
}

proof fn lemma_backtick_runs_bounded(text: Seq<char>)
    ensures
        backtick_runs(text).1 <= backtick_runs(text).0 <= text.len(),
    decreases text.len(),
{
    if text.len() > 0 {
        lemma_backtick_runs_bounded(text.drop_last());
    }
}

fn longest_backtick_run(text: &[char]) -> (longest: usize)
    ensures
        longest == longest_backtick_run_spec(text@),
{
    let mut longest: usize = 0;
    let mut current: usize = 0;
    let mut i: usize = 0;
    while i < text.len()
        invariant
            i <= text@.len(),
            (longest as nat, current as nat) == backtick_runs(text@.take(i as int)),
            current <= longest <= i,
        decreases text@.len() - i,
    {
        proof {
            assert(text@.take(i + 1).drop_last() =~= text@.take(i as int));
        }
        if text[i] == '`' {
            current += 1;
            if current > longest {
                longest = current;
            }
        } else {
            current = 0;
        }
        i += 1;
    }
    assert(text@.take(text@.len() as int) =~= text@);
    longest
}

/// The number of backticks in the fence around `text`: one more than its
/// longest run of backticks, and at least three.
pub open spec fn fence_len(text: Seq<char>) -> nat {
    let run = longest_backtick_run_spec(text);
    let n = if run < usize::MAX {
        run + 1
    } else {
        run
    };
    if n > 3 {
        n
    } else {
        3
    }
}

/// Every character of `text[i..j]` is a backtick.
pub open spec fn all_backticks(text: Seq<char>, i: int, j: int) -> bool {
    forall|k: int| i <= k < j ==> text[k] == '`'
}

proof fn lemma_backtick_runs_cover(text: Seq<char>)
    ensures
        forall|i: int, j: int|
            0 <= i <= j <= text.len() && #[trigger] all_backticks(text, i, j)
                ==> j - i <= backtick_runs(text).0,
        forall|i: int|
            0 <= i <= text.len() && #[trigger] all_backticks(text, i, text.len() as int)
                ==> text.len() - i <= backtick_runs(text).1,
    decreases text.len(),
{
    if text.len() > 0 {
        let p = text.drop_last();
        lemma_backtick_runs_cover(p);
        assert forall|i: int, j: int|
            0 <= i <= j <= text.len() && #[trigger] all_backticks(text, i, j) implies j - i
            <= backtick_runs(text).0 by {
            if j < text.len() {
                assert(all_backticks(p, i, j));
            } else if i < j {
                assert(all_backticks(p, i, p.len() as int));
                assert(text[text.len() - 1] == '`');
            }
        }
        assert forall|i: int|
            0 <= i <= text.len() && #[trigger] all_backticks(text, i, text.len() as int) implies text.len()
            - i <= backtick_runs(text).1 by {
            if i < text.len() {
                assert(all_backticks(p, i, p.len() as int));
                assert(text[text.len() - 1] == '`');
            }
        }
    }
}

/// The fence is longer than every run of backticks in the text, so nothing
/// inside a fenced block can close it early.
pub proof fn lemma_fence_outlasts_backtick_runs(text: Seq<char>, i: int, j: int)
    requires
        text.len() < usize::MAX,
        0 <= i <= j <= text.len(),
        all_backticks(text, i, j),
    ensures
        j - i < fence_len(text),
        3 <= fence_len(text),
{
    lemma_backtick_runs_cover(text);
    lemma_backtick_runs_bounded(text);
}

/// A fenced code block in Markdown: the fence and the language tag, the
/// text on its own lines (a final newline added when missing), the fence.
pub open spec fn fenced_text(language: Seq<char>, text: Seq<char>) -> Seq<char> {
    let fence = Seq::new(fence_len(text), |i: int| '`');
    fence + language + seq!['\n'] + text + (if text.len() > 0 && text.last() != '\n' {
        seq!['\n']
    } else {
        Seq::empty()
    }) + fence
}

fn push_fence(s: &mut String, n: usize)
    ensures
        final(s)@ == old(s)@ + Seq::new(n as nat, |i: int| '`'),
{
    let mut k: usize = 0;
    while k < n
        invariant
            k <= n,
            s@ == old(s)@ + Seq::new(k as nat, |i: int| '`'),
        decreases n - k,
    {
        push_char(s, '`');
        k += 1;
        assert(s@ =~= old(s)@ + Seq::new(k as nat, |i: int| '`'));
    }
}

fn fenced_block(language: &str, text: &str) -> (block: String)
    ensures
        block@ == fenced_text(language@, text@),
{
    let chars = chars_of(text);
    let run = longest_backtick_run(chars.as_slice());
    let n = run.saturating_add(1);
    let fence_n = if n > 3 { n } else { 3 };
    let mut block = String::new();
    push_fence(&mut block, fence_n);
    push_str(&mut block, language);
    push_char(&mut block, '\n');
    push_str(&mut block, text);
    let len = chars.len();
    if len > 0 && chars[len - 1] != '\n' {
        push_char(&mut block, '\n');
    }
    push_fence(&mut block, fence_n);
    proof {
        let fence = Seq::new(fence_len(text@), |i: int| '`');
        assert(fence_n == fence_len(text@));
        assert(block@ =~= fenced_text(language@, text@));
    }
    block
}

fn fenced_command_block(command: &str) -> (block: String)
    ensures
        block@ == fenced_text("sh"@, command@),
{
    fenced_block("sh", command)
}


// ---------------------------------------------------------------------------
// Captured output

/// The text that `String::from_utf8_lossy` makes of `bytes`: their UTF-8
/// decoding, with each invalid sequence replaced by U+FFFD.
pub uninterp spec fn utf8_lossy(bytes: Seq<u8>) -> Seq<char>;

/// Decodes bytes as UTF-8, replacing invalid sequences
/// (`String::from_utf8_lossy(..).into_owned()`). Trusted: the result is the
/// named decoding of the bytes, and for valid UTF-8 it is exactly the
/// characters they encode.
#[verifier::external_body]
fn lossy_utf8_string(bytes: &[u8]) -> (text: String)
    ensures
        text@ == utf8_lossy(bytes@),
        valid_utf8(bytes@) ==> text@ == decode_utf8(bytes@),
{
    String::from_utf8_lossy(bytes).into_owned()
}

/// The captured output with the truncation note appended, on a line of its
/// own.
pub open spec fn with_truncation_note(output: Seq<char>) -> Seq<char> {
    (if output.len() > 0 && output.last() != '\n' {
        output.push('\n')
    } else {
        output
    }) + "[output truncated]"@
}

fn append_output_truncation_note(output: &mut String)
    ensures
        final(output)@ == with_truncation_note(old(output)@),
{
    let chars = chars_of(output.as_str());
    let len = chars.len();
    if len > 0 && chars[len - 1] != '\n' {
        push_char(output, '\n');
    }
    push_str(output, "[output truncated]");
}

/// The captured output as text.
pub open spec fn output_text(b: CommandBlockModel) -> Seq<char> {
    utf8_lossy(b.output)
}

/// The report of one block whose captured output reads as `output`:
/// status, duration, output size and truncation, the command in a `fish`
/// fence, and the output (with the truncation note when it was cut) in a
/// `text` fence.
pub open spec fn block_report_with(b: CommandBlockModel, output: Seq<char>) -> Seq<char> {
    let shown = if b.output_truncated {
        with_truncation_note(output)
    } else {
        output
    };
    report_head(b) + fenced_text("text"@, shown) + "\n"@
}

/// The part of a block's report before its output: status, duration,
/// output size and truncation, and the command in a `fish` fence.
pub open spec fn report_head(b: CommandBlockModel) -> Seq<char> {
    let command = match export_command(b) {
        Some(c) => c,
        None => "<unknown command>"@,
    };
    "## Command #"@ + decimal(b.id as nat) + "\n\n- Status: `"@ + exit_status_text(b)
        + "`\n- Duration: `"@ + duration_field_text(b) + "`\n- Output: `"@ + byte_size_text(
        b.output.len(),
    ) + "`\n- Truncated: `"@ + (if b.output_truncated {
        "true"@
    } else {
        "false"@
    }) + "`\n\n### Command\n\n"@ + fenced_text("fish"@, command) + "\n\n### Output\n\n"@
}

/// The report of one block with its captured output decoded as text.
pub open spec fn block_report(b: CommandBlockModel) -> Seq<char> {
    block_report_with(b, output_text(b))
}

/// Formats the report of a block whose captured output reads as
/// `output_text`.
pub fn format_command_block_report(block: &CommandBlock, output_text: &str) -> (markdown: String)
    ensures
        markdown@ == block_report_with(block@, output_text@),
{
    let command = match command_text_for_export(block) {
        Some(c) => c,
        None => "<unknown command>",
    };
    let mut output = String::new();
    push_str(&mut output, output_text);
    if block.output_truncated {
        append_output_truncation_note(&mut output);
    }
    let mut markdown = String::new();
    push_str(&mut markdown, "## Command #");
    push_decimal(&mut markdown, block.id.as_u64() as u128);
    push_str(&mut markdown, "\n\n- Status: `");
    let status = command_block_exit_status_for_markdown(block);
    push_str(&mut markdown, status.as_str());
    push_str(&mut markdown, "`\n- Duration: `");
    let duration = command_block_duration_for_markdown(block);
    push_str(&mut markdown, duration.as_str());
    push_str(&mut markdown, "`\n- Output: `");
    let size = format_command_block_output_size(block.output_bytes.len());
    push_str(&mut markdown, size.as_str());
    push_str(&mut markdown, "`\n- Truncated: `");
    push_str(&mut markdown, if block.output_truncated { "true" } else { "false" });
    push_str(&mut markdown, "`\n\n### Command\n\n");
    let command_fence = fenced_block("fish", command);
    push_str(&mut markdown, command_fence.as_str());
    push_str(&mut markdown, "\n\n### Output\n\n");
    let output_fence = fenced_block("text", output.as_str());
    push_str(&mut markdown, output_fence.as_str());
    push_str(&mut markdown, "\n");
    proof {
        assert(markdown@ =~= block_report_with(block@, output_text@));
    }
    markdown
}

impl CommandBlock {
    /// The captured output, decoded as UTF-8 with invalid sequences replaced.
    pub fn captured_output_lossy_text(&self) -> (text: String)
        ensures
            text@ == output_text(self@),
            valid_utf8(self@.output) ==> text@ == decode_utf8(self@.output),
    {
        lossy_utf8_string(self.output_bytes.as_slice())
    }

    /// The Markdown report of this block, with its captured output.
    pub fn to_markdown_with_output(&self) -> (markdown: String)
        ensures
            markdown@ == block_report(self@),
    {
        let output = self.captured_output_lossy_text();
        format_command_block_report(self, output.as_str())
    }
}


// ---------------------------------------------------------------------------
// Sections and tables

/// The Markdown section of one block: number, state, exit status, duration,
/// the command in an `sh` fence (or `<unknown command>`), and, when there is
/// output to report, its size and whether it was truncated.
pub open spec fn block_section(b: CommandBlockModel) -> Seq<char> {
    "## Command Block #"@ + decimal(b.id as nat) + "\n\n- State: "@ + state_text(b)
        + "\n- Exit status: "@ + exit_status_text(b) + "\n- Duration: "@ + duration_field_text(b)
        + "\n"@ + (match export_command(b) {
        Some(c) => "- Command:\n\n"@ + fenced_text("sh"@, c) + "\n"@,
        None => "- Command: <unknown command>\n"@,
    }) + (if block_has_output_metadata(b) {
        "- Output: "@ + byte_size_text(b.output.len()) + "\n- Output truncated: "@ + yes_no_text(
            b.output_truncated,
        ) + "\n"@
    } else {
        Seq::empty()
    })
}

/// Formats the Markdown section of one block.
pub fn format_command_block_markdown(block: &CommandBlock) -> (markdown: String)
    ensures
        markdown@ == block_section(block@),
{
    let mut markdown = String::new();
    push_str(&mut markdown, "## Command Block #");
    push_decimal(&mut markdown, block.id.as_u64() as u128);
    push_str(&mut markdown, "\n\n- State: ");
    push_str(&mut markdown, command_block_state(block));
    push_str(&mut markdown, "\n- Exit status: ");
    let status = command_block_exit_status_for_markdown(block);
    push_str(&mut markdown, status.as_str());
    push_str(&mut markdown, "\n- Duration: ");
    let duration = command_block_duration_for_markdown(block);
    push_str(&mut markdown, duration.as_str());
    push_str(&mut markdown, "\n");
    let ghost head = markdown@;
    match command_text_for_export(block) {
        Some(command) => {
            push_str(&mut markdown, "- Command:\n\n");
            let fence = fenced_command_block(command);
            push_str(&mut markdown, fence.as_str());
            push_str(&mut markdown, "\n");
        },
        None => {
            push_str(&mut markdown, "- Command: <unknown command>\n");
        },
    }
    let ghost with_command = markdown@;
    if block.has_output_metadata() {
        push_str(&mut markdown, "- Output: ");
        let size = format_command_block_output_size(block.output_bytes.len());
        push_str(&mut markdown, size.as_str());
        push_str(&mut markdown, "\n- Output truncated: ");
        push_str(&mut markdown, yes_no(block.output_truncated));
        push_str(&mut markdown, "\n");
    }
    proof {
        assert(markdown@ =~= block_section(block@));
    }
    markdown
}

/// The output-size cell of a table row: empty when there is nothing to
/// report.
pub open spec fn output_cell(b: CommandBlockModel) -> Seq<char> {
    if block_has_output_metadata(b) {
        byte_size_text(b.output.len())
    } else {
        Seq::empty()
    }
}

/// The truncation cell of a table row: empty when there is nothing to report.
pub open spec fn truncated_cell(b: CommandBlockModel) -> Seq<char> {
    if block_has_output_metadata(b) {
        yes_no_text(b.output_truncated)
    } else {
        Seq::empty()
    }
}

/// The command cell of a table row.
pub open spec fn command_cell(b: CommandBlockModel) -> Seq<char> {
    match export_command(b) {
        Some(c) => escape_cell(c),
        None => "<unknown command>"@,
    }
}

/// The leading cells of a table row: number, state, exit status, duration.
pub open spec fn row_head(b: CommandBlockModel) -> Seq<char> {
    "| #"@ + decimal(b.id as nat) + " | "@ + state_text(b) + " | "@ + exit_status_text(b)
        + " | "@ + duration_field_text(b) + " | "@
}

/// The output cells of a table row, each followed by its separator.
pub open spec fn row_output_cells(b: CommandBlockModel) -> Seq<char> {
    output_cell(b) + " | "@ + truncated_cell(b) + " | "@
}

/// One table row; with output columns when `with_output` holds.
pub open spec fn table_row(b: CommandBlockModel, with_output: bool) -> Seq<char> {
    row_head(b) + (if with_output {
        row_output_cells(b)
    } else {
        Seq::empty()
    }) + command_cell(b) + " |\n"@
}

/// The table rows of the blocks, in order.
pub open spec fn table_rows(blocks: Seq<CommandBlockModel>, with_output: bool) -> Seq<char>
    decreases blocks.len(),
{
    if blocks.len() == 0 {
        Seq::empty()
    } else {
        table_rows(blocks.drop_last(), with_output) + table_row(blocks.last(), with_output)
    }
}

/// Some block has output to report.
pub open spec fn any_output_metadata(blocks: Seq<CommandBlockModel>) -> bool {
    exists|i: int| 0 <= i < blocks.len() && block_has_output_metadata(#[trigger] blocks[i])
}

/// The header of the summary table.
pub open spec fn table_header(with_output: bool) -> Seq<char> {
    if with_output {
        "| Block | State | Exit status | Duration | Output | Output truncated | Command |\n| --- | --- | --- | --- | --- | --- | --- |\n"@
    } else {
        "| Block | State | Exit status | Duration | Command |\n| --- | --- | --- | --- | --- |\n"@
    }
}

/// The text shown instead of an export when there is no block.
pub open spec fn no_blocks_text() -> Seq<char> {
    "_No command blocks._\n"@
}

/// The summary table of the blocks; its output columns appear when any
/// block has output to report.
pub open spec fn blocks_table(blocks: Seq<CommandBlockModel>) -> Seq<char> {
    if blocks.len() == 0 {
        no_blocks_text()
    } else {
        table_header(any_output_metadata(blocks)) + table_rows(blocks, any_output_metadata(blocks))
    }
}

fn push_row_head(markdown: &mut String, block: &CommandBlock)
    ensures
        final(markdown)@ == old(markdown)@ + row_head(block@),
{
    let ghost start = markdown@;
    push_str(markdown, "| #");
    push_decimal(markdown, block.id.as_u64() as u128);
    push_str(markdown, " | ");
    push_str(markdown, command_block_state(block));
    push_str(markdown, " | ");
    let status = command_block_exit_status_for_markdown(block);
    push_str(markdown, status.as_str());
    push_str(markdown, " | ");
    let duration = command_block_duration_for_markdown(block);
    push_str(markdown, duration.as_str());
    push_str(markdown, " | ");
    proof {
        assert(markdown@ =~= start + row_head(block@));
    }
}

fn push_row_output_cells(markdown: &mut String, block: &CommandBlock)
    ensures
        final(markdown)@ == old(markdown)@ + row_output_cells(block@),
{
    let ghost start = markdown@;
    let has_output = block.has_output_metadata();
    if has_output {
        let size = format_command_block_output_size(block.output_bytes.len());
        push_str(markdown, size.as_str());
    }
    push_str(markdown, " | ");
    if has_output {
        push_str(markdown, yes_no(block.output_truncated));
    }
    push_str(markdown, " | ");
    proof {
        assert(markdown@ =~= start + row_output_cells(block@));
    }
}

fn push_command_cell(markdown: &mut String, block: &CommandBlock)
    ensures
        final(markdown)@ == old(markdown)@ + command_cell(block@),
{
    match command_text_for_export(block) {
        Some(command) => {
            let escaped = escape_markdown_table_cell(command);
            push_str(markdown, escaped.as_str());
        },
        None => {
            push_str(markdown, "<unknown command>");
        },
    }
}

fn push_table_row(markdown: &mut String, block: &CommandBlock, with_output: bool)
    ensures
        final(markdown)@ == old(markdown)@ + table_row(block@, with_output),
{
    let ghost start = markdown@;
    push_row_head(markdown, block);
    let ghost after_head = markdown@;
    if with_output {
        push_row_output_cells(markdown, block);
    }
    let ghost after_output = markdown@;
    push_command_cell(markdown, block);
    let ghost after_command = markdown@;
    push_str(markdown, " |\n");
    proof {
        assert(markdown@ =~= start + table_row(block@, with_output));
    }
}

/// Formats the summary table of the blocks.
pub fn format_command_blocks_markdown_table(blocks: &[CommandBlock]) -> (markdown: String)
    ensures
        markdown@ == blocks_table(block_models(blocks@)),
{
    let ghost models = block_models(blocks@);
    let mut markdown = String::new();
    if blocks.len() == 0 {
        push_str(&mut markdown, "_No command blocks._\n");
        return markdown;
    }
    let mut includes_output_metadata = false;
    let mut i: usize = 0;
    while i < blocks.len()
        invariant
            i <= blocks@.len(),
            models == block_models(blocks@),
            includes_output_metadata == exists|k: int|
                0 <= k < i && block_has_output_metadata(#[trigger] models[k]),
        decreases blocks@.len() - i,
    {
        let has = blocks[i].has_output_metadata();
        proof {
            assert(models[i as int] == blocks@[i as int]@);
        }
        if has {
            includes_output_metadata = true;
            assert(block_has_output_metadata(models[i as int]));
        } else {
            assert forall|k: int| 0 <= k < i + 1 && block_has_output_metadata(
                #[trigger] models[k],
            ) implies k < i by {}
        }
        i += 1;
    }
    if includes_output_metadata {
        push_str(
            &mut markdown,
            "| Block | State | Exit status | Duration | Output | Output truncated | Command |\n| --- | --- | --- | --- | --- | --- | --- |\n",
        );
    } else {
        push_str(
            &mut markdown,
            "| Block | State | Exit status | Duration | Command |\n| --- | --- | --- | --- | --- |\n",
        );
    }
    let ghost header = markdown@;
    let mut j: usize = 0;
    while j < blocks.len()
        invariant
            j <= blocks@.len(),
            models == block_models(blocks@),
            markdown@ == header + table_rows(models.take(j as int), includes_output_metadata),
        decreases blocks@.len() - j,
    {
        let ghost before = markdown@;
        push_table_row(&mut markdown, &blocks[j], includes_output_metadata);
        proof {
            assert(models.take(j + 1).drop_last() =~= models.take(j as int));
            assert(models.take(j + 1).last() == blocks@[j as int]@);
            assert(markdown@ =~= header + table_rows(models.take(j + 1), includes_output_metadata));
        }
        j += 1;
    }
    proof {
        assert(models.take(blocks@.len() as int) =~= models);
    }
    markdown
}

/// The reports of all blocks, separated by blank lines.
pub open spec fn block_reports(blocks: Seq<CommandBlockModel>) -> Seq<char>
    decreases blocks.len(),
{
    if blocks.len() == 0 {
        Seq::empty()
    } else if blocks.len() == 1 {
        block_report(blocks[0])
    } else {
        block_reports(blocks.drop_last()) + seq!['\n'] + block_report(blocks.last())
    }
}

/// The report of all blocks with their output.
pub open spec fn blocks_report(blocks: Seq<CommandBlockModel>) -> Seq<char> {
    if blocks.len() == 0 {
        no_blocks_text()
    } else {
        block_reports(blocks)
    }
}

/// Formats the reports of all blocks with their output.
pub fn format_command_blocks_markdown_with_output(blocks: &[CommandBlock]) -> (markdown: String)
    ensures
        markdown@ == blocks_report(block_models(blocks@)),
{
    let ghost models = block_models(blocks@);
    let mut markdown = String::new();
    if blocks.len() == 0 {
        push_str(&mut markdown, "_No command blocks._\n");
        return markdown;
    }
    let mut index: usize = 0;
    while index < blocks.len()
        invariant
            index <= blocks@.len(),
            models == block_models(blocks@),
            markdown@ == block_reports(models.take(index as int)),
        decreases blocks@.len() - index,
    {
        let ghost before = markdown@;
        if index > 0 {
            push_char(&mut markdown, '\n');
        }
        let report = blocks[index].to_markdown_with_output();
        push_str(&mut markdown, report.as_str());
        proof {
            let t = models.take(index + 1);
            assert(t.drop_last() =~= models.take(index as int));
            assert(t.last() == blocks@[index as int]@);
            if index == 0 {
                assert(models.take(0) =~= Seq::<CommandBlockModel>::empty());
                assert(markdown@ =~= block_reports(t));
            } else {
                assert(markdown@ =~= block_reports(t));
            }
        }
        index += 1;
    }
    proof {
        assert(models.take(blocks@.len() as int) =~= models);
    }
    markdown
}

// ---------------------------------------------------------------------------
// Laws of the exports

/// The summary table has its output columns exactly when some block, in
/// any position, captured output or was marked truncated; with no block it
/// says so.
pub proof fn lemma_table_output_columns(blocks: Seq<CommandBlockModel>)
    ensures
        blocks.len() == 0 ==> blocks_table(blocks) == "_No command blocks._\n"@,
        (exists|i: int|
            0 <= i < blocks.len() && ((#[trigger] blocks[i]).output.len() > 0
                || blocks[i].output_truncated)) ==> ({
            let header = "| Block | State | Exit status | Duration | Output | Output truncated | Command |\n| --- | --- | --- | --- | --- | --- | --- |\n"@;
            blocks_table(blocks).take(header.len() as int) == header
        }),
        blocks.len() > 0 && (forall|i: int|
            0 <= i < blocks.len() ==> (#[trigger] blocks[i]).output.len() == 0
                && !blocks[i].output_truncated) ==> ({
            let header = "| Block | State | Exit status | Duration | Command |\n| --- | --- | --- | --- | --- |\n"@;
            blocks_table(blocks).take(header.len() as int) == header
        }),
{
    if blocks.len() > 0 {
        let with_output = any_output_metadata(blocks);
        let header = table_header(with_output);
        let rows = table_rows(blocks, with_output);
        assert((header + rows).take(header.len() as int) =~= header);
        if exists|i: int|
            0 <= i < blocks.len() && ((#[trigger] blocks[i]).output.len() > 0
                || blocks[i].output_truncated) {
            let i = choose|i: int|
                0 <= i < blocks.len() && ((#[trigger] blocks[i]).output.len() > 0
                    || blocks[i].output_truncated);
            assert(block_has_output_metadata(blocks[i]));
        }
        if forall|i: int|
            0 <= i < blocks.len() ==> (#[trigger] blocks[i]).output.len() == 0
                && !blocks[i].output_truncated {
            assert(!with_output);
        }
    }
}

/// The exit status shown for a block: while it runs, `unfinished`; once
/// finished, the decimal numeral of its status, or, when the shell reported
/// none, the non-numeric `unknown`, never a number.
pub proof fn lemma_exit_status_text(b: CommandBlockModel)
    ensures
        b.ended_at is None ==> exit_status_text(b) == "unfinished"@,
        b.ended_at is Some ==> match b.exit_status {
            Some(status) => exit_status_text(b) == signed_decimal(status as int),
            None => {
                &&& exit_status_text(b) == "unknown"@
                &&& forall|i: int|
                    0 <= i < exit_status_text(b).len() ==> !('0' <= #[trigger] exit_status_text(b)[i]
                        && exit_status_text(b)[i] <= '9')
            },
        },
{
    if b.ended_at is Some && b.exit_status is None {
        reveal_strlit("unknown");
        assert(exit_status_text(b) == "unknown"@);
    }
}

/// The truncation note is always added: the text keeps the output as it
/// was, ends with `[output truncated]` on a line of its own, and only a
/// newline, when the output lacks a final one, comes between.
pub proof fn lemma_truncation_note_always_present(output: Seq<char>)
    ensures
        ({
            let noted = with_truncation_note(output);
            let note = "[output truncated]"@;
            &&& noted.take(output.len() as int) == output
            &&& noted.len() >= output.len() + note.len()
            &&& noted.skip(noted.len() - note.len()) == note
            &&& noted.len() - output.len() - note.len() <= 1
            &&& (noted.len() == output.len() + note.len() + 1 <==> (output.len() > 0 && output.last()
                != '\n'))
            &&& noted.len() == output.len() + note.len() + 1 ==> noted[output.len() as int] == '\n'
        }),
{
    let note = "[output truncated]"@;
    let noted = with_truncation_note(output);
    if output.len() > 0 && output.last() != '\n' {
        assert(noted == output.push('\n') + note);
        assert(noted.take(output.len() as int) =~= output);
        assert(noted.skip(noted.len() - note.len()) =~= note);
    } else {
        assert(noted == output + note);
        assert(noted.take(output.len() as int) =~= output);
        assert(noted.skip(noted.len() - note.len()) =~= note);
    }
}

/// `text` ends with `suffix`.
pub open spec fn ends_with(text: Seq<char>, suffix: Seq<char>) -> bool {
    text.len() >= suffix.len() && text.skip(text.len() - suffix.len()) == suffix
}

/// A run of `k` backticks.
pub open spec fn backticks(k: nat) -> Seq<char> {
    Seq::new(k, |i: int| '`')
}

/// A report of a block whose output was truncated closes its output fence
/// right after the truncation note, whatever the captured output was.
pub proof fn lemma_report_shows_truncation(b: CommandBlockModel, output: Seq<char>)
    requires
        b.output_truncated,
    ensures
        exists|k: nat|
            3 <= k && ends_with(
                block_report_with(b, output),
                "[output truncated]\n"@ + #[trigger] backticks(k) + "\n"@,
            ),
{
    let shown = with_truncation_note(output);
    let note = "[output truncated]"@;
    lemma_truncation_note_always_present(output);
    reveal_strlit("[output truncated]");
    reveal_strlit("[output truncated]\n");
    let body = shown.take(shown.len() - note.len());
    assert(shown =~= body + note);
    assert(shown.last() == ']');
    let k = fence_len(shown);
    let fence = backticks(k);
    assert(fenced_text("text"@, shown) == fence + "text"@ + seq!['\n'] + shown + seq!['\n'] + fence);
    let head = report_head(b) + fence + "text"@ + seq!['\n'] + body;
    let tail = "[output truncated]\n"@ + fence + "\n"@;
    assert("[output truncated]\n"@ =~= note + seq!['\n']);
    assert(block_report_with(b, output) =~= head + tail);
    assert((head + tail).skip(head.len() as int) =~= tail);
    lemma_fence_length_at_least_three(shown);
    assert(ends_with(block_report_with(b, output), tail));
}

proof fn lemma_fence_length_at_least_three(text: Seq<char>)
    ensures
        3 <= fence_len(text),
{
}

} // verus!
