//! Rules for the command editor: which commands may be inserted into the
//! terminal, which may be run directly, and how line endings are normalised.

use vstd::prelude::*;
use super::command_state::CommandLifecycleState;
use crate::text::{chars_are_blank, chars_contain, chars_of, is_blank, push_char};

verus! {

/// Whether the editor may insert its command, and whether it may run it.
#[derive(Debug, Clone, Copy, PartialEq, Eq, Structural)]
pub struct CommandInputAvailability {
    pub can_insert: bool,
    pub can_run: bool,
}

/// The text with every `\r\n` turned into `\n` and every other `\r` into
/// `\n`.
pub open spec fn normalize_line_endings(s: Seq<char>) -> Seq<char>
    decreases s.len(),
{
    if s.len() == 0 {
        s
    } else if s[0] == '\r' {
        if s.len() >= 2 && s[1] == '\n' {
            seq!['\n'] + normalize_line_endings(s.skip(2))
        } else {
            seq!['\n'] + normalize_line_endings(s.skip(1))
        }
    } else {
        seq![s[0]] + normalize_line_endings(s.skip(1))
    }
}

/// The command that may be inserted: the normalised text, unless it is
/// blank.
pub open spec fn command_for_insert(command: Seq<char>) -> Option<Seq<char>> {
    let normalized = normalize_line_endings(command);
    if is_blank(normalized) {
        None
    } else {
        Some(normalized)
    }
}

/// The command that may be run: as for insertion, but a single line only.
pub open spec fn command_for_run(command: Seq<char>) -> Option<Seq<char>> {
    match command_for_insert(command) {
        Some(c) => if c.contains('\n') {
            None
        } else {
            Some(c)
        },
        None => None,
    }
}

/// Normalised text holds no carriage return.
pub proof fn lemma_normalized_has_no_carriage_return(s: Seq<char>)
    ensures
        !normalize_line_endings(s).contains('\r'),
    decreases s.len(),
{
    if s.len() > 0 {
        let rest = if s[0] == '\r' && s.len() >= 2 && s[1] == '\n' {
            s.skip(2)
        } else {
            s.skip(1)
        };
        lemma_normalized_has_no_carriage_return(rest);
        let head = if s[0] == '\r' {
            '\n'
        } else {
            s[0]
        };
        assert(normalize_line_endings(s) == seq![head] + normalize_line_endings(rest));
        if normalize_line_endings(s).contains('\r') {
            let k = choose|k: int| 0 <= k < normalize_line_endings(s).len() && normalize_line_endings(s)[k] == '\r';
            if k > 0 {
                assert(normalize_line_endings(rest)[k - 1] == '\r');
            }
        }
    }
}

proof fn lemma_normalize_keeps_text_without_carriage_return(s: Seq<char>)
    requires
        !s.contains('\r'),
    ensures
        normalize_line_endings(s) == s,
    decreases s.len(),
{
    if s.len() > 0 {
        assert(s[0] != '\r');
        assert(!s.skip(1).contains('\r')) by {
            if s.skip(1).contains('\r') {
                let k = choose|k: int| 0 <= k < s.skip(1).len() && s.skip(1)[k] == '\r';
                assert(s[k + 1] == '\r');
            }
        }
        lemma_normalize_keeps_text_without_carriage_return(s.skip(1));
        assert(seq![s[0]] + s.skip(1) =~= s);
    }
}

/// Normalising line endings twice changes nothing more than once.
pub proof fn lemma_normalize_line_endings_idempotent(s: Seq<char>)
    ensures
        normalize_line_endings(normalize_line_endings(s)) == normalize_line_endings(s),
{
    lemma_normalized_has_no_carriage_return(s);
    lemma_normalize_keeps_text_without_carriage_return(normalize_line_endings(s));
}

/// The view of an optional `String`.
pub open spec fn option_chars(s: Option<String>) -> Option<Seq<char>> {
    match s {
        Some(s) => Some(s@),
        None => None,
    }
}

/// Input is accepted in every lifecycle state except while a command runs.
pub fn can_accept_command_input_state(state: CommandLifecycleState) -> (accept: bool)
    ensures
        accept == (state != CommandLifecycleState::Running),
{
    !matches!(state, CommandLifecycleState::Running)
}

/// The command with every `\r\n` and lone `\r` turned into `\n`.
pub fn normalize_command_line_endings(command: &str) -> (normalized: String)
    ensures
        normalized@ == normalize_line_endings(command@),
{
    let chars = chars_of(command);
    let mut out = String::new();
    let mut i: usize = 0;
    proof {
        assert(chars@.skip(0) =~= chars@);
        assert(out@ + normalize_line_endings(chars@.skip(0)) =~= normalize_line_endings(command@));
    }
    while i < chars.len()
        invariant
            i <= chars@.len(),
            chars@ == command@,
            out@ + normalize_line_endings(chars@.skip(i as int)) == normalize_line_endings(command@),
        decreases chars@.len() - i,
    {
        let ghost tail = chars@.skip(i as int);
        let ghost before = out@;
        let c = chars[i];
        if c == '\r' {
            push_char(&mut out, '\n');
            if i + 1 < chars.len() && chars[i + 1] == '\n' {
                proof {
                    assert(tail.skip(2) =~= chars@.skip(i + 2));
                    assert(before + (seq!['\n'] + normalize_line_endings(tail.skip(2))) =~= out@
                        + normalize_line_endings(chars@.skip(i + 2)));
                }
                i += 2;
            } else {
                proof {
                    assert(tail.skip(1) =~= chars@.skip(i + 1));
                    assert(before + (seq!['\n'] + normalize_line_endings(tail.skip(1))) =~= out@
                        + normalize_line_endings(chars@.skip(i + 1)));
                }
                i += 1;
            }
        } else {
            push_char(&mut out, c);
            proof {
                assert(tail.skip(1) =~= chars@.skip(i + 1));
                assert(before + (seq![c] + normalize_line_endings(tail.skip(1))) =~= out@
                    + normalize_line_endings(chars@.skip(i + 1)));
            }
            i += 1;
        }
    }
    proof {
        assert(chars@.skip(i as int) =~= Seq::<char>::empty());
        assert(out@ + Seq::<char>::empty() =~= out@);
    }
    out
}

/// Whether the command spans more than one line.
pub fn is_multiline_command(command: &str) -> (multiline: bool)
    ensures
        multiline == command@.contains('\n'),
{
    let chars = chars_of(command);
    chars_contain(chars.as_slice(), '\n')
}

/// The command with normalised line endings, unless it is blank.
pub fn normalized_command_for_insert(command: &str) -> (normalized: Option<String>)
    ensures
        option_chars(normalized) == command_for_insert(command@),
{
    let normalized = normalize_command_line_endings(command);
    let chars = chars_of(normalized.as_str());
    if chars_are_blank(chars.as_slice()) {
        return None;
    }
    Some(normalized)
}

/// The command with normalised line endings, unless it is blank or spans
/// more than one line.
pub fn normalized_command_for_run(command: &str) -> (normalized: Option<String>)
    ensures
        option_chars(normalized) == command_for_run(command@),
{
    let normalized = match normalized_command_for_insert(command) {
        Some(n) => n,
        None => return None,
    };
    if is_multiline_command(normalized.as_str()) {
        return None;
    }
    Some(normalized)
}

/// What the editor may do with `command` in lifecycle state `state`:
/// nothing with a missing or blank command; insert whenever no command is
/// running; run when it may insert and the command is a single line.
pub fn command_input_availability(command: Option<&str>, state: CommandLifecycleState) -> (availability: CommandInputAvailability)
    ensures
        availability == match command {
            None => CommandInputAvailability { can_insert: false, can_run: false },
            Some(c) => match command_for_insert(c@) {
                None => CommandInputAvailability { can_insert: false, can_run: false },
                Some(n) => CommandInputAvailability {
                    can_insert: state != CommandLifecycleState::Running,
                    can_run: state != CommandLifecycleState::Running && !n.contains('\n'),
                },
            },
        },
{
    let normalized = match command {
        Some(c) => normalized_command_for_insert(c),
        None => None,
    };
    let command = match normalized {
        Some(n) => n,
        None => {
            return CommandInputAvailability { can_insert: false, can_run: false };
        },
    };
    let can_accept = can_accept_command_input_state(state);
    CommandInputAvailability {
        can_insert: can_accept,
        can_run: can_accept && !is_multiline_command(command.as_str()),
    }
}

} // verus!
