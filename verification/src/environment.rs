//! Reading settings from the process environment and building the
//! environment of a spawned child. The environment itself is read where the
//! process starts; this module decides from what was read.

use vstd::prelude::*;
use crate::text::{push_char, push_i32, push_str, signed_decimal, str_equals};

verus! {

/// What the environment holds for one variable.
#[derive(Debug, Clone, PartialEq, Eq)]
pub enum EnvValue {
    NotPresent,
    NotUnicode,
    Value(String),
}

/// One `KEY=value` entry of a child environment.
pub open spec fn env_entry(key: Seq<char>, value: Seq<char>) -> Seq<char> {
    key + "="@ + value
}

/// The views of the `(key, value)` pairs of an environment.
pub open spec fn var_views(vars: Seq<(String, String)>) -> Seq<(Seq<char>, Seq<char>)> {
    vars.map_values(|p: (String, String)| (p.0@, p.1@))
}

/// The views of a sequence of strings.
pub open spec fn string_views(strings: Seq<String>) -> Seq<Seq<char>> {
    strings.map_values(|s: String| s@)
}

/// The views of a sequence of string slices.
pub open spec fn str_views(strings: Seq<&str>) -> Seq<Seq<char>> {
    strings.map_values(|s: &str| s@)
}

/// The entries of the inherited variables, in order, leaving out those
/// whose key is excluded.
pub open spec fn inherited_entries(
    vars: Seq<(Seq<char>, Seq<char>)>,
    excluded: Seq<Seq<char>>,
) -> Seq<Seq<char>>
    decreases vars.len(),
{
    if vars.len() == 0 {
        Seq::empty()
    } else {
        let last = vars.last();
        inherited_entries(vars.drop_last(), excluded) + if excluded.contains(last.0) {
            Seq::empty()
        } else {
            seq![env_entry(last.0, last.1)]
        }
    }
}

/// The entries that identify the terminal to the child.
pub open spec fn terminal_entries() -> Seq<Seq<char>> {
    seq!["TERM=xterm-256color"@, "TERM_PROGRAM=Tessera"@]
}

/// The keys that a shell's environment never inherits.
pub open spec fn shell_excluded_keys() -> Seq<Seq<char>> {
    seq!["TERM"@, "TERM_PROGRAM"@]
}

/// The keys that the proxy's environment never inherits.
pub open spec fn proxy_excluded_keys() -> Seq<Seq<char>> {
    seq!["TERM"@, "TERM_PROGRAM"@, "TESSERA_EVENT_FD"@]
}

fn string_of(text: &str) -> (s: String)
    ensures
        s@ == text@,
{
    let mut s = String::new();
    push_str(&mut s, text);
    s
}

fn is_excluded_key(excluded: &[&str], key: &str) -> (found: bool)
    ensures
        found == str_views(excluded@).contains(key@),
{
    let mut i: usize = 0;
    while i < excluded.len()
        invariant
            i <= excluded@.len(),
            forall|k: int| 0 <= k < i ==> excluded@[k]@ != key@,
        decreases excluded@.len() - i,
    {
        if str_equals(excluded[i], key) {
            assert(str_views(excluded@)[i as int] == key@);
            return true;
        }
        i += 1;
    }
    proof {
        if str_views(excluded@).contains(key@) {
            let k = choose|k: int| 0 <= k < str_views(excluded@).len() && str_views(excluded@)[k] == key@;
            assert(excluded@[k]@ == key@);
        }
    }
    false
}

/// The child environment: every inherited variable whose key is not
/// excluded, as `KEY=value`, then `TERM=xterm-256color` and
/// `TERM_PROGRAM=Tessera`.
pub fn child_environment_excluding(vars: &[(String, String)], excluded: &[&str]) -> (envv: Vec<String>)
    ensures
        string_views(envv@) == inherited_entries(var_views(vars@), str_views(excluded@)) + terminal_entries(),
{
    let ghost views = var_views(vars@);
    let ghost keys = str_views(excluded@);
    let mut envv: Vec<String> = Vec::new();
    let mut i: usize = 0;
    while i < vars.len()
        invariant
            i <= vars@.len(),
            views == var_views(vars@),
            keys == str_views(excluded@),
            string_views(envv@) == inherited_entries(views.take(i as int), keys),
        decreases vars@.len() - i,
    {
        let ghost before = envv@;
        let key = vars[i].0.as_str();
        let ghost t = views.take(i + 1);
        proof {
            assert(t.drop_last() =~= views.take(i as int));
            assert(t.last() == (vars@[i as int].0@, vars@[i as int].1@));
        }
        if !is_excluded_key(excluded, key) {
            let mut entry = String::new();
            push_str(&mut entry, key);
            push_char(&mut entry, '=');
            push_str(&mut entry, vars[i].1.as_str());
            proof {
                reveal_strlit("=");
            }
            assert(entry@ =~= env_entry(t.last().0, t.last().1));
            envv.push(entry);
            assert(string_views(envv@) =~= string_views(before).push(entry@));
            assert(string_views(envv@) =~= inherited_entries(t, keys));
        } else {
            assert(string_views(envv@) =~= inherited_entries(t, keys));
        }
        i += 1;
    }
    let ghost inherited = envv@;
    envv.push(string_of("TERM=xterm-256color"));
    envv.push(string_of("TERM_PROGRAM=Tessera"));
    proof {
        assert(views.take(vars@.len() as int) =~= views);
        assert(string_views(envv@) =~= string_views(inherited) + terminal_entries());
    }
    envv
}

/// The environment of a shell spawned directly: the inherited variables but
/// `TERM` and `TERM_PROGRAM`, then the terminal's own entries.
pub fn child_environment(vars: &[(String, String)]) -> (envv: Vec<String>)
    ensures
        string_views(envv@) == inherited_entries(var_views(vars@), shell_excluded_keys()) + terminal_entries(),
{
    let excluded: Vec<&str> = vec!["TERM", "TERM_PROGRAM"];
    assert(str_views(excluded@) =~= shell_excluded_keys());
    child_environment_excluding(vars, excluded.as_slice())
}

/// The environment of the PTY proxy: the inherited variables but `TERM`,
/// `TERM_PROGRAM` and `TESSERA_EVENT_FD`, the terminal's own entries, and
/// `TESSERA_EVENT_FD` set to the descriptor that carries the events.
pub fn proxy_child_environment(vars: &[(String, String)], event_fd: i32) -> (envv: Vec<String>)
    ensures
        string_views(envv@) == inherited_entries(var_views(vars@), proxy_excluded_keys())
            + terminal_entries() + seq!["TESSERA_EVENT_FD="@ + signed_decimal(event_fd as int)],
{
    let excluded: Vec<&str> = vec!["TERM", "TERM_PROGRAM", "TESSERA_EVENT_FD"];
    assert(str_views(excluded@) =~= proxy_excluded_keys());
    let mut envv = child_environment_excluding(vars, excluded.as_slice());
    let ghost before = envv@;
    let mut entry = String::new();
    push_str(&mut entry, "TESSERA_EVENT_FD=");
    push_i32(&mut entry, event_fd);
    envv.push(entry);
    assert(string_views(envv@) =~= string_views(before).push(entry@));
    envv
}

} // verus!
