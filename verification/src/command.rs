//! Reading a line typed at the prompt into a command and its arguments.

use vstd::prelude::*;

use crate::text::{chars_of, split_once, split_range, string_of_range, trim, trim_range};

verus! {

/// The commands of the prompt.
#[derive(Debug, Clone, Copy, PartialEq, Eq, Structural)]
pub enum Command {
    New,
    Delete,
    Edit,
    Add,
    List,
    Reset,
    Quit,
    Help,
    Unknown,
}

/// `c` with an ASCII capital letter turned into its small letter.
pub open spec fn ascii_lower(c: char) -> char {
    if 'A' <= c <= 'Z' {
        ((c as int) + 32) as char
    } else {
        c
    }
}

/// `w` lowercased is the keyword `kw`, which is in small ASCII letters. For
/// such a keyword this is what comparing `w.to_lowercase()` with it decides:
/// no character outside ASCII lowercases to ASCII letters alone, save the
/// Kelvin sign, which gives `k`, a letter no keyword here holds.
pub open spec fn is_keyword(w: Seq<char>, kw: Seq<char>) -> bool {
    &&& w.len() == kw.len()
    &&& forall|i: int| 0 <= i < w.len() ==> #[trigger] ascii_lower(w[i]) == kw[i]
}

/// The command that the word `w` names: each command by its name or its
/// first letter, in any case.
pub open spec fn command_of(w: Seq<char>) -> Command {
    if is_keyword(w, "new"@) || is_keyword(w, "n"@) {
        Command::New
    } else if is_keyword(w, "delete"@) || is_keyword(w, "d"@) {
        Command::Delete
    } else if is_keyword(w, "edit"@) || is_keyword(w, "e"@) {
        Command::Edit
    } else if is_keyword(w, "add"@) || is_keyword(w, "a"@) {
        Command::Add
    } else if is_keyword(w, "list"@) || is_keyword(w, "l"@) {
        Command::List
    } else if is_keyword(w, "reset"@) || is_keyword(w, "r"@) {
        Command::Reset
    } else if is_keyword(w, "quit"@) || is_keyword(w, "q"@) {
        Command::Quit
    } else if is_keyword(w, "help"@) || is_keyword(w, "h"@) {
        Command::Help
    } else {
        Command::Unknown
    }
}

/// A line split into its first word and the rest after the first space,
/// once whitespace is trimmed from both of its ends; none for a blank line.
pub open spec fn command_line(line: Seq<char>) -> Option<(Seq<char>, Seq<char>)> {
    let t = trim(line);
    if t.len() == 0 {
        None
    } else {
        match split_once(t, ' ') {
            Some(p) => Some(p),
            None => Some((t, Seq::empty())),
        }
    }
}

/// Whether `s[lo..hi]` lowercased is the keyword `kw`.
fn is_keyword_range(s: &Vec<char>, lo: usize, hi: usize, kw: &str) -> (b: bool)
    requires
        lo <= hi <= s@.len(),
    ensures
        b == is_keyword(s@.subrange(lo as int, hi as int), kw@),
{
    let k = chars_of(kw);
    if hi - lo != k.len() {
        return false;
    }
    let ghost w = s@.subrange(lo as int, hi as int);
    let mut i: usize = 0;
    while i < k.len()
        invariant
            0 <= i <= k@.len(),
            k@ == kw@,
            hi - lo == k@.len(),
            lo <= hi <= s@.len(),
            w == s@.subrange(lo as int, hi as int),
            forall|j: int| 0 <= j < i ==> #[trigger] ascii_lower(w[j]) == k@[j],
        decreases k@.len() - i,
    {
        let c = s[lo + i];
        let lc = if 'A' <= c && c <= 'Z' {
            ((c as u32) + 32) as u8 as char
        } else {
            c
        };
        assert(w[i as int] == c);
        if lc != k[i] {
            assert(ascii_lower(w[i as int]) != k@[i as int]);
            return false;
        }
        i = i + 1;
    }
    true
}

/// The command that the word `s[lo..hi]` names.
fn command_of_range(s: &Vec<char>, lo: usize, hi: usize) -> (c: Command)
    requires
        lo <= hi <= s@.len(),
    ensures
        c == command_of(s@.subrange(lo as int, hi as int)),
{
    if is_keyword_range(s, lo, hi, "new") || is_keyword_range(s, lo, hi, "n") {
        Command::New
    } else if is_keyword_range(s, lo, hi, "delete") || is_keyword_range(s, lo, hi, "d") {
        Command::Delete
    } else if is_keyword_range(s, lo, hi, "edit") || is_keyword_range(s, lo, hi, "e") {
        Command::Edit
    } else if is_keyword_range(s, lo, hi, "add") || is_keyword_range(s, lo, hi, "a") {
        Command::Add
    } else if is_keyword_range(s, lo, hi, "list") || is_keyword_range(s, lo, hi, "l") {
        Command::List
    } else if is_keyword_range(s, lo, hi, "reset") || is_keyword_range(s, lo, hi, "r") {
        Command::Reset
    } else if is_keyword_range(s, lo, hi, "quit") || is_keyword_range(s, lo, hi, "q") {
        Command::Quit
    } else if is_keyword_range(s, lo, hi, "help") || is_keyword_range(s, lo, hi, "h") {
        Command::Help
    } else {
        Command::Unknown
    }
}

/// Reads a line typed at the prompt: none for a blank line, else the command
/// that its first word names, that word as typed, and the arguments after
/// it (see `command_line`).
pub fn parse_command(line: &str) -> (r: Option<(Command, String, String)>)
    ensures
        match command_line(line@) {
            Some((w, args)) => r matches Some((c, word, a)) && c == command_of(w) && word@ == w
                && a@ == args,
            None => r is None,
        },
{
    let s = chars_of(line);
    let (lo, hi) = trim_range(&s, 0, s.len());
    assert(s@.subrange(0, s@.len() as int) =~= line@);
    if lo == hi {
        return None;
    }
    let (wlo, whi, alo, ahi) = match split_range(&s, lo, hi, ' ') {
        Some(k) => (lo, k, k + 1, hi),
        None => (lo, hi, hi, hi),
    };
    assert(s@.subrange(hi as int, hi as int) =~= Seq::<char>::empty());
    let c = command_of_range(&s, wlo, whi);
    Some((c, string_of_range(&s, wlo, whi), string_of_range(&s, alo, ahi)))
}

} // verus!
