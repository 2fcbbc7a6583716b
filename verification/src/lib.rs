//! A verified core for an interactive command-line shell: a quoting-aware
//! lexer, a parser producing argument vectors and redirections, pure planning
//! logic for pipeline wiring and builtin output, a prefix trie for
//! tab-completion, and a keystroke-driven line editor.

use vstd::prelude::*;

pub mod autocompletion;
pub mod command;
pub mod lexer;
pub mod line_editor;
pub mod navigation;
pub mod parser;
pub mod state;
pub mod terminal_io;
pub mod trie;

verus! {

/// True for the characters the lexer treats as word separators.
pub open spec fn spec_is_space(c: char) -> bool {
    c == ' ' || c == '\t' || c == '\n' || c == '\r' || c == '\u{b}' || c == '\u{c}'
}

/// Word separators: ASCII whitespace.
pub fn char_is_space(c: char) -> (r: bool)
    ensures
        r == spec_is_space(c),
{
    c == ' ' || c == '\t' || c == '\n' || c == '\r' || c == '\u{b}' || c == '\u{c}'
}

/// True for decimal digits.
pub open spec fn spec_is_digit(c: char) -> bool {
    '0' <= c && c <= '9'
}

/// Whether `p` is a prefix of `s`.
pub open spec fn spec_is_prefix(p: Seq<char>, s: Seq<char>) -> bool {
    p.len() <= s.len() && p == s.take(p.len() as int)
}

/// The characters of a buffer as one string.
pub fn chars_to_string(v: &Vec<char>) -> (s: String)
    ensures
        s@ == v@,
{
    let n = v.len();
    let mut s = String::new();
    let mut i: usize = 0;
    proof {
        assert(s@ =~= v@.take(0));
    }
    while i < n
        invariant
            i <= n,
            n == v.len(),
            s@ == v@.take(i as int),
        decreases n - i,
    {
        crate::lexer::push_char(&mut s, v[i]);
        i = i + 1;
        proof {
            assert(v@.take((i - 1) as int).push(v@[(i - 1) as int]) =~= v@.take(i as int));
        }
    }
    proof {
        assert(v@.take(n as int) =~= v@);
    }
    s
}

/// The characters of a string as a buffer.
pub fn str_to_chars(s: &str) -> (v: Vec<char>)
    ensures
        v@ == s@,
{
    let n = s.unicode_len();
    let mut v: Vec<char> = Vec::new();
    let mut i: usize = 0;
    proof {
        assert(v@ =~= s@.take(0));
    }
    while i < n
        invariant
            i <= n,
            n == s@.len(),
            v@ == s@.take(i as int),
        decreases n - i,
    {
        v.push(s.get_char(i));
        i = i + 1;
        proof {
            assert(s@.take((i - 1) as int).push(s@[(i - 1) as int]) =~= s@.take(i as int));
        }
    }
    proof {
        assert(s@.take(n as int) =~= s@);
    }
    v
}

/// Decimal digits, as recognized by the file-descriptor lookahead.
pub fn char_is_digit(c: char) -> (r: bool)
    ensures
        r == spec_is_digit(c),
{
    '0' <= c && c <= '9'
}

} // verus!
