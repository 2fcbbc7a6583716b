//! Session state: the growable history of submitted non-blank command
//! lines. The history may be pre-populated once from the text of an
//! external history source; afterwards the core only appends.

use vstd::prelude::*;

use crate::parser::strings_view;
use crate::spec_is_space;

verus! {

/// Leading whitespace removed.
pub open spec fn spec_trim_front(s: Seq<char>) -> Seq<char>
    decreases s.len(),
{
    if s.len() > 0 && spec_is_space(s[0]) {
        spec_trim_front(s.skip(1))
    } else {
        s
    }
}

/// Trailing whitespace removed.
pub open spec fn spec_trim_back(s: Seq<char>) -> Seq<char>
    decreases s.len(),
{
    if s.len() > 0 && spec_is_space(s.last()) {
        spec_trim_back(s.drop_last())
    } else {
        s
    }
}

/// Leading and trailing whitespace removed.
pub open spec fn spec_trim(s: Seq<char>) -> Seq<char> {
    spec_trim_back(spec_trim_front(s))
}

proof fn lemma_trim_front_idx(s: Seq<char>, a: int)
    requires
        0 <= a <= s.len(),
        forall|k: int| 0 <= k < a ==> spec_is_space(s[k]),
        a == s.len() || !spec_is_space(s[a]),
    ensures
        spec_trim_front(s) == s.skip(a),
    decreases a,
{
    if a == 0 {
        assert(s.skip(0) =~= s);
    } else {
        lemma_trim_front_idx(s.skip(1), a - 1);
        assert(s.skip(1).skip(a - 1) =~= s.skip(a));
    }
}

proof fn lemma_trim_back_idx(s: Seq<char>, b: int)
    requires
        0 <= b <= s.len(),
        forall|k: int| b <= k < s.len() ==> spec_is_space(s[k]),
        b == 0 || !spec_is_space(s[b - 1]),
    ensures
        spec_trim_back(s) == s.take(b),
    decreases s.len() - b,
{
    if b == s.len() {
        assert(s.take(b) =~= s);
    } else {
        lemma_trim_back_idx(s.drop_last(), b);
        assert(s.drop_last().take(b) =~= s.take(b));
    }
}

/// The input with leading and trailing whitespace removed, as
/// [`spec_trim`] describes.
pub fn trim_string(s: &str) -> (t: String)
    ensures
        t@ == spec_trim(s@),
{
    let n = s.unicode_len();
    let mut a: usize = 0;
    while a < n && crate::char_is_space(s.get_char(a))
        invariant
            a <= n,
            n == s@.len(),
            forall|k: int| 0 <= k < a ==> spec_is_space(s@[k]),
        decreases n - a,
    {
        a = a + 1;
    }
    proof {
        lemma_trim_front_idx(s@, a as int);
    }
    if a == n {
        proof {
            assert(s@.skip(a as int) =~= Seq::<char>::empty());
            assert(spec_trim_back(Seq::<char>::empty()) == Seq::<char>::empty());
        }
        return String::new();
    }
    let mut b: usize = n;
    while b > a + 1 && crate::char_is_space(s.get_char(b - 1))
        invariant
            a < b <= n,
            n == s@.len(),
            forall|k: int| b <= k < n ==> spec_is_space(s@[k]),
        decreases b,
    {
        b = b - 1;
    }
    let b_final: usize = if crate::char_is_space(s.get_char(b - 1)) {
        b - 1
    } else {
        b
    };
    proof {
        let sk = s@.skip(a as int);
        lemma_trim_back_idx(sk, b_final - a as int);
        assert(sk.take(b_final - a as int) =~= s@.subrange(a as int, b_final as int));
    }
    let t = s.substring_char(a, b_final);
    t.to_owned()
}

/// Process-wide session state: the ordered history of accepted non-blank
/// lines and a cursor into it.
pub struct ShellState {
    pub history: Vec<String>,
    pub history_cursor: usize,
    pub history_written_count: usize,
}

/// The non-blank trimmed lines of a newline-separated text, reading from
/// index `i` with `cur` the line under construction and `out` the lines
/// already collected.
pub open spec fn spec_seed_rem(
    s: Seq<char>,
    i: int,
    cur: Seq<char>,
    out: Seq<Seq<char>>,
) -> Seq<Seq<char>>
    decreases s.len() - i,
{
    if i < 0 || i >= s.len() {
        if spec_trim(cur).len() > 0 {
            out.push(spec_trim(cur))
        } else {
            out
        }
    } else if s[i] == '\n' {
        spec_seed_rem(
            s,
            i + 1,
            Seq::empty(),
            if spec_trim(cur).len() > 0 {
                out.push(spec_trim(cur))
            } else {
                out
            },
        )
    } else {
        spec_seed_rem(s, i + 1, cur.push(s[i]), out)
    }
}

/// The history entries a history-source text seeds: its lines, trimmed,
/// blank ones dropped.
pub open spec fn spec_history_seed(text: Seq<char>) -> Seq<Seq<char>> {
    spec_seed_rem(text, 0, Seq::empty(), Seq::empty())
}

impl ShellState {
    /// A fresh session: empty history.
    pub fn new() -> (s: ShellState)
        ensures
            s.history@ =~= Seq::<String>::empty(),
            s.history_cursor == 0,
            s.history_written_count == 0,
    {
        ShellState { history: Vec::new(), history_cursor: 0, history_written_count: 0 }
    }

    /// Pre-populate the history from the text of a history source: each
    /// non-blank line, trimmed, is appended in order.
    pub fn init(&mut self, contents: &str)
        ensures
            strings_view(final(self).history@) == strings_view(old(self).history@)
                + spec_history_seed(contents@),
            final(self).history_cursor == old(self).history_cursor,
            final(self).history_written_count == old(self).history_written_count,
    {
        let ghost cv = contents@;
        let ghost h0 = strings_view(self.history@);
        let n = contents.unicode_len();
        let mut cur = String::new();
        let mut added: Vec<String> = Vec::new();
        let mut i: usize = 0;
        proof {
            assert(strings_view(added@) =~= Seq::<Seq<char>>::empty());
            assert(cur@ =~= Seq::<char>::empty());
        }
        while i < n
            invariant
                i <= n,
                n == cv.len(),
                cv == contents@,
                spec_history_seed(cv) == spec_seed_rem(cv, i as int, cur@, strings_view(added@)),
            decreases n - i,
        {
            let ghost added0 = strings_view(added@);
            let c = contents.get_char(i);
            if c == '\n' {
                let t = trim_string(cur.as_str());
                if !t.as_str().is_empty() {
                    added.push(t);
                    proof {
                        assert(strings_view(added@) =~= added0.push(spec_trim(cur@)));
                    }
                }
                cur = String::new();
                proof {
                    assert(cur@ =~= Seq::<char>::empty());
                }
            } else {
                crate::lexer::push_char(&mut cur, c);
            }
            i = i + 1;
        }
        let t = trim_string(cur.as_str());
        let ghost addedn = strings_view(added@);
        if !t.as_str().is_empty() {
            added.push(t);
            proof {
                assert(strings_view(added@) =~= addedn.push(spec_trim(cur@)));
            }
        }
        proof {
            assert(strings_view(added@) == spec_history_seed(cv));
        }
        let mut added_final = added;
        self.history.append(&mut added_final);
        proof {
            assert(strings_view(self.history@) =~= h0 + spec_history_seed(cv));
        }
    }

    /// Append an accepted line, unless it is blank: blank lines never enter
    /// the history.
    pub fn add_history(&mut self, command: String)
        ensures
            spec_trim(command@).len() > 0 ==> final(self).history@ == old(
                self,
            ).history@.push(command),
            spec_trim(command@).len() == 0 ==> final(self).history@ == old(self).history@,
            final(self).history_cursor == old(self).history_cursor,
            final(self).history_written_count == old(self).history_written_count,
    {
        let t = trim_string(command.as_str());
        if !t.as_str().is_empty() {
            self.history.push(command);
        }
    }
}

} // verus!
