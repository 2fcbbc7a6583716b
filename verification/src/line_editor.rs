//! The line editor: a keystroke-driven buffer and cursor state machine.
//!
//! Every handler returns what should be echoed to the terminal as a string
//! of characters (including control sequences), instead of writing it; the
//! surrounding program performs the write. Tab queries the trie for all
//! names extending the text left of the cursor and completes to their
//! longest common prefix.

use vstd::prelude::*;

use crate::autocompletion::{
    longest_common_prefix, spec_common_of_set, spec_common_prefix, spec_is_lcp_set,
};
use crate::spec_is_prefix;
use crate::terminal_io::{MskEvent, MskKeyCode};
use crate::trie::{lemma_words_is_has_word, results_have, Trie};

verus! {

/// The words of the trie that extend the prefix.
pub open spec fn spec_matches(t: Trie, p: Seq<char>) -> Set<Seq<char>> {
    Set::new(|w: Seq<char>| t.has_word(w) && spec_is_prefix(p, w))
}

/// Whether any word of the trie extends the prefix.
pub open spec fn spec_any_match(t: Trie, p: Seq<char>) -> bool {
    exists|w: Seq<char>| #[trigger] t.has_word(w) && spec_is_prefix(p, w)
}

/// What a single character echoes: itself at the end of the buffer; an
/// insert-character control sequence first when inserted mid-buffer, so the
/// trailing characters shift right visually.
pub open spec fn spec_char_echo(at_end: bool, c: char) -> Seq<char> {
    if at_end {
        seq![c]
    } else {
        seq!['\u{1b}', '[', '@', c]
    }
}

/// The echo of the characters of `cs` from index `from` on, inserted one by
/// one.
pub open spec fn spec_echo_from(at_end: bool, cs: Seq<char>, from: int) -> Seq<char>
    decreases cs.len() - from,
{
    if from < 0 || from >= cs.len() {
        Seq::empty()
    } else {
        spec_char_echo(at_end, cs[from]) + spec_echo_from(at_end, cs, from + 1)
    }
}

/// The response to one keystroke: the accepted line, if Enter completed
/// one, and the characters to echo to the terminal.
pub struct EditorResponse {
    pub line: Option<String>,
    pub echo: String,
}

/// The edit buffer and the cursor into it.
pub struct LineEditor {
    pub buffer: Vec<char>,
    pub cursor: usize,
}

/// What Tab leaves behind, given the trie and the prefix left of the
/// cursor: with no matching word the buffer is untouched; when the prefix
/// already is the longest common prefix of the matches nothing changes and
/// nothing is echoed; otherwise the missing characters of the longest
/// common prefix and one trailing space are inserted at the cursor, echoed
/// like typed characters.
pub open spec fn spec_tab_post(
    pre: LineEditor,
    post: LineEditor,
    t: Trie,
    echo_old: Seq<char>,
    echo_new: Seq<char>,
) -> bool {
    let p = pre.buffer@.take(pre.cursor as int);
    let at_end = pre.cursor == pre.buffer@.len();
    &&& (!spec_any_match(t, p) ==> post.buffer@ == pre.buffer@ && post.cursor == pre.cursor)
    &&& (spec_any_match(t, p) && spec_is_lcp_set(p, spec_matches(t, p)) ==> post.buffer@
        == pre.buffer@ && post.cursor == pre.cursor && echo_new == echo_old)
    &&& (forall|l: Seq<char>|
        spec_any_match(t, p) && #[trigger] spec_is_lcp_set(l, spec_matches(t, p)) && l != p
            ==> post.buffer@ == pre.buffer@.take(pre.cursor as int) + l.skip(p.len() as int)
            + seq![' '] + pre.buffer@.skip(pre.cursor as int) && post.cursor == pre.cursor + (
        l.len() - p.len()) + 1 && echo_new == echo_old + spec_echo_from(at_end, l, p.len() as int)
            + spec_char_echo(at_end, ' '))
}

impl LineEditor {
    /// The cursor never leaves the buffer.
    pub open spec fn wf(&self) -> bool {
        self.cursor <= self.buffer@.len()
    }

    /// A fresh, empty editor.
    pub fn new() -> (e: LineEditor)
        ensures
            e.wf(),
            e.buffer@ =~= Seq::<char>::empty(),
            e.cursor == 0,
    {
        LineEditor { buffer: Vec::new(), cursor: 0 }
    }

    /// Insert one character at the cursor, echoing it (behind an
    /// insert-character control sequence when mid-buffer).
    fn do_char(&mut self, c: char, echo: &mut String)
        requires
            old(self).wf(),
        ensures
            final(self).wf(),
            final(self).buffer@ == old(self).buffer@.insert(old(self).cursor as int, c),
            final(self).cursor == old(self).cursor + 1,
            final(echo)@ == old(echo)@ + spec_char_echo(
                old(self).cursor == old(self).buffer@.len(),
                c,
            ),
    {
        let ghost e0 = echo@;
        if self.cursor == self.buffer.len() {
            self.buffer.insert(self.cursor, c);
            self.cursor = self.buffer.len();
            crate::lexer::push_char(echo, c);
            proof {
                assert(echo@ =~= e0 + seq![c]);
            }
        } else {
            crate::lexer::push_char(echo, '\u{1b}');
            crate::lexer::push_char(echo, '[');
            crate::lexer::push_char(echo, '@');
            self.buffer.insert(self.cursor, c);
            self.cursor = self.cursor + 1;
            crate::lexer::push_char(echo, c);
            proof {
                assert(echo@ =~= e0 + seq!['\u{1b}', '[', '@', c]);
            }
        }
    }

    /// Tab completion, as [`spec_tab_post`] describes.
    #[verifier::rlimit(80)]
    fn do_tab(&mut self, all_commands: &Trie, echo: &mut String)
        requires
            old(self).wf(),
            all_commands.wf(),
        ensures
            final(self).wf(),
            spec_tab_post(*old(self), *final(self), *all_commands, old(echo)@, final(echo)@),
    {
        broadcast use lemma_words_is_has_word;

        let ghost pre = *self;
        let ghost p = pre.buffer@.take(pre.cursor as int);
        let ghost mset = spec_matches(*all_commands, p);
        let cur = self.cursor;
        let mut prefix_chars: Vec<char> = Vec::new();
        let mut m: usize = 0;
        proof {
            assert(prefix_chars@ =~= pre.buffer@.take(0));
        }
        while m < cur
            invariant
                m <= cur,
                cur == self.cursor,
                *self == pre,
                pre.wf(),
                prefix_chars@ == pre.buffer@.take(m as int),
            decreases cur - m,
        {
            prefix_chars.push(self.buffer[m]);
            m = m + 1;
            proof {
                assert(pre.buffer@.take((m - 1) as int).push(pre.buffer@[(m - 1) as int])
                    =~= pre.buffer@.take(m as int));
            }
        }
        let prefix_string = crate::chars_to_string(&prefix_chars);
        proof {
            assert(prefix_string@ == p);
            assert(p.len() == pre.cursor);
        }
        match all_commands.search_prefix(prefix_string.as_str()) {
            None => {
                proof {
                    assert(!spec_any_match(*all_commands, p)) by {
                        if spec_any_match(*all_commands, p) {
                            let w = choose|w: Seq<char>|
                                #[trigger] all_commands.has_word(w) && spec_is_prefix(p, w);
                            assert(all_commands.words().contains(w));
                        }
                    }
                }
                crate::lexer::push_char(echo, '\u{7}');
            },
            Some(commands) => {
                proof {
                    assert forall|w: Seq<char>| #[trigger] mset.contains(w) implies results_have(
                        commands@,
                        w,
                    ) by {
                        assert(all_commands.has_word(w) && spec_is_prefix(p, w));
                        assert(all_commands.words().contains(w));
                    }
                    assert forall|j: int| 0 <= j < commands@.len() implies mset.contains(
                        (#[trigger] commands@[j])@,
                    ) by {
                        assert(all_commands.words().contains(commands@[j]@));
                    }
                    // the prefix is a common prefix of every match
                    assert forall|w: Seq<char>| #[trigger] mset.contains(w) implies
                    spec_is_prefix(p, w) by {}
                }
                match longest_common_prefix(&commands) {
                    None => {
                        proof {
                            assert forall|l: Seq<char>|
                                spec_any_match(*all_commands, p) && #[trigger] spec_is_lcp_set(
                                    l,
                                    mset,
                                ) implies l == p by {
                                let w0 = choose|w: Seq<char>|
                                    #[trigger] all_commands.has_word(w) && spec_is_prefix(p, w);
                                assert(mset.contains(w0));
                                if commands@.len() == 0 {
                                    assert(results_have(commands@, w0));
                                    let j = choose|j: int|
                                        0 <= j < commands@.len() && (#[trigger] commands@[j])@
                                            == w0;
                                    assert(false);
                                }
                                assert(spec_common_prefix(l, commands@)) by {
                                    assert forall|k: int|
                                        0 <= k < commands@.len() implies spec_is_prefix(
                                        l,
                                        (#[trigger] commands@[k])@,
                                    ) by {
                                        assert(mset.contains(commands@[k]@));
                                        assert(spec_common_of_set(l, mset));
                                    }
                                }
                                assert(l.len() == 0);
                                assert(spec_common_of_set(p, mset)) by {
                                    assert forall|w: Seq<char>| #[trigger]
                                        mset.contains(w) implies spec_is_prefix(p, w) by {}
                                }
                                assert(p.len() <= l.len());
                                assert(l =~= p);
                            }
                        }
                    },
                    Some(lp) => {
                        let lp_chars = crate::str_to_chars(lp.as_str());
                        proof {
                            // the result is the longest common prefix of the match set
                            assert(spec_common_of_set(lp@, mset)) by {
                                assert forall|w: Seq<char>| #[trigger]
                                    mset.contains(w) implies spec_is_prefix(lp@, w) by {
                                    assert(results_have(commands@, w));
                                    let j = choose|j: int|
                                        0 <= j < commands@.len() && (#[trigger] commands@[j])@
                                            == w;
                                    assert(spec_is_prefix(lp@, commands@[j]@));
                                }
                            }
                            assert forall|c: Seq<char>| #[trigger]
                                spec_common_of_set(c, mset) implies c.len() <= lp@.len() by {
                                assert(spec_common_prefix(c, commands@)) by {
                                    assert forall|k: int|
                                        0 <= k < commands@.len() implies spec_is_prefix(
                                        c,
                                        (#[trigger] commands@[k])@,
                                    ) by {
                                        assert(mset.contains(commands@[k]@));
                                    }
                                }
                            }
                            assert(spec_is_lcp_set(lp@, mset));
                            assert(spec_common_of_set(p, mset)) by {
                                assert forall|w: Seq<char>| #[trigger]
                                    mset.contains(w) implies spec_is_prefix(p, w) by {}
                            }
                            assert(p.len() <= lp@.len());
                            // uniqueness of the longest common prefix
                            assert(commands@.len() > 0);
                            assert(mset.contains(commands@[0]@));
                            assert forall|l: Seq<char>| #[trigger]
                                spec_is_lcp_set(l, mset) implies l == lp@ by {
                                assert(spec_common_of_set(l, mset));
                                assert(l.len() <= lp@.len());
                                assert(lp@.len() <= l.len());
                                let w0 = commands@[0]@;
                                assert(spec_is_prefix(l, w0) && spec_is_prefix(lp@, w0));
                                assert(l =~= lp@) by {
                                    assert(l == w0.take(l.len() as int));
                                    assert(lp@ == w0.take(lp@.len() as int));
                                }
                            }
                            // the prefix itself is a prefix of the completion
                            assert(spec_is_prefix(p, lp@)) by {
                                let w0 = commands@[0]@;
                                assert(spec_is_prefix(p, w0) && spec_is_prefix(lp@, w0));
                                assert(p =~= lp@.take(p.len() as int)) by {
                                    assert forall|q: int| 0 <= q < p.len() implies p[q] == lp@[q] by {
                                        assert(p[q] == w0.take(p.len() as int)[q]);
                                        assert(lp@[q] == w0.take(lp@.len() as int)[q]);
                                    }
                                }
                            }
                        }
                        if lp_chars.len() <= cur {
                            proof {
                                assert(lp@.len() == p.len());
                                assert(lp@ =~= p);
                            }
                        } else {
                            let ghost at_end0 = pre.cursor == pre.buffer@.len();
                            let ghost echo0 = echo@;
                            let mut m2: usize = cur;
                            proof {
                                assert(pre.buffer@.take(cur as int) + lp@.subrange(
                                    cur as int,
                                    cur as int,
                                ) + pre.buffer@.skip(cur as int) =~= pre.buffer@);
                                assert(echo0 + spec_echo_from(at_end0, lp@, cur as int) =~= echo@
                                    + spec_echo_from(at_end0, lp@, cur as int));
                            }
                            while m2 < lp_chars.len()
                                invariant
                                    cur <= m2 <= lp_chars.len(),
                                    lp_chars@ == lp@,
                                    cur == pre.cursor,
                                    pre.wf(),
                                    self.wf(),
                                    self.cursor == m2,
                                    self.buffer@ == pre.buffer@.take(cur as int) + lp@.subrange(
                                        cur as int,
                                        m2 as int,
                                    ) + pre.buffer@.skip(cur as int),
                                    (self.cursor == self.buffer@.len()) == at_end0,
                                    at_end0 == (pre.cursor == pre.buffer@.len()),
                                    echo0 + spec_echo_from(at_end0, lp@, cur as int) == echo@
                                        + spec_echo_from(at_end0, lp@, m2 as int),
                                decreases lp_chars@.len() - m2,
                            {
                                let ghost buf_before = self.buffer@;
                                let ghost echo_before = echo@;
                                let c2 = lp_chars[m2];
                                self.do_char(c2, echo);
                                m2 = m2 + 1;
                                proof {
                                    assert(self.buffer@ =~= pre.buffer@.take(cur as int)
                                        + lp@.subrange(cur as int, m2 as int) + pre.buffer@.skip(
                                        cur as int,
                                    )) by {
                                        assert(buf_before.insert((m2 - 1) as int, c2)
                                            =~= pre.buffer@.take(cur as int) + lp@.subrange(
                                            cur as int,
                                            m2 as int,
                                        ) + pre.buffer@.skip(cur as int));
                                    }
                                    assert(echo@ =~= echo_before + spec_char_echo(at_end0, c2));
                                    assert(echo_before + (spec_char_echo(at_end0, c2)
                                        + spec_echo_from(at_end0, lp@, m2 as int)) =~= (echo_before
                                        + spec_char_echo(at_end0, c2)) + spec_echo_from(
                                        at_end0,
                                        lp@,
                                        m2 as int,
                                    ));
                                }
                            }
                            let ghost buf_mid = self.buffer@;
                            let ghost echo_mid = echo@;
                            self.do_char(' ', echo);
                            proof {
                                assert(lp@.subrange(cur as int, lp@.len() as int) =~= lp@.skip(
                                    cur as int,
                                ));
                                assert(echo_mid =~= echo0 + spec_echo_from(
                                    at_end0,
                                    lp@,
                                    cur as int,
                                )) by {
                                    assert(spec_echo_from(at_end0, lp@, lp@.len() as int)
                                        =~= Seq::<char>::empty());
                                    assert(echo_mid + Seq::<char>::empty() =~= echo_mid);
                                }
                                assert(self.buffer@ =~= pre.buffer@.take(cur as int) + lp@.skip(
                                    cur as int,
                                ) + seq![' '] + pre.buffer@.skip(cur as int)) by {
                                    assert(buf_mid.insert(
                                        (cur + (lp@.len() - cur)) as int,
                                        ' ',
                                    ) =~= pre.buffer@.take(cur as int) + lp@.skip(cur as int)
                                        + seq![' '] + pre.buffer@.skip(cur as int));
                                }
                                assert(echo@ =~= echo0 + spec_echo_from(at_end0, lp@, cur as int)
                                    + spec_char_echo(at_end0, ' '));
                                assert forall|l: Seq<char>|
                                    spec_any_match(*all_commands, p) && #[trigger] spec_is_lcp_set(
                                        l,
                                        mset,
                                    ) && l != p implies self.buffer@ == pre.buffer@.take(
                                    pre.cursor as int,
                                ) + l.skip(p.len() as int) + seq![' '] + pre.buffer@.skip(
                                    pre.cursor as int,
                                ) && self.cursor == pre.cursor + (l.len() - p.len()) + 1 && echo@
                                    == old(echo)@ + spec_echo_from(at_end0, l, p.len() as int)
                                    + spec_char_echo(at_end0, ' ') by {
                                    assert(l == lp@);
                                }
                                assert(!(spec_is_lcp_set(p, mset))) by {
                                    if spec_is_lcp_set(p, mset) {
                                        assert(p == lp@);
                                    }
                                }
                            }
                        }
                    },
                }
            },
        }
    }

    /// React to one keystroke: characters insert at the cursor, Backspace
    /// deletes left of it, the arrows move it, Enter accepts and clears the
    /// line, Tab completes as [`spec_tab_post`] describes, and anything
    /// else is ignored. The echo field holds exactly what the terminal
    /// should display.
    pub fn handle_event(&mut self, event: MskEvent, all_commands: &Trie) -> (r: EditorResponse)
        requires
            old(self).wf(),
            all_commands.wf(),
        ensures
            final(self).wf(),
            match event {
                MskEvent::Key(MskKeyCode::Char(c)) => {
                    &&& r.line is None
                    &&& final(self).buffer@ == old(self).buffer@.insert(old(self).cursor as int, c)
                    &&& final(self).cursor == old(self).cursor + 1
                    &&& r.echo@ == spec_char_echo(old(self).cursor == old(self).buffer@.len(), c)
                },
                MskEvent::Key(MskKeyCode::Backspace) => {
                    &&& r.line is None
                    &&& (old(self).cursor > 0 ==> final(self).buffer@ == old(
                        self,
                    ).buffer@.remove((old(self).cursor - 1) as int) && final(self).cursor == old(
                        self,
                    ).cursor - 1 && r.echo@ == seq!['\u{8}', '\u{1b}', '[', 'P'])
                    &&& (old(self).cursor == 0 ==> *final(self) == *old(self) && r.echo@
                        == Seq::<char>::empty())
                },
                MskEvent::Key(MskKeyCode::Enter) => {
                    &&& r.line matches Some(l) && l@ == old(self).buffer@
                    &&& final(self).buffer@ == Seq::<char>::empty()
                    &&& final(self).cursor == 0
                    &&& r.echo@ == seq!['\r', '\n']
                },
                MskEvent::Key(MskKeyCode::ArrowRight) => {
                    &&& r.line is None
                    &&& final(self).buffer@ == old(self).buffer@
                    &&& (old(self).cursor < old(self).buffer@.len() ==> final(self).cursor == old(
                        self,
                    ).cursor + 1 && r.echo@ == seq!['\u{1b}', '[', 'C'])
                    &&& (old(self).cursor == old(self).buffer@.len() ==> final(self).cursor == old(
                        self,
                    ).cursor && r.echo@ == Seq::<char>::empty())
                },
                MskEvent::Key(MskKeyCode::ArrowLeft) => {
                    &&& r.line is None
                    &&& final(self).buffer@ == old(self).buffer@
                    &&& (old(self).cursor > 0 ==> final(self).cursor == old(self).cursor - 1
                        && r.echo@ == seq!['\u{1b}', '[', 'D'])
                    &&& (old(self).cursor == 0 ==> final(self).cursor == 0 && r.echo@
                        == Seq::<char>::empty())
                },
                MskEvent::Key(MskKeyCode::Tab) => {
                    &&& r.line is None
                    &&& spec_tab_post(
                        *old(self),
                        *final(self),
                        *all_commands,
                        Seq::empty(),
                        r.echo@,
                    )
                },
                MskEvent::Key(MskKeyCode::Up) | MskEvent::Key(MskKeyCode::Down) => {
                    &&& r.line is None
                    &&& *final(self) == *old(self)
                    &&& r.echo@ == Seq::<char>::empty()
                },
            },
    {
        let mut echo = String::new();
        proof {
            assert(echo@ =~= Seq::<char>::empty());
        }
        match event {
            MskEvent::Key(MskKeyCode::Char(c)) => {
                self.do_char(c, &mut echo);
                proof {
                    assert(Seq::<char>::empty() + spec_char_echo(
                        old(self).cursor == old(self).buffer@.len(),
                        c,
                    ) =~= spec_char_echo(old(self).cursor == old(self).buffer@.len(), c));
                }
                EditorResponse { line: None, echo }
            },
            MskEvent::Key(MskKeyCode::Backspace) => {
                if self.cursor > 0 {
                    self.buffer.remove(self.cursor - 1);
                    self.cursor = self.cursor - 1;
                    crate::lexer::push_char(&mut echo, '\u{8}');
                    crate::lexer::push_char(&mut echo, '\u{1b}');
                    crate::lexer::push_char(&mut echo, '[');
                    crate::lexer::push_char(&mut echo, 'P');
                    proof {
                        assert(echo@ =~= seq!['\u{8}', '\u{1b}', '[', 'P']);
                    }
                }
                EditorResponse { line: None, echo }
            },
            MskEvent::Key(MskKeyCode::Enter) => {
                let line = crate::chars_to_string(&self.buffer);
                self.buffer.clear();
                self.cursor = 0;
                crate::lexer::push_char(&mut echo, '\r');
                crate::lexer::push_char(&mut echo, '\n');
                proof {
                    assert(echo@ =~= seq!['\r', '\n']);
                }
                EditorResponse { line: Some(line), echo }
            },
            MskEvent::Key(MskKeyCode::ArrowRight) => {
                if self.cursor < self.buffer.len() {
                    self.cursor = self.cursor + 1;
                    crate::lexer::push_char(&mut echo, '\u{1b}');
                    crate::lexer::push_char(&mut echo, '[');
                    crate::lexer::push_char(&mut echo, 'C');
                    proof {
                        assert(echo@ =~= seq!['\u{1b}', '[', 'C']);
                    }
                }
                EditorResponse { line: None, echo }
            },
            MskEvent::Key(MskKeyCode::ArrowLeft) => {
                if self.cursor > 0 {
                    self.cursor = self.cursor - 1;
                    crate::lexer::push_char(&mut echo, '\u{1b}');
                    crate::lexer::push_char(&mut echo, '[');
                    crate::lexer::push_char(&mut echo, 'D');
                    proof {
                        assert(echo@ =~= seq!['\u{1b}', '[', 'D']);
                    }
                }
                EditorResponse { line: None, echo }
            },
            MskEvent::Key(MskKeyCode::Tab) => {
                self.do_tab(all_commands, &mut echo);
                EditorResponse { line: None, echo }
            },
            MskEvent::Key(MskKeyCode::Up) => EditorResponse { line: None, echo },
            MskEvent::Key(MskKeyCode::Down) => EditorResponse { line: None, echo },
        }
    }
}

} // verus!
