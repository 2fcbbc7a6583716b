//! The lexer: a quoting/escaping-aware tokenizer.
//!
//! A single left-to-right pass over the input characters, in one of three
//! mutually exclusive states (normal, inside single quotes, inside double
//! quotes), produces a sequence of tokens: operators (`|`, `>`, `>>`, `N>`,
//! `N>>`) and words. A word is an ordered sequence of fragments, because
//! adjacent quoted and unquoted spans concatenate into one argument.
//!
//! The meaning of the pass is pinned down by the specification-level
//! tokenizer [`spec_tokenize`]; the executable [`tokens_generate`] is proved
//! to return exactly its result.

use vstd::prelude::*;

use crate::{char_is_digit, char_is_space, spec_is_digit, spec_is_space};

verus! {

/// One quoted or unquoted span of text inside a word, prior to expansion.
/// The fragment kind determines expansion rules at parse time.
#[derive(Debug, PartialEq, Eq)]
pub enum Args {
    Raw(String),
    SingleQuotes(String),
    DoubleQuotes(String),
}

/// A lexer output unit: either an operator or a word composed of fragments.
#[derive(Debug, PartialEq, Eq)]
pub enum Token {
    Op(String),
    Word(Vec<Args>),
}

/// The abstract value of a fragment: its kind and its character sequence.
#[verifier::ext_equal]
pub enum SpecArg {
    Raw(Seq<char>),
    SingleQuotes(Seq<char>),
    DoubleQuotes(Seq<char>),
}

/// The abstract value of a token.
#[verifier::ext_equal]
pub enum SpecToken {
    Op(Seq<char>),
    Word(Seq<SpecArg>),
}

impl View for Args {
    type V = SpecArg;

    open spec fn view(&self) -> SpecArg {
        match self {
            Args::Raw(s) => SpecArg::Raw(s@),
            Args::SingleQuotes(s) => SpecArg::SingleQuotes(s@),
            Args::DoubleQuotes(s) => SpecArg::DoubleQuotes(s@),
        }
    }
}

impl DeepView for Args {
    type V = SpecArg;

    open spec fn deep_view(&self) -> SpecArg {
        self.view()
    }
}

/// The abstract value of a fragment sequence.
pub open spec fn args_view(v: Seq<Args>) -> Seq<SpecArg> {
    v.map_values(|a: Args| a@)
}

impl View for Token {
    type V = SpecToken;

    open spec fn view(&self) -> SpecToken {
        match self {
            Token::Op(s) => SpecToken::Op(s@),
            Token::Word(v) => SpecToken::Word(args_view(v@)),
        }
    }
}

impl DeepView for Token {
    type V = SpecToken;

    open spec fn deep_view(&self) -> SpecToken {
        self.view()
    }
}

/// The abstract value of a token sequence.
pub open spec fn tokens_view(v: Seq<Token>) -> Seq<SpecToken> {
    v.map_values(|t: Token| t@)
}

/// The three mutually exclusive lexer states.
#[derive(Clone, Copy, PartialEq, Eq, Structural)]
pub enum ParseState {
    Normal,
    InSingleQuotes,
    InDoubleQuotes,
}

/// The full lexer state between two characters: the mode, the text
/// accumulated for the current fragment, the fragments accumulated for the
/// current word, and the tokens already emitted.
#[verifier::ext_equal]
pub struct LexSt {
    pub mode: ParseState,
    pub cur: Seq<char>,
    pub frags: Seq<SpecArg>,
    pub toks: Seq<SpecToken>,
}

/// The fragment that a flush produces while in the given state.
pub open spec fn frag_of(mode: ParseState, s: Seq<char>) -> SpecArg {
    match mode {
        ParseState::Normal => SpecArg::Raw(s),
        ParseState::InSingleQuotes => SpecArg::SingleQuotes(s),
        ParseState::InDoubleQuotes => SpecArg::DoubleQuotes(s),
    }
}

/// Flushing the pending text into the fragment list: an empty pending text
/// produces no fragment.
pub open spec fn flush_frags(mode: ParseState, cur: Seq<char>, frags: Seq<SpecArg>) -> Seq<
    SpecArg,
> {
    if cur.len() == 0 {
        frags
    } else {
        frags.push(frag_of(mode, cur))
    }
}

/// Closing the current word: an empty fragment list produces no token.
pub open spec fn close_toks(frags: Seq<SpecArg>, toks: Seq<SpecToken>) -> Seq<SpecToken> {
    if frags.len() == 0 {
        toks
    } else {
        toks.push(SpecToken::Word(frags))
    }
}

/// Flush the pending text, leaving the mode and emitted tokens unchanged.
pub open spec fn st_flush(st: LexSt) -> LexSt {
    LexSt { cur: Seq::empty(), frags: flush_frags(st.mode, st.cur, st.frags), ..st }
}

/// Close the current word, leaving the mode and pending text unchanged.
pub open spec fn st_close(st: LexSt) -> LexSt {
    LexSt { frags: Seq::empty(), toks: close_toks(st.frags, st.toks), ..st }
}

/// Emit an operator token.
pub open spec fn st_op(st: LexSt, op: Seq<char>) -> LexSt {
    LexSt { toks: st.toks.push(SpecToken::Op(op)), ..st }
}

/// The number of consecutive decimal digits in `s` starting at index `i`.
pub open spec fn digit_run(s: Seq<char>, i: int) -> nat
    decreases s.len() - i,
{
    if i < 0 || i >= s.len() || !spec_is_digit(s[i]) {
        0
    } else {
        1 + digit_run(s, i + 1)
    }
}

/// The characters that a backslash escapes inside double quotes; for any
/// other following character the backslash itself is kept literally.
pub open spec fn spec_dq_escapable(c: char) -> bool {
    c == '\\' || c == '"' || c == '$' || c == '\n' || c == '`'
}

/// The specification-level tokenizer: the tokens produced by running the
/// state machine from state `st` over `input` starting at index `i`.
///
/// In the normal state a backslash escapes the next character literally;
/// quotes flush the pending fragment and switch state; whitespace closes the
/// current word; `|` and `>` close the word and become operators, with `>>`
/// lexed as one operator; a run of digits immediately followed by `>` is a
/// file-descriptor prefix only when no raw text has accumulated yet for the
/// current word. Inside single quotes every character is verbatim until the
/// closing quote. Inside double quotes a backslash escapes only a limited
/// set of characters. At the end of input the pending fragment and word are
/// flushed, which treats an unterminated quote as if it were closed.
pub open spec fn lex_from(input: Seq<char>, i: int, st: LexSt) -> Seq<SpecToken>
    decreases input.len() - i,
{
    if i < 0 || i >= input.len() {
        st_close(st_flush(st)).toks
    } else {
        let c = input[i];
        match st.mode {
            ParseState::Normal => {
                if c == '\\' {
                    if i + 1 < input.len() {
                        lex_from(input, i + 2, LexSt { cur: st.cur.push(input[i + 1]), ..st })
                    } else {
                        lex_from(input, i + 1, st)
                    }
                } else if c == '\'' {
                    lex_from(
                        input,
                        i + 1,
                        LexSt { mode: ParseState::InSingleQuotes, ..st_flush(st) },
                    )
                } else if c == '"' {
                    lex_from(
                        input,
                        i + 1,
                        LexSt { mode: ParseState::InDoubleQuotes, ..st_flush(st) },
                    )
                } else if spec_is_space(c) {
                    lex_from(input, i + 1, st_close(st_flush(st)))
                } else if c == '>' || c == '|' {
                    let st1 = st_close(st_flush(st));
                    if c == '>' && i + 1 < input.len() && input[i + 1] == '>' {
                        lex_from(input, i + 2, st_op(st1, seq!['>', '>']))
                    } else {
                        lex_from(input, i + 1, st_op(st1, seq![c]))
                    }
                } else if spec_is_digit(c) {
                    let j = i + 1 + digit_run(input, i + 1);
                    if j < input.len() && input[j] == '>' && st.cur.len() == 0 {
                        let st1 = st_close(st);
                        if j + 1 < input.len() && input[j + 1] == '>' {
                            lex_from(input, j + 2, st_op(st1, input.subrange(i, j + 2)))
                        } else {
                            lex_from(input, j + 1, st_op(st1, input.subrange(i, j + 1)))
                        }
                    } else {
                        lex_from(input, i + 1, LexSt { cur: st.cur.push(c), ..st })
                    }
                } else {
                    lex_from(input, i + 1, LexSt { cur: st.cur.push(c), ..st })
                }
            },
            ParseState::InSingleQuotes => {
                if c == '\'' {
                    lex_from(input, i + 1, LexSt { mode: ParseState::Normal, ..st_flush(st) })
                } else {
                    lex_from(input, i + 1, LexSt { cur: st.cur.push(c), ..st })
                }
            },
            ParseState::InDoubleQuotes => {
                if c == '"' {
                    lex_from(input, i + 1, LexSt { mode: ParseState::Normal, ..st_flush(st) })
                } else if c == '\\' {
                    if i + 1 < input.len() && spec_dq_escapable(input[i + 1]) {
                        lex_from(input, i + 2, LexSt { cur: st.cur.push(input[i + 1]), ..st })
                    } else {
                        lex_from(input, i + 1, LexSt { cur: st.cur.push('\\'), ..st })
                    }
                } else {
                    lex_from(input, i + 1, LexSt { cur: st.cur.push(c), ..st })
                }
            },
        }
    }
}

/// The initial lexer state: normal mode, nothing accumulated.
pub open spec fn lex_init() -> LexSt {
    LexSt {
        mode: ParseState::Normal,
        cur: Seq::empty(),
        frags: Seq::empty(),
        toks: Seq::empty(),
    }
}

/// The token sequence of a whole input line.
pub open spec fn spec_tokenize(input: Seq<char>) -> Seq<SpecToken> {
    lex_from(input, 0, lex_init())
}

/// Relies on String::push: appends exactly the given character.
#[verifier::external_body]
pub(crate) fn push_char(s: &mut String, c: char)
    ensures
        final(s)@ == old(s)@.push(c),
{
    s.push(c);
}

/// Move the accumulated text out, leaving the buffer empty.
fn take_string(s: &mut String) -> (r: String)
    ensures
        r@ == old(s)@,
        final(s)@ == Seq::<char>::empty(),
{
    let mut t = String::new();
    core::mem::swap(s, &mut t);
    t
}

/// Move the accumulated fragments out, leaving the list empty.
fn take_args(v: &mut Vec<Args>) -> (r: Vec<Args>)
    ensures
        r@ == old(v)@,
        final(v)@ == Seq::<Args>::empty(),
{
    let mut t: Vec<Args> = Vec::new();
    core::mem::swap(v, &mut t);
    t
}

/// Move the accumulated tokens out, leaving the list empty.
pub(crate) fn take_tokens(v: &mut Vec<Token>) -> (r: Vec<Token>)
    ensures
        r@ == old(v)@,
        final(v)@ == Seq::<Token>::empty(),
{
    let mut t: Vec<Token> = Vec::new();
    core::mem::swap(v, &mut t);
    t
}

/// Flush the pending text into the fragment list, tagging it by the current
/// state; an empty pending text produces no fragment.
fn flush_string_to_args(args_vec: &mut Vec<Args>, s: &mut String, state: ParseState)
    ensures
        args_view(final(args_vec)@) == flush_frags(state, old(s)@, args_view(old(args_vec)@)),
        final(s)@ == Seq::<char>::empty(),
{
    if !s.as_str().is_empty() {
        let value_to_push = take_string(s);
        let frag = match state {
            ParseState::Normal => Args::Raw(value_to_push),
            ParseState::InSingleQuotes => Args::SingleQuotes(value_to_push),
            ParseState::InDoubleQuotes => Args::DoubleQuotes(value_to_push),
        };
        args_vec.push(frag);
        proof {
            assert(args_view(args_vec@) =~= flush_frags(
                state,
                old(s)@,
                args_view(old(args_vec)@),
            ));
        }
    } else {
        proof {
            assert(old(s)@ =~= Seq::<char>::empty());
            assert(s@ =~= Seq::<char>::empty());
        }
    }
}

/// Close the current word: a non-empty fragment list becomes one word token.
fn flush_args_to_token(tokens_vec: &mut Vec<Token>, args_vec: &mut Vec<Args>)
    ensures
        tokens_view(final(tokens_vec)@) == close_toks(
            args_view(old(args_vec)@),
            tokens_view(old(tokens_vec)@),
        ),
        final(args_vec)@ == Seq::<Args>::empty(),
{
    if !args_vec.is_empty() {
        let v = take_args(args_vec);
        tokens_vec.push(Token::Word(v));
        proof {
            assert(tokens_view(tokens_vec@) =~= close_toks(
                args_view(old(args_vec)@),
                tokens_view(old(tokens_vec)@),
            ));
        }
    } else {
        proof {
            assert(args_view(old(args_vec)@) =~= Seq::<SpecArg>::empty());
        }
    }
}

proof fn lemma_digit_run_range(s: Seq<char>, a: int, b: int)
    requires
        0 <= a <= b <= s.len(),
        forall|k: int| a <= k < b ==> spec_is_digit(s[k]),
        b == s.len() || !spec_is_digit(s[b]),
    ensures
        digit_run(s, a) == b - a,
    decreases b - a,
{
    if a < b {
        lemma_digit_run_range(s, a + 1, b);
    }
}

/// The end of the run of consecutive digits beginning at `start`.
fn scan_digit_run(input: &str, start: usize, n: usize) -> (j: usize)
    requires
        n == input@.len(),
        start <= n,
    ensures
        start <= j <= n,
        j - start == digit_run(input@, start as int),
{
    let mut j = start;
    while j < n && char_is_digit(input.get_char(j))
        invariant
            start <= j <= n,
            n == input@.len(),
            forall|k: int| start <= k < j ==> spec_is_digit(input@[k]),
        decreases n - j,
    {
        j = j + 1;
    }
    proof {
        lemma_digit_run_range(input@, start as int, j as int);
    }
    j
}

/// Tokenize one raw input line.
///
/// Purely functional: the result is exactly the token sequence that the
/// specification-level state machine [`spec_tokenize`] assigns to the input.
pub fn tokens_generate(input: &str) -> (tokens: Vec<Token>)
    ensures
        tokens_view(tokens@) == spec_tokenize(input@),
{
    let n = input.unicode_len();
    let mut tokens: Vec<Token> = Vec::new();
    let mut current_word_args: Vec<Args> = Vec::new();
    let mut current_string = String::new();
    let mut state = ParseState::Normal;
    let mut i: usize = 0;
    proof {
        assert(current_string@ =~= Seq::<char>::empty());
        assert(args_view(current_word_args@) =~= Seq::<SpecArg>::empty());
        assert(tokens_view(tokens@) =~= Seq::<SpecToken>::empty());
        assert(LexSt {
            mode: state,
            cur: current_string@,
            frags: args_view(current_word_args@),
            toks: tokens_view(tokens@),
        } =~~= lex_init());
    }
    while i < n
        invariant
            i <= n,
            n == input@.len(),
            spec_tokenize(input@) == lex_from(
                input@,
                i as int,
                LexSt {
                    mode: state,
                    cur: current_string@,
                    frags: args_view(current_word_args@),
                    toks: tokens_view(tokens@),
                },
            ),
        decreases n - i,
    {
        let ghost i0 = i as int;
        let ghost st0 = LexSt {
            mode: state,
            cur: current_string@,
            frags: args_view(current_word_args@),
            toks: tokens_view(tokens@),
        };
        let c = input.get_char(i);
        match state {
            ParseState::Normal => {
                if c == '\\' {
                    if i + 1 < n {
                        let c2 = input.get_char(i + 1);
                        push_char(&mut current_string, c2);
                        i = i + 2;
                    } else {
                        i = i + 1;
                    }
                } else if c == '\'' {
                    flush_string_to_args(&mut current_word_args, &mut current_string, state);
                    state = ParseState::InSingleQuotes;
                    i = i + 1;
                    proof {
                        assert(LexSt {
                            mode: state,
                            cur: current_string@,
                            frags: args_view(current_word_args@),
                            toks: tokens_view(tokens@),
                        } =~~= (LexSt { mode: ParseState::InSingleQuotes, ..st_flush(st0) }));
                    }
                } else if c == '"' {
                    flush_string_to_args(&mut current_word_args, &mut current_string, state);
                    state = ParseState::InDoubleQuotes;
                    i = i + 1;
                    proof {
                        assert(LexSt {
                            mode: state,
                            cur: current_string@,
                            frags: args_view(current_word_args@),
                            toks: tokens_view(tokens@),
                        } =~~= (LexSt { mode: ParseState::InDoubleQuotes, ..st_flush(st0) }));
                    }
                } else if char_is_space(c) {
                    flush_string_to_args(&mut current_word_args, &mut current_string, state);
                    flush_args_to_token(&mut tokens, &mut current_word_args);
                    i = i + 1;
                    proof {
                        assert(LexSt {
                            mode: state,
                            cur: current_string@,
                            frags: args_view(current_word_args@),
                            toks: tokens_view(tokens@),
                        } =~~= st_close(st_flush(st0)));
                    }
                } else if c == '>' || c == '|' {
                    flush_string_to_args(&mut current_word_args, &mut current_string, state);
                    flush_args_to_token(&mut tokens, &mut current_word_args);
                    let ghost st1 = st_close(st_flush(st0));
                    let mut op = String::new();
                    push_char(&mut op, c);
                    if c == '>' && i + 1 < n && input.get_char(i + 1) == '>' {
                        push_char(&mut op, '>');
                        i = i + 2;
                        proof {
                            assert(op@ =~= seq!['>', '>']);
                        }
                    } else {
                        i = i + 1;
                        proof {
                            assert(op@ =~= seq![c]);
                        }
                    }
                    tokens.push(Token::Op(op));
                    proof {
                        assert(tokens_view(tokens@) =~= st1.toks.push(SpecToken::Op(op@)));
                        assert(LexSt {
                            mode: state,
                            cur: current_string@,
                            frags: args_view(current_word_args@),
                            toks: tokens_view(tokens@),
                        } =~~= st_op(st1, op@));
                    }
                } else if char_is_digit(c) {
                    let j = scan_digit_run(input, i + 1, n);
                    let is_redirect = j < n && input.get_char(j) == '>';
                    if is_redirect && current_string.as_str().is_empty() {
                        flush_args_to_token(&mut tokens, &mut current_word_args);
                        let ghost st1 = st_close(st0);
                        let mut op = String::new();
                        let mut k = i;
                        while k < j
                            invariant
                                i <= k <= j <= n,
                                n == input@.len(),
                                op@ == input@.subrange(i as int, k as int),
                            decreases j - k,
                        {
                            let d = input.get_char(k);
                            push_char(&mut op, d);
                            k = k + 1;
                            proof {
                                assert(op@ =~= input@.subrange(i as int, k as int));
                            }
                        }
                        push_char(&mut op, '>');
                        if j + 1 < n && input.get_char(j + 1) == '>' {
                            push_char(&mut op, '>');
                            i = j + 2;
                            proof {
                                assert(op@ =~= input@.subrange(i0, j + 2));
                            }
                        } else {
                            i = j + 1;
                            proof {
                                assert(op@ =~= input@.subrange(i0, j + 1));
                            }
                        }
                        tokens.push(Token::Op(op));
                        proof {
                            assert(tokens_view(tokens@) =~= st1.toks.push(SpecToken::Op(op@)));
                            assert(st0.cur.len() == 0);
                            assert(LexSt {
                                mode: state,
                                cur: current_string@,
                                frags: args_view(current_word_args@),
                                toks: tokens_view(tokens@),
                            } =~~= st_op(st1, op@));
                        }
                    } else {
                        push_char(&mut current_string, c);
                        i = i + 1;
                    }
                } else {
                    push_char(&mut current_string, c);
                    i = i + 1;
                }
            },
            ParseState::InSingleQuotes => {
                if c == '\'' {
                    flush_string_to_args(&mut current_word_args, &mut current_string, state);
                    state = ParseState::Normal;
                    i = i + 1;
                    proof {
                        assert(LexSt {
                            mode: state,
                            cur: current_string@,
                            frags: args_view(current_word_args@),
                            toks: tokens_view(tokens@),
                        } =~~= (LexSt { mode: ParseState::Normal, ..st_flush(st0) }));
                    }
                } else {
                    push_char(&mut current_string, c);
                    i = i + 1;
                }
            },
            ParseState::InDoubleQuotes => {
                if c == '"' {
                    flush_string_to_args(&mut current_word_args, &mut current_string, state);
                    state = ParseState::Normal;
                    i = i + 1;
                    proof {
                        assert(LexSt {
                            mode: state,
                            cur: current_string@,
                            frags: args_view(current_word_args@),
                            toks: tokens_view(tokens@),
                        } =~~= (LexSt { mode: ParseState::Normal, ..st_flush(st0) }));
                    }
                } else if c == '\\' {
                    if i + 1 < n {
                        let c2 = input.get_char(i + 1);
                        if c2 == '\\' || c2 == '"' || c2 == '$' || c2 == '\n' || c2 == '`' {
                            push_char(&mut current_string, c2);
                            i = i + 2;
                        } else {
                            push_char(&mut current_string, '\\');
                            i = i + 1;
                        }
                    } else {
                        push_char(&mut current_string, '\\');
                        i = i + 1;
                    }
                } else {
                    push_char(&mut current_string, c);
                    i = i + 1;
                }
            },
        }
    }
    flush_string_to_args(&mut current_word_args, &mut current_string, state);
    flush_args_to_token(&mut tokens, &mut current_word_args);
    tokens
}

} // verus!
