//! The parser: turns a token sequence into an argument vector and a list of
//! redirection descriptors.
//!
//! Tokens are consumed left to right. A redirection operator decodes to a
//! source file descriptor and a mode, and must be followed by a word naming
//! its target; a word expands its fragments (home-directory expansion applies
//! to raw fragments only) and concatenates them into one argument. A
//! malformed redirection is a fatal parse failure for the whole line.

use vstd::prelude::*;

use crate::lexer::{args_view, tokens_view, Args, SpecArg, SpecToken, Token};

verus! {

/// How a redirection target file is opened.
#[derive(Debug, Clone, Copy, PartialEq, Eq, Structural)]
pub enum RedirectionMode {
    Overwrite,
    Append,
}

/// Where a redirected stream goes: a file path, or (reserved) a descriptor.
#[derive(Debug, Clone, PartialEq, Eq)]
pub enum RedirectionTarget {
    File(String),
    Fd(i32),
}

/// One redirection action: which descriptor is replaced, where it goes, and
/// how the target is opened.
#[derive(Debug, Clone, PartialEq, Eq)]
pub struct Redirection {
    pub source_fd: i32,
    pub target: RedirectionTarget,
    pub mode: RedirectionMode,
}

/// The abstract value of a redirection target.
#[verifier::ext_equal]
pub enum SpecTarget {
    File(Seq<char>),
    Fd(int),
}

/// The abstract value of a redirection.
#[verifier::ext_equal]
pub struct SpecRedirection {
    pub source_fd: int,
    pub target: SpecTarget,
    pub mode: RedirectionMode,
}

impl View for RedirectionTarget {
    type V = SpecTarget;

    open spec fn view(&self) -> SpecTarget {
        match self {
            RedirectionTarget::File(p) => SpecTarget::File(p@),
            RedirectionTarget::Fd(d) => SpecTarget::Fd(*d as int),
        }
    }
}

impl View for Redirection {
    type V = SpecRedirection;

    open spec fn view(&self) -> SpecRedirection {
        SpecRedirection { source_fd: self.source_fd as int, target: self.target@, mode: self.mode }
    }
}

/// The abstract value of a redirection list.
pub open spec fn redirs_view(v: Seq<Redirection>) -> Seq<SpecRedirection> {
    v.map_values(|r: Redirection| r@)
}

/// The abstract value of an argument list.
pub open spec fn strings_view(v: Seq<String>) -> Seq<Seq<char>> {
    v.map_values(|s: String| s@)
}

/// The abstract value of the optional home directory.
pub open spec fn home_view(h: Option<String>) -> Option<Seq<char>> {
    match h {
        Some(s) => Some(s@),
        None => None,
    }
}

/// Why a line fails to parse.
#[derive(Debug, Clone, Copy, PartialEq, Eq, Structural)]
pub enum ParseError {
    /// A redirection operator stood last, with no target word after it.
    MissingRedirectTarget,
    /// A redirection operator was followed by another operator.
    RedirectTargetIsOp,
    /// An operator that no redirection form supports (an unsupported
    /// file-descriptor prefix, or a pipe inside one command's tokens).
    UnsupportedOperator,
}

/// Expansion of a single fragment: a raw fragment consisting of `~` alone
/// becomes the home directory, a raw fragment starting with `~/` has the
/// tilde replaced by the home directory; if no home directory is set the
/// fragment stays literal. Quoted fragments are always taken verbatim.
pub open spec fn spec_expand_arg(a: SpecArg, home: Option<Seq<char>>) -> Seq<char> {
    match a {
        SpecArg::Raw(s) => {
            if s =~= seq!['~'] {
                match home {
                    Some(h) => h,
                    None => s,
                }
            } else if s.len() >= 2 && s[0] == '~' && s[1] == '/' {
                match home {
                    Some(h) => h + s.skip(1),
                    None => s,
                }
            } else {
                s
            }
        },
        SpecArg::SingleQuotes(s) => s,
        SpecArg::DoubleQuotes(s) => s,
    }
}

/// Concatenation of the expanded fragments of one word, starting at
/// fragment `k`: fragment boundaries never introduce separators.
pub open spec fn spec_consolidate_from(frags: Seq<SpecArg>, k: int, home: Option<Seq<char>>) -> Seq<
    char,
>
    decreases frags.len() - k,
{
    if k < 0 || k >= frags.len() {
        Seq::empty()
    } else {
        spec_expand_arg(frags[k], home) + spec_consolidate_from(frags, k + 1, home)
    }
}

/// The single argument string that one word's fragments produce.
pub open spec fn spec_consolidate(frags: Seq<SpecArg>, home: Option<Seq<char>>) -> Seq<char> {
    spec_consolidate_from(frags, 0, home)
}

/// The source descriptor and mode that a redirection operator denotes, if
/// any: `>` and `1>` redirect descriptor 1 overwriting, `>>` and `1>>`
/// appending; `2>` and `2>>` the same for descriptor 2.
pub open spec fn spec_decode_op(op: Seq<char>) -> Option<(int, RedirectionMode)> {
    if op =~= seq!['>'] || op =~= seq!['1', '>'] {
        Some((1int, RedirectionMode::Overwrite))
    } else if op =~= seq!['>', '>'] || op =~= seq!['1', '>', '>'] {
        Some((1int, RedirectionMode::Append))
    } else if op =~= seq!['2', '>'] {
        Some((2int, RedirectionMode::Overwrite))
    } else if op =~= seq!['2', '>', '>'] {
        Some((2int, RedirectionMode::Append))
    } else {
        None
    }
}

/// The specification-level parser, consuming tokens from index `i` on: a
/// word becomes an argument; a redirection operator must be followed by a
/// word, which becomes its target; anything else is an error.
pub open spec fn parse_from(toks: Seq<SpecToken>, i: int, home: Option<Seq<char>>) -> Result<
    (Seq<Seq<char>>, Seq<SpecRedirection>),
    ParseError,
>
    decreases toks.len() - i,
{
    if i < 0 || i >= toks.len() {
        Ok((Seq::empty(), Seq::empty()))
    } else {
        match toks[i] {
            SpecToken::Word(frags) => {
                match parse_from(toks, i + 1, home) {
                    Ok(p) => Ok((seq![spec_consolidate(frags, home)] + p.0, p.1)),
                    Err(e) => Err(e),
                }
            },
            SpecToken::Op(op) => {
                match spec_decode_op(op) {
                    None => Err(ParseError::UnsupportedOperator),
                    Some(dm) => {
                        if i + 1 >= toks.len() {
                            Err(ParseError::MissingRedirectTarget)
                        } else {
                            match toks[i + 1] {
                                SpecToken::Op(_) => Err(ParseError::RedirectTargetIsOp),
                                SpecToken::Word(frags) => {
                                    match parse_from(toks, i + 2, home) {
                                        Ok(p) => Ok(
                                            (
                                                p.0,
                                                seq![
                                                    SpecRedirection {
                                                        source_fd: dm.0,
                                                        target: SpecTarget::File(
                                                            spec_consolidate(frags, home),
                                                        ),
                                                        mode: dm.1,
                                                    }
                                                ] + p.1,
                                            ),
                                        ),
                                        Err(e) => Err(e),
                                    }
                                },
                            }
                        }
                    },
                }
            },
        }
    }
}

/// The parse of a whole token group.
pub open spec fn spec_parse_tokens(toks: Seq<SpecToken>, home: Option<Seq<char>>) -> Result<
    (Seq<Seq<char>>, Seq<SpecRedirection>),
    ParseError,
> {
    parse_from(toks, 0, home)
}

/// Prepending already-consumed arguments and redirections to the parse of
/// the remaining tokens.
pub open spec fn pcombine(
    a: Seq<Seq<char>>,
    r: Seq<SpecRedirection>,
    rest: Result<(Seq<Seq<char>>, Seq<SpecRedirection>), ParseError>,
) -> Result<(Seq<Seq<char>>, Seq<SpecRedirection>), ParseError> {
    match rest {
        Ok(p) => Ok((a + p.0, r + p.1)),
        Err(e) => Err(e),
    }
}

/// Expansion of one fragment, as [`spec_expand_arg`] describes.
pub fn expand_arg(arg: &Args, home: &Option<String>) -> (out: String)
    ensures
        out@ == spec_expand_arg(arg@, home_view(*home)),
{
    match arg {
        Args::Raw(s) => {
            let n = s.as_str().unicode_len();
            if n == 1 && s.as_str().get_char(0) == '~' {
                proof {
                    assert(s@ =~= seq!['~']);
                }
                match home {
                    Some(h) => h.clone(),
                    None => s.clone(),
                }
            } else if n >= 2 && s.as_str().get_char(0) == '~' && s.as_str().get_char(1) == '/' {
                proof {
                    assert(!(s@ =~= seq!['~']));
                }
                match home {
                    Some(h) => {
                        let mut out = h.clone();
                        out.append(s.as_str().substring_char(1, n));
                        proof {
                            assert(s@.subrange(1, n as int) =~= s@.skip(1));
                        }
                        out
                    },
                    None => s.clone(),
                }
            } else {
                proof {
                    assert(!(s@ =~= seq!['~']));
                }
                s.clone()
            }
        },
        Args::SingleQuotes(s) => s.clone(),
        Args::DoubleQuotes(s) => s.clone(),
    }
}

/// Concatenation of one word's expanded fragments into a single argument.
pub fn consolidate_args(frags: &Vec<Args>, home: &Option<String>) -> (out: String)
    ensures
        out@ == spec_consolidate(args_view(frags@), home_view(*home)),
{
    let mut out = String::new();
    let n = frags.len();
    let mut k: usize = 0;
    while k < n
        invariant
            k <= n,
            n == frags.len(),
            spec_consolidate(args_view(frags@), home_view(*home)) == out@
                + spec_consolidate_from(args_view(frags@), k as int, home_view(*home)),
        decreases n - k,
    {
        let piece = expand_arg(&frags[k], home);
        out.append(piece.as_str());
        k = k + 1;
    }
    proof {
        assert(out@ =~= out@ + Seq::<char>::empty());
    }
    out
}

/// Decode a redirection operator, as [`spec_decode_op`] describes.
fn decode_op(op: &String) -> (r: Option<(i32, RedirectionMode)>)
    ensures
        match r {
            Some(dm) => spec_decode_op(op@) == Some((dm.0 as int, dm.1)),
            None => spec_decode_op(op@) == None::<(int, RedirectionMode)>,
        },
{
    let n = op.as_str().unicode_len();
    if n == 1 {
        let c0 = op.as_str().get_char(0);
        if c0 == '>' {
            proof {
                assert(op@ =~= seq!['>']);
            }
            Some((1, RedirectionMode::Overwrite))
        } else {
            None
        }
    } else if n == 2 {
        let c0 = op.as_str().get_char(0);
        let c1 = op.as_str().get_char(1);
        if c0 == '>' && c1 == '>' {
            proof {
                assert(op@ =~= seq!['>', '>']);
            }
            Some((1, RedirectionMode::Append))
        } else if c0 == '1' && c1 == '>' {
            proof {
                assert(op@ =~= seq!['1', '>']);
            }
            Some((1, RedirectionMode::Overwrite))
        } else if c0 == '2' && c1 == '>' {
            proof {
                assert(op@ =~= seq!['2', '>']);
            }
            Some((2, RedirectionMode::Overwrite))
        } else {
            None
        }
    } else if n == 3 {
        let c0 = op.as_str().get_char(0);
        let c1 = op.as_str().get_char(1);
        let c2 = op.as_str().get_char(2);
        if c0 == '1' && c1 == '>' && c2 == '>' {
            proof {
                assert(op@ =~= seq!['1', '>', '>']);
            }
            Some((1, RedirectionMode::Append))
        } else if c0 == '2' && c1 == '>' && c2 == '>' {
            proof {
                assert(op@ =~= seq!['2', '>', '>']);
            }
            Some((2, RedirectionMode::Append))
        } else {
            None
        }
    } else {
        None
    }
}

/// Parse one command's tokens into its argument vector and redirections.
///
/// The result is exactly what the specification-level parser
/// [`spec_parse_tokens`] yields: each word one argument in order, each
/// redirection operator paired with the word that follows it, and the first
/// malformed redirection aborting the parse. The redirection list is absent
/// exactly when no redirection occurred.
pub fn parse_tokens_to_args(tokens: Vec<Token>, home: &Option<String>) -> (r: Result<
    (Vec<String>, Option<Vec<Redirection>>),
    ParseError,
>)
    ensures
        match r {
            Ok(p) => {
                &&& spec_parse_tokens(tokens_view(tokens@), home_view(*home)) matches Ok(sp)
                &&& sp.0 == strings_view(p.0@)
                &&& sp.1 == (match p.1 {
                    Some(v) => redirs_view(v@),
                    None => Seq::<SpecRedirection>::empty(),
                })
                &&& (p.1 matches Some(v) ==> v@.len() > 0)
            },
            Err(e) => spec_parse_tokens(tokens_view(tokens@), home_view(*home)) == Err::<
                (Seq<Seq<char>>, Seq<SpecRedirection>),
                ParseError,
            >(e),
        },
{
    let ghost tv = tokens_view(tokens@);
    let ghost oh = home_view(*home);
    let mut args: Vec<String> = Vec::new();
    let mut redirections: Vec<Redirection> = Vec::new();
    let n = tokens.len();
    let mut i: usize = 0;
    proof {
        assert(strings_view(args@) =~= Seq::<Seq<char>>::empty());
        assert(redirs_view(redirections@) =~= Seq::<SpecRedirection>::empty());
        match parse_from(tv, 0, oh) {
            Ok(p) => {
                assert(strings_view(args@) + p.0 =~= p.0);
                assert(redirs_view(redirections@) + p.1 =~= p.1);
            },
            Err(e) => {},
        }
    }
    while i < n
        invariant
            i <= n,
            n == tokens.len(),
            tv == tokens_view(tokens@),
            oh == home_view(*home),
            parse_from(tv, 0, oh) == pcombine(
                strings_view(args@),
                redirs_view(redirections@),
                parse_from(tv, i as int, oh),
            ),
        decreases n - i,
    {
        let ghost i0 = i as int;
        let ghost args0 = strings_view(args@);
        let ghost rs0 = redirs_view(redirections@);
        match &tokens[i] {
            Token::Word(items) => {
                let s = consolidate_args(items, home);
                args.push(s);
                i = i + 1;
                proof {
                    assert(tv[i0] == tokens@[i0]@);
                    let w = spec_consolidate(args_view(items@), oh);
                    assert(strings_view(args@) =~= args0.push(w));
                    match parse_from(tv, i0 + 1, oh) {
                        Ok(p) => {
                            assert(args0 + (seq![w] + p.0) =~= strings_view(args@) + p.0);
                        },
                        Err(e) => {},
                    }
                }
            },
            Token::Op(op) => {
                proof {
                    assert(tv[i0] == tokens@[i0]@);
                }
                match decode_op(op) {
                    None => {
                        proof {
                            assert(parse_from(tv, i0, oh) == Err::<
                                (Seq<Seq<char>>, Seq<SpecRedirection>),
                                ParseError,
                            >(ParseError::UnsupportedOperator));
                        }
                        return Err(ParseError::UnsupportedOperator);
                    },
                    Some(dm) => {
                        if i + 1 >= n {
                            proof {
                                assert(parse_from(tv, i0, oh) == Err::<
                                    (Seq<Seq<char>>, Seq<SpecRedirection>),
                                    ParseError,
                                >(ParseError::MissingRedirectTarget));
                            }
                            return Err(ParseError::MissingRedirectTarget);
                        }
                        match &tokens[i + 1] {
                            Token::Op(_) => {
                                proof {
                                    assert(tv[i0 + 1] == tokens@[i0 + 1]@);
                                    assert(parse_from(tv, i0, oh) == Err::<
                                        (Seq<Seq<char>>, Seq<SpecRedirection>),
                                        ParseError,
                                    >(ParseError::RedirectTargetIsOp));
                                }
                                return Err(ParseError::RedirectTargetIsOp);
                            },
                            Token::Word(items) => {
                                let path = consolidate_args(items, home);
                                let red = Redirection {
                                    source_fd: dm.0,
                                    target: RedirectionTarget::File(path),
                                    mode: dm.1,
                                };
                                redirections.push(red);
                                i = i + 2;
                                proof {
                                    assert(tv[i0 + 1] == tokens@[i0 + 1]@);
                                    let sr = SpecRedirection {
                                        source_fd: dm.0 as int,
                                        target: SpecTarget::File(
                                            spec_consolidate(args_view(items@), oh),
                                        ),
                                        mode: dm.1,
                                    };
                                    assert(red@ =~~= sr);
                                    assert(redirs_view(redirections@) =~= rs0.push(sr));
                                    match parse_from(tv, i0 + 2, oh) {
                                        Ok(p) => {
                                            assert(rs0 + (seq![sr] + p.1) =~= redirs_view(
                                                redirections@,
                                            ) + p.1);
                                        },
                                        Err(e) => {},
                                    }
                                }
                            },
                        }
                    },
                }
            },
        }
    }
    proof {
        assert(strings_view(args@) + Seq::<Seq<char>>::empty() =~= strings_view(args@));
        assert(redirs_view(redirections@) + Seq::<SpecRedirection>::empty() =~= redirs_view(
            redirections@,
        ));
    }
    if redirections.is_empty() {
        proof {
            assert(redirs_view(redirections@) =~= Seq::<SpecRedirection>::empty());
        }
        Ok((args, None))
    } else {
        Ok((args, Some(redirections)))
    }
}

} // verus!
