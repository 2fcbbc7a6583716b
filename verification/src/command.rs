//! Commands and pipelines: name resolution, the pipeline parser, builtin
//! output computation, and the pure planning logic of the pipeline executor.
//!
//! Name resolution and home-directory expansion never read the process
//! environment themselves: the environment is an explicit value
//! ([`ShellEnv`]) handed in by the caller, so that every decision taken on
//! it is a function of plain data.

use vstd::prelude::*;

use crate::lexer::{tokens_view, SpecToken, Token};
use crate::parser::{
    home_view, parse_tokens_to_args, redirs_view, spec_parse_tokens, strings_view, ParseError,
    Redirection, RedirectionMode, SpecRedirection,
};

verus! {

/// Relies on str's `PartialEq`: equality of two string slices is equality
/// of their character sequences.
#[verifier::external_body]
fn str_eq(a: &str, b: &str) -> (r: bool)
    ensures
        r == (a@ == b@),
{
    a == b
}

/// The commands implemented in-process by the shell itself.
#[derive(Debug, Clone, Copy, PartialEq, Eq, Structural)]
pub enum BuiltinCommand {
    ECHO,
    EXIT,
    HISTORY,
    TYPE,
    PWD,
    CD,
}

/// The name under which each builtin is invoked.
pub open spec fn spec_builtin_name(b: BuiltinCommand) -> Seq<char> {
    match b {
        BuiltinCommand::ECHO => "echo"@,
        BuiltinCommand::EXIT => "exit"@,
        BuiltinCommand::HISTORY => "history"@,
        BuiltinCommand::TYPE => "type"@,
        BuiltinCommand::PWD => "pwd"@,
        BuiltinCommand::CD => "cd"@,
    }
}

/// The builtin a command name denotes, if any.
pub open spec fn spec_builtin_of(s: Seq<char>) -> Option<BuiltinCommand> {
    if s == "echo"@ {
        Some(BuiltinCommand::ECHO)
    } else if s == "exit"@ {
        Some(BuiltinCommand::EXIT)
    } else if s == "history"@ {
        Some(BuiltinCommand::HISTORY)
    } else if s == "type"@ {
        Some(BuiltinCommand::TYPE)
    } else if s == "pwd"@ {
        Some(BuiltinCommand::PWD)
    } else if s == "cd"@ {
        Some(BuiltinCommand::CD)
    } else {
        None
    }
}

impl BuiltinCommand {
    /// The name under which this builtin is invoked.
    pub fn name(&self) -> (r: &'static str)
        ensures
            r@ == spec_builtin_name(*self),
    {
        match self {
            BuiltinCommand::ECHO => "echo",
            BuiltinCommand::EXIT => "exit",
            BuiltinCommand::HISTORY => "history",
            BuiltinCommand::TYPE => "type",
            BuiltinCommand::PWD => "pwd",
            BuiltinCommand::CD => "cd",
        }
    }
}

/// The builtin a command name denotes, if any.
pub fn builtin_of_name(s: &String) -> (r: Option<BuiltinCommand>)
    ensures
        r == spec_builtin_of(s@),
{
    if str_eq(s.as_str(), "echo") {
        Some(BuiltinCommand::ECHO)
    } else if str_eq(s.as_str(), "exit") {
        Some(BuiltinCommand::EXIT)
    } else if str_eq(s.as_str(), "history") {
        Some(BuiltinCommand::HISTORY)
    } else if str_eq(s.as_str(), "type") {
        Some(BuiltinCommand::TYPE)
    } else if str_eq(s.as_str(), "pwd") {
        Some(BuiltinCommand::PWD)
    } else if str_eq(s.as_str(), "cd") {
        Some(BuiltinCommand::CD)
    } else {
        None
    }
}

/// Resolving a name to a builtin and reading that builtin's name back give
/// the original name; in particular no two builtins share a name.
pub proof fn lemma_builtin_name_of(s: Seq<char>, b: BuiltinCommand)
    ensures
        spec_builtin_of(s) == Some(b) ==> spec_builtin_name(b) == s,
        spec_builtin_of(spec_builtin_name(b)) == Some(b),
{
    broadcast use vstd::string::group_string_axioms;

    reveal_strlit("echo");
    reveal_strlit("exit");
    reveal_strlit("history");
    reveal_strlit("type");
    reveal_strlit("pwd");
    reveal_strlit("cd");
    assert("echo"@.len() == 4);
    assert("exit"@.len() == 4);
    assert("history"@.len() == 7);
    assert("type"@.len() == 4);
    assert("pwd"@.len() == 3);
    assert("cd"@.len() == 2);
    assert("exit"@ != "echo"@) by {
        assert("exit"@[1] == 'x');
        assert("echo"@[1] == 'c');
    }
    assert("type"@ != "echo"@) by {
        assert("type"@[0] == 't');
        assert("echo"@[0] == 'e');
    }
    assert("type"@ != "exit"@) by {
        assert("type"@[0] == 't');
        assert("exit"@[0] == 'e');
    }
}

/// One directory of the PATH search list, with the names of the executable
/// regular files it holds, in directory order.
pub struct PathEntry {
    pub dir: String,
    pub executables: Vec<String>,
}

/// The abstract value of a PATH entry.
#[verifier::ext_equal]
pub struct SpecPathEntry {
    pub dir: Seq<char>,
    pub executables: Seq<Seq<char>>,
}

impl View for PathEntry {
    type V = SpecPathEntry;

    open spec fn view(&self) -> SpecPathEntry {
        SpecPathEntry { dir: self.dir@, executables: strings_view(self.executables@) }
    }
}

/// The abstract value of a PATH search list.
pub open spec fn path_view(v: Seq<PathEntry>) -> Seq<SpecPathEntry> {
    v.map_values(|e: PathEntry| e@)
}

/// The environment values the shell's logic reads: the home directory used
/// for tilde expansion, and the PATH search list together with the
/// executable entries of each directory.
pub struct ShellEnv {
    pub home: Option<String>,
    pub path: Vec<PathEntry>,
}

/// The abstract value of the environment.
#[verifier::ext_equal]
pub struct SpecShellEnv {
    pub home: Option<Seq<char>>,
    pub path: Seq<SpecPathEntry>,
}

impl View for ShellEnv {
    type V = SpecShellEnv;

    open spec fn view(&self) -> SpecShellEnv {
        SpecShellEnv { home: home_view(self.home), path: path_view(self.path@) }
    }
}

/// The candidate executable paths for a command name, from PATH entry `k`
/// on: each directory holding an executable entry of that name contributes
/// the joined path, in PATH order.
pub open spec fn spec_candidates_from(path: Seq<SpecPathEntry>, k: int, name: Seq<char>) -> Seq<
    Seq<char>,
>
    decreases path.len() - k,
{
    if k < 0 || k >= path.len() {
        Seq::empty()
    } else {
        (if path[k].executables.contains(name) {
            seq![path[k].dir + seq!['/'] + name]
        } else {
            Seq::<Seq<char>>::empty()
        }) + spec_candidates_from(path, k + 1, name)
    }
}

/// All candidate executable paths for a command name.
pub open spec fn spec_candidates(env: SpecShellEnv, name: Seq<char>) -> Seq<Seq<char>> {
    spec_candidates_from(env.path, 0, name)
}

/// Whether a string list holds the given string.
fn vec_contains_string(v: &Vec<String>, s: &String) -> (r: bool)
    ensures
        r == strings_view(v@).contains(s@),
{
    let n = v.len();
    let mut i: usize = 0;
    while i < n
        invariant
            i <= n,
            n == v.len(),
            forall|k: int| 0 <= k < i ==> v@[k]@ != s@,
        decreases n - i,
    {
        if str_eq(v[i].as_str(), s.as_str()) {
            proof {
                assert(strings_view(v@)[i as int] == s@);
            }
            return true;
        }
        i = i + 1;
    }
    proof {
        assert(forall|k: int|
            0 <= k < strings_view(v@).len() ==> strings_view(v@)[k] != s@);
    }
    false
}

/// The joined path of a directory and a file name inside it.
fn join_path(dir: &String, name: &String) -> (out: String)
    ensures
        out@ == dir@ + seq!['/'] + name@,
{
    let mut out = dir.clone();
    crate::lexer::push_char(&mut out, '/');
    out.append(name.as_str());
    proof {
        assert(out@ =~= dir@ + seq!['/'] + name@);
    }
    out
}

/// The candidate executable paths for a command name, in PATH order.
fn find_candidates(env: &ShellEnv, name: &String) -> (out: Vec<String>)
    ensures
        strings_view(out@) == spec_candidates(env@, name@),
{
    let mut out: Vec<String> = Vec::new();
    let n = env.path.len();
    let mut k: usize = 0;
    proof {
        assert(strings_view(out@) =~= Seq::<Seq<char>>::empty());
        assert(spec_candidates(env@, name@) == Seq::<Seq<char>>::empty()
            + spec_candidates_from(path_view(env.path@), 0, name@));
        assert(Seq::<Seq<char>>::empty() + spec_candidates_from(path_view(env.path@), 0, name@)
            =~= spec_candidates_from(path_view(env.path@), 0, name@));
    }
    while k < n
        invariant
            k <= n,
            n == env.path.len(),
            spec_candidates(env@, name@) == strings_view(out@) + spec_candidates_from(
                path_view(env.path@),
                k as int,
                name@,
            ),
        decreases n - k,
    {
        let ghost out0 = strings_view(out@);
        let ghost pv = path_view(env.path@);
        let ghost k0 = k as int;
        proof {
            assert(pv[k0] == env.path@[k0]@);
        }
        if vec_contains_string(&env.path[k].executables, name) {
            let joined = join_path(&env.path[k].dir, name);
            out.push(joined);
            proof {
                assert(strings_view(out@) =~= out0.push(pv[k0].dir + seq!['/'] + name@));
                assert(out0 + (seq![pv[k0].dir + seq!['/'] + name@]
                    + spec_candidates_from(pv, k0 + 1, name@)) =~= strings_view(out@)
                    + spec_candidates_from(pv, k0 + 1, name@));
            }
        } else {
            proof {
                assert(out0 + (Seq::<Seq<char>>::empty() + spec_candidates_from(
                    pv,
                    k0 + 1,
                    name@,
                )) =~= out0 + spec_candidates_from(pv, k0 + 1, name@));
            }
        }
        k = k + 1;
    }
    proof {
        assert(strings_view(out@) + Seq::<Seq<char>>::empty() =~= strings_view(out@));
    }
    out
}

/// The abstract value of an optional argument list.
pub open spec fn oargs_view(o: Option<Vec<String>>) -> Option<Seq<Seq<char>>> {
    match o {
        Some(v) => Some(strings_view(v@)),
        None => None,
    }
}

/// The abstract value of an optional redirection list.
pub open spec fn oredirs_view(o: Option<Vec<Redirection>>) -> Option<Seq<SpecRedirection>> {
    match o {
        Some(v) => Some(redirs_view(v@)),
        None => None,
    }
}

/// A parsed command, one per pipeline stage: a builtin with its arguments, an
/// external command with its candidate executable paths, or an unresolved
/// name.
pub enum MskCommand {
    Builtin(BuiltinCommand, Option<Vec<String>>, Option<Vec<Redirection>>),
    External(String, Vec<String>, Option<Vec<String>>, Option<Vec<Redirection>>),
    Unknown(String),
}

/// The abstract value of a parsed command.
#[verifier::ext_equal]
pub enum SpecCommand {
    Builtin(BuiltinCommand, Option<Seq<Seq<char>>>, Option<Seq<SpecRedirection>>),
    External(Seq<char>, Seq<Seq<char>>, Option<Seq<Seq<char>>>, Option<Seq<SpecRedirection>>),
    Unknown(Seq<char>),
}

impl View for MskCommand {
    type V = SpecCommand;

    open spec fn view(&self) -> SpecCommand {
        match self {
            MskCommand::Builtin(b, a, r) => SpecCommand::Builtin(*b, oargs_view(*a), oredirs_view(*r)),
            MskCommand::External(n, c, a, r) => SpecCommand::External(
                n@,
                strings_view(c@),
                oargs_view(*a),
                oredirs_view(*r),
            ),
            MskCommand::Unknown(n) => SpecCommand::Unknown(n@),
        }
    }
}

/// The redirections attached to a command.
pub open spec fn spec_redirs_of(c: SpecCommand) -> Option<Seq<SpecRedirection>> {
    match c {
        SpecCommand::Builtin(_, _, r) => r,
        SpecCommand::External(_, _, _, r) => r,
        SpecCommand::Unknown(_) => None,
    }
}

impl MskCommand {
    /// The redirections attached to this command.
    pub fn get_redirections(&self) -> (r: &Option<Vec<Redirection>>)
        ensures
            oredirs_view(*r) == spec_redirs_of(self@),
    {
        match self {
            MskCommand::Builtin(_, _, redirections) => redirections,
            MskCommand::External(_, _, _, redirections) => redirections,
            MskCommand::Unknown(_) => &None,
        }
    }
}

/// Whether a builtin always carries an argument list, never carries one, or
/// carries one exactly when arguments are present.
pub open spec fn spec_builtin_args(
    b: BuiltinCommand,
    args: Seq<Seq<char>>,
) -> Option<Seq<Seq<char>>> {
    match b {
        BuiltinCommand::ECHO => Some(args),
        BuiltinCommand::EXIT => None,
        BuiltinCommand::PWD => None,
        BuiltinCommand::TYPE => if args.len() == 0 {
            None
        } else {
            Some(args)
        },
        BuiltinCommand::HISTORY => if args.len() == 0 {
            None
        } else {
            Some(args)
        },
        BuiltinCommand::CD => if args.len() == 0 {
            None
        } else {
            Some(args)
        },
    }
}

/// The command one stage's argument vector resolves to: no arguments yield
/// no command; a builtin name yields that builtin; a name with at least one
/// executable candidate on the PATH yields an external command; anything
/// else is unknown. An empty first argument yields no command.
pub open spec fn spec_parse_command(
    parts: Seq<Seq<char>>,
    redirs: Option<Seq<SpecRedirection>>,
    env: SpecShellEnv,
) -> Option<SpecCommand> {
    if parts.len() == 0 {
        None
    } else {
        let cmd = parts[0];
        let args = parts.skip(1);
        match spec_builtin_of(cmd) {
            Some(b) => Some(SpecCommand::Builtin(b, spec_builtin_args(b, args), redirs)),
            None => {
                if cmd.len() == 0 {
                    None
                } else {
                    let cands = spec_candidates(env, cmd);
                    if cands.len() > 0 {
                        Some(SpecCommand::External(cmd, cands, Some(args), redirs))
                    } else {
                        Some(SpecCommand::Unknown(cmd))
                    }
                }
            },
        }
    }
}

/// Resolve one stage's argument vector to a command, as
/// [`spec_parse_command`] describes.
pub fn parse_command(
    all_parts: Vec<String>,
    redirections: Option<Vec<Redirection>>,
    env: &ShellEnv,
) -> (r: Option<MskCommand>)
    ensures
        match r {
            Some(c) => spec_parse_command(
                strings_view(all_parts@),
                oredirs_view(redirections),
                env@,
            ) == Some(c@),
            None => spec_parse_command(
                strings_view(all_parts@),
                oredirs_view(redirections),
                env@,
            ) is None,
        },
{
    let ghost parts0 = strings_view(all_parts@);
    let mut parts = all_parts;
    if parts.is_empty() {
        return None;
    }
    let cmd = parts.remove(0);
    let args = parts;
    proof {
        assert(cmd@ == parts0[0]);
        assert(strings_view(args@) =~= parts0.skip(1));
    }
    match builtin_of_name(&cmd) {
        Some(b) => {
            let use_args = match b {
                BuiltinCommand::ECHO => true,
                BuiltinCommand::EXIT => false,
                BuiltinCommand::PWD => false,
                BuiltinCommand::TYPE => !args.is_empty(),
                BuiltinCommand::HISTORY => !args.is_empty(),
                BuiltinCommand::CD => !args.is_empty(),
            };
            if use_args {
                Some(MskCommand::Builtin(b, Some(args), redirections))
            } else {
                Some(MskCommand::Builtin(b, None, redirections))
            }
        },
        None => {
            if cmd.as_str().is_empty() {
                return None;
            }
            let candidates = find_candidates(env, &cmd);
            if !candidates.is_empty() {
                Some(MskCommand::External(cmd, candidates, Some(args), redirections))
            } else {
                Some(MskCommand::Unknown(cmd))
            }
        },
    }
}

/// Whether two fragments have equal abstract values.
fn arg_eq(a: &crate::lexer::Args, b: &crate::lexer::Args) -> (r: bool)
    ensures
        r == (a@ == b@),
{
    match (a, b) {
        (crate::lexer::Args::Raw(x), crate::lexer::Args::Raw(y)) => str_eq(x.as_str(), y.as_str()),
        (crate::lexer::Args::SingleQuotes(x), crate::lexer::Args::SingleQuotes(y)) => str_eq(
            x.as_str(),
            y.as_str(),
        ),
        (crate::lexer::Args::DoubleQuotes(x), crate::lexer::Args::DoubleQuotes(y)) => str_eq(
            x.as_str(),
            y.as_str(),
        ),
        _ => false,
    }
}

/// Whether two tokens have equal abstract values.
fn token_eq(a: &Token, b: &Token) -> (r: bool)
    ensures
        r == (a@ == b@),
{
    match (a, b) {
        (Token::Op(x), Token::Op(y)) => str_eq(x.as_str(), y.as_str()),
        (Token::Word(v), Token::Word(w)) => {
            let nv = v.len();
            proof {
                assert(a@ == SpecToken::Word(crate::lexer::args_view(v@)));
                assert(b@ == SpecToken::Word(crate::lexer::args_view(w@)));
                assert(crate::lexer::args_view(v@).len() == v@.len());
                assert(crate::lexer::args_view(w@).len() == w@.len());
            }
            if nv != w.len() {
                return false;
            }
            let mut i: usize = 0;
            while i < nv
                invariant
                    i <= nv,
                    nv == v.len(),
                    nv == w.len(),
                    a@ == SpecToken::Word(crate::lexer::args_view(v@)),
                    b@ == SpecToken::Word(crate::lexer::args_view(w@)),
                    forall|k: int|
                        0 <= k < i ==> crate::lexer::args_view(v@)[k] == crate::lexer::args_view(
                            w@,
                        )[k],
                decreases nv - i,
            {
                if !arg_eq(&v[i], &w[i]) {
                    proof {
                        assert(a@ == SpecToken::Word(crate::lexer::args_view(v@)));
                        assert(b@ == SpecToken::Word(crate::lexer::args_view(w@)));
                        assert(crate::lexer::args_view(v@)[i as int] != crate::lexer::args_view(
                            w@,
                        )[i as int]);
                    }
                    return false;
                }
                i = i + 1;
            }
            proof {
                assert(crate::lexer::args_view(v@) =~= crate::lexer::args_view(w@));
            }
            true
        },
        _ => false,
    }
}

/// Splitting the remaining tokens on the separator, carrying the group under
/// construction and the groups already closed: separators close the current
/// group, and empty groups are dropped.
pub open spec fn spec_split_rem(
    toks: Seq<SpecToken>,
    cur: Seq<SpecToken>,
    acc: Seq<Seq<SpecToken>>,
    sep: SpecToken,
) -> Seq<Seq<SpecToken>>
    decreases toks.len(),
{
    if toks.len() == 0 {
        if cur.len() > 0 {
            acc.push(cur)
        } else {
            acc
        }
    } else if toks[0] == sep {
        spec_split_rem(
            toks.skip(1),
            Seq::empty(),
            if cur.len() > 0 {
                acc.push(cur)
            } else {
                acc
            },
            sep,
        )
    } else {
        spec_split_rem(toks.skip(1), cur.push(toks[0]), acc, sep)
    }
}

/// The non-empty groups a token sequence splits into at the separator.
pub open spec fn spec_split(toks: Seq<SpecToken>, sep: SpecToken) -> Seq<Seq<SpecToken>> {
    spec_split_rem(toks, Seq::empty(), Seq::empty(), sep)
}

/// The abstract value of a token-group list.
pub open spec fn groups_view(v: Seq<Vec<Token>>) -> Seq<Seq<SpecToken>> {
    v.map_values(|g: Vec<Token>| tokens_view(g@))
}

/// Split a token list into the non-empty groups between separators, as
/// [`spec_split`] describes.
pub fn split_vec_by_sep(vec: Vec<Token>, sep: &Token) -> (result: Vec<Vec<Token>>)
    ensures
        groups_view(result@) == spec_split(tokens_view(vec@), sep@),
{
    let ghost tv0 = tokens_view(vec@);
    let mut rest = vec;
    let mut result: Vec<Vec<Token>> = Vec::new();
    let mut current_group: Vec<Token> = Vec::new();
    proof {
        assert(tokens_view(current_group@) =~= Seq::<SpecToken>::empty());
        assert(groups_view(result@) =~= Seq::<Seq<SpecToken>>::empty());
    }
    while !rest.is_empty()
        invariant
            spec_split(tv0, sep@) == spec_split_rem(
                tokens_view(rest@),
                tokens_view(current_group@),
                groups_view(result@),
                sep@,
            ),
        decreases rest.len(),
    {
        let ghost rem0 = tokens_view(rest@);
        let ghost cur0 = tokens_view(current_group@);
        let ghost acc0 = groups_view(result@);
        let item = rest.remove(0);
        proof {
            assert(item@ == rem0[0]);
            assert(tokens_view(rest@) =~= rem0.skip(1));
        }
        if token_eq(&item, sep) {
            if !current_group.is_empty() {
                let g = crate::lexer::take_tokens(&mut current_group);
                result.push(g);
                proof {
                    assert(groups_view(result@) =~= acc0.push(cur0));
                    assert(tokens_view(current_group@) =~= Seq::<SpecToken>::empty());
                }
            } else {
                proof {
                    assert(cur0 =~= Seq::<SpecToken>::empty());
                }
            }
        } else {
            current_group.push(item);
            proof {
                assert(tokens_view(current_group@) =~= cur0.push(rem0[0]));
            }
        }
    }
    proof {
        assert(tokens_view(rest@) =~= Seq::<SpecToken>::empty());
    }
    if !current_group.is_empty() {
        result.push(current_group);
    }
    result
}

/// The abstract value of a command list.
pub open spec fn cmds_view(v: Seq<MskCommand>) -> Seq<SpecCommand> {
    v.map_values(|c: MskCommand| c@)
}

/// An ordered, non-empty sequence of commands, one per stage.
pub struct Pipeline {
    pub commands: Vec<MskCommand>,
}

impl View for Pipeline {
    type V = Seq<SpecCommand>;

    open spec fn view(&self) -> Seq<SpecCommand> {
        cmds_view(self.commands@)
    }
}

/// A redirection list as a command carries it: absent exactly when empty.
pub open spec fn spec_oredir(rs: Seq<SpecRedirection>) -> Option<Seq<SpecRedirection>> {
    if rs.len() == 0 {
        None
    } else {
        Some(rs)
    }
}

/// The pipe operator's token.
pub open spec fn spec_pipe_token() -> SpecToken {
    SpecToken::Op(seq!['|'])
}

/// The commands the remaining token groups yield: each group parses to an
/// argument vector with redirections and resolves to a command; groups that
/// yield no command are dropped; the first parse failure aborts the line.
pub open spec fn spec_cmds_rem(groups: Seq<Seq<SpecToken>>, env: SpecShellEnv) -> Result<
    Seq<SpecCommand>,
    ParseError,
>
    decreases groups.len(),
{
    if groups.len() == 0 {
        Ok(Seq::empty())
    } else {
        match spec_parse_tokens(groups[0], env.home) {
            Err(e) => Err(e),
            Ok(p) => match spec_cmds_rem(groups.skip(1), env) {
                Err(e) => Err(e),
                Ok(rest) => match spec_parse_command(p.0, spec_oredir(p.1), env) {
                    None => Ok(rest),
                    Some(c) => Ok(seq![c] + rest),
                },
            },
        }
    }
}

/// The pipeline a token sequence yields: the token stream splits on the pipe
/// operator into stages, and a line with no stage at all yields no pipeline
/// rather than an empty one.
pub open spec fn spec_pipeline_of(toks: Seq<SpecToken>, env: SpecShellEnv) -> Result<
    Option<Seq<SpecCommand>>,
    ParseError,
> {
    match spec_cmds_rem(spec_split(toks, spec_pipe_token()), env) {
        Err(e) => Err(e),
        Ok(cmds) => if cmds.len() == 0 {
            Ok(None)
        } else {
            Ok(Some(cmds))
        },
    }
}

/// Prepending already-resolved commands to the commands of the remaining
/// groups.
pub open spec fn ccombine(a: Seq<SpecCommand>, rest: Result<Seq<SpecCommand>, ParseError>) -> Result<
    Seq<SpecCommand>,
    ParseError,
> {
    match rest {
        Ok(r) => Ok(a + r),
        Err(e) => Err(e),
    }
}

/// Turn a token stream into a pipeline, as [`spec_pipeline_of`] describes:
/// stages split on `|`, each stage parsed and resolved against the
/// environment; a blank stream yields no pipeline; a malformed redirection
/// in any stage aborts the whole line.
pub fn parse_tokens_to_pipeline(tokens: Vec<Token>, env: &ShellEnv) -> (r: Result<
    Option<Pipeline>,
    ParseError,
>)
    ensures
        match r {
            Ok(Some(p)) => spec_pipeline_of(tokens_view(tokens@), env@) == Ok::<
                Option<Seq<SpecCommand>>,
                ParseError,
            >(Some(p@)) && p.commands@.len() > 0,
            Ok(None) => spec_pipeline_of(tokens_view(tokens@), env@) == Ok::<
                Option<Seq<SpecCommand>>,
                ParseError,
            >(None),
            Err(e) => spec_pipeline_of(tokens_view(tokens@), env@) == Err::<
                Option<Seq<SpecCommand>>,
                ParseError,
            >(e),
        },
{
    let ghost tv = tokens_view(tokens@);
    let mut pipe_str = String::new();
    crate::lexer::push_char(&mut pipe_str, '|');
    let sep = Token::Op(pipe_str);
    proof {
        assert(sep@ == spec_pipe_token()) by {
            assert(Seq::<char>::empty().push('|') =~= seq!['|']);
        }
    }
    let mut groups = split_vec_by_sep(tokens, &sep);
    let ghost gv = groups_view(groups@);
    let mut commands: Vec<MskCommand> = Vec::new();
    proof {
        assert(cmds_view(commands@) =~= Seq::<SpecCommand>::empty());
        match spec_cmds_rem(gv, env@) {
            Ok(cs) => {
                assert(cmds_view(commands@) + cs =~= cs);
            },
            Err(e) => {},
        }
    }
    while !groups.is_empty()
        invariant
            tv == tokens_view(tokens@),
            gv == spec_split(tv, spec_pipe_token()),
            spec_cmds_rem(gv, env@) == ccombine(
                cmds_view(commands@),
                spec_cmds_rem(groups_view(groups@), env@),
            ),
        decreases groups.len(),
    {
        let ghost rem0 = groups_view(groups@);
        let ghost acc0 = cmds_view(commands@);
        let group = groups.remove(0);
        proof {
            assert(tokens_view(group@) == rem0[0]);
            assert(groups_view(groups@) =~= rem0.skip(1));
        }
        match parse_tokens_to_args(group, &env.home) {
            Err(e) => {
                proof {
                    assert(spec_cmds_rem(rem0, env@) == Err::<Seq<SpecCommand>, ParseError>(e));
                    assert(spec_cmds_rem(gv, env@) == Err::<Seq<SpecCommand>, ParseError>(e));
                }
                return Err(e);
            },
            Ok((args, redirs_opt)) => {
                let ghost sp = spec_parse_tokens(rem0[0], env@.home);
                proof {
                    match redirs_opt {
                        Some(ref v) => {
                            assert(redirs_view(v@).len() == v@.len());
                        },
                        None => {},
                    }
                    assert(sp matches Ok(p) && spec_oredir(p.1) == oredirs_view(redirs_opt)
                        && p.0 == strings_view(args@));
                }
                match parse_command(args, redirs_opt, env) {
                    None => {
                        proof {
                            match spec_cmds_rem(rem0.skip(1), env@) {
                                Ok(rest) => {},
                                Err(e) => {},
                            }
                        }
                    },
                    Some(c) => {
                        commands.push(c);
                        proof {
                            assert(cmds_view(commands@) =~= acc0.push(c@));
                            match spec_cmds_rem(rem0.skip(1), env@) {
                                Ok(rest) => {
                                    assert(acc0 + (seq![c@] + rest) =~= cmds_view(commands@)
                                        + rest);
                                },
                                Err(e) => {},
                            }
                        }
                    },
                }
            },
        }
    }
    proof {
        assert(groups_view(groups@) =~= Seq::<Seq<SpecToken>>::empty());
        match spec_cmds_rem(gv, env@) {
            Ok(cs) => {
                assert(cmds_view(commands@) + Seq::<SpecCommand>::empty() =~= cmds_view(
                    commands@,
                ));
            },
            Err(e) => {},
        }
    }
    if commands.is_empty() {
        proof {
            assert(cmds_view(commands@) =~= Seq::<SpecCommand>::empty());
        }
        Ok(None)
    } else {
        Ok(Some(Pipeline { commands }))
    }
}

/// Parse one raw input line into a pipeline: tokenize, split on pipes,
/// resolve each stage. A blank line yields no pipeline at all.
pub fn parse_input(input: &str, env: &ShellEnv) -> (r: Result<Option<Pipeline>, ParseError>)
    ensures
        match r {
            Ok(Some(p)) => spec_pipeline_of(crate::lexer::spec_tokenize(input@), env@) == Ok::<
                Option<Seq<SpecCommand>>,
                ParseError,
            >(Some(p@)) && p.commands@.len() > 0,
            Ok(None) => spec_pipeline_of(crate::lexer::spec_tokenize(input@), env@) == Ok::<
                Option<Seq<SpecCommand>>,
                ParseError,
            >(None),
            Err(e) => spec_pipeline_of(crate::lexer::spec_tokenize(input@), env@) == Err::<
                Option<Seq<SpecCommand>>,
                ParseError,
            >(e),
        },
{
    let tokens = crate::lexer::tokens_generate(input);
    parse_tokens_to_pipeline(tokens, env)
}

/// An error from running one stage: an operating-system failure, a bad
/// builtin argument, or anything else.
#[derive(Debug)]
pub enum ProcessCmdError {
    IOError(String),
    ArgsError(String),
    Other,
}

/// The text the separator-joined argument list of `echo` produces, from
/// argument `k` on: each further argument is preceded by one space.
pub open spec fn spec_join_from(args: Seq<Seq<char>>, k: int) -> Seq<char>
    decreases args.len() - k,
{
    if k < 0 || k >= args.len() {
        Seq::empty()
    } else {
        seq![' '] + args[k] + spec_join_from(args, k + 1)
    }
}

/// The line `echo` writes: its arguments joined with single spaces, and a
/// trailing newline.
pub open spec fn spec_echo_line(args: Seq<Seq<char>>) -> Seq<char> {
    (if args.len() == 0 {
        Seq::<char>::empty()
    } else {
        args[0] + spec_join_from(args, 1)
    }) + seq!['\n']
}

/// The output of the `echo` builtin for the given arguments.
pub fn echo_output(args: &Vec<String>) -> (out: String)
    ensures
        out@ == spec_echo_line(strings_view(args@)),
{
    let ghost av = strings_view(args@);
    let n = args.len();
    let mut out = String::new();
    if n > 0 {
        out.append(args[0].as_str());
        let mut k: usize = 1;
        proof {
            assert(out@ =~= av[0] + spec_join_from_upto(av, 1, 1));
        }
        while k < n
            invariant
                1 <= k <= n,
                n == args.len(),
                av == strings_view(args@),
                out@ == av[0] + spec_join_from_upto(av, 1, k as int),
            decreases n - k,
        {
            let ghost out0 = out@;
            crate::lexer::push_char(&mut out, ' ');
            out.append(args[k].as_str());
            k = k + 1;
            proof {
                lemma_join_upto_snoc(av, 1, k as int);
                assert(out@ =~= out0 + (seq![' '] + av[k - 1]));
                assert(av[0] + (spec_join_from_upto(av, 1, (k - 1) as int) + (seq![' '] + av[k
                    - 1])) =~= (av[0] + spec_join_from_upto(av, 1, (k - 1) as int)) + (seq![' ']
                    + av[k - 1]));
            }
        }
        proof {
            lemma_join_upto_all(av, 1, n as int);
        }
    }
    crate::lexer::push_char(&mut out, '\n');
    proof {
        if av.len() == 0 {
            assert(out@ =~= Seq::<char>::empty() + seq!['\n']);
        } else {
            assert(out@ =~= (av[0] + spec_join_from(av, 1)) + seq!['\n']);
        }
    }
    out
}

/// The joined text of arguments `from` (inclusive) to `upto` (exclusive).
pub open spec fn spec_join_from_upto(args: Seq<Seq<char>>, from: int, upto: int) -> Seq<char>
    decreases upto - from,
{
    if from < 0 || from >= upto || from >= args.len() {
        Seq::empty()
    } else {
        seq![' '] + args[from] + spec_join_from_upto(args, from + 1, upto)
    }
}

proof fn lemma_join_upto_snoc(args: Seq<Seq<char>>, from: int, upto: int)
    requires
        0 <= from,
        from <= upto,
        upto <= args.len(),
        upto >= 1,
        from <= upto - 1,
    ensures
        spec_join_from_upto(args, from, upto) =~= spec_join_from_upto(args, from, upto - 1) + (
        seq![' '] + args[upto - 1]),
    decreases upto - from,
{
    if from < upto - 1 {
        lemma_join_upto_snoc(args, from + 1, upto);
        assert(spec_join_from_upto(args, from, upto) == seq![' '] + args[from]
            + spec_join_from_upto(args, from + 1, upto));
        assert(spec_join_from_upto(args, from, upto - 1) == seq![' '] + args[from]
            + spec_join_from_upto(args, from + 1, upto - 1));
        assert(seq![' '] + args[from] + (spec_join_from_upto(args, from + 1, upto - 1) + (
        seq![' '] + args[upto - 1])) =~= (seq![' '] + args[from] + spec_join_from_upto(
            args,
            from + 1,
            upto - 1,
        )) + (seq![' '] + args[upto - 1]));
    } else {
        assert(spec_join_from_upto(args, from, upto) == seq![' '] + args[from]
            + spec_join_from_upto(args, from + 1, upto));
        assert(spec_join_from_upto(args, from + 1, upto) =~= Seq::<char>::empty());
        assert(spec_join_from_upto(args, from, upto - 1) =~= Seq::<char>::empty());
        assert(Seq::<char>::empty() + (seq![' '] + args[upto - 1]) =~= seq![' '] + args[upto - 1]);
        assert(seq![' '] + args[from] + Seq::<char>::empty() =~= seq![' '] + args[from]);
    }
}

proof fn lemma_join_upto_all(args: Seq<Seq<char>>, from: int, upto: int)
    requires
        0 <= from,
        upto == args.len(),
    ensures
        spec_join_from_upto(args, from, upto) =~= spec_join_from(args, from),
    decreases upto - from,
{
    if from < upto {
        lemma_join_upto_all(args, from + 1, upto);
    }
}

/// The character of one decimal digit.
pub open spec fn spec_dec_digit(d: nat) -> char {
    if d == 0 {
        '0'
    } else if d == 1 {
        '1'
    } else if d == 2 {
        '2'
    } else if d == 3 {
        '3'
    } else if d == 4 {
        '4'
    } else if d == 5 {
        '5'
    } else if d == 6 {
        '6'
    } else if d == 7 {
        '7'
    } else if d == 8 {
        '8'
    } else {
        '9'
    }
}

/// The decimal representation of a number, most significant digit first,
/// with no leading zeros (`0` itself is the single digit `0`).
pub open spec fn spec_dec(n: nat) -> Seq<char>
    decreases n,
{
    if n < 10 {
        seq![spec_dec_digit(n)]
    } else {
        spec_dec(n / 10).push(spec_dec_digit(n % 10))
    }
}

/// The numeric value of one digit character, `10` for a non-digit.
pub open spec fn spec_char_digit(c: char) -> nat {
    if c == '0' {
        0
    } else if c == '1' {
        1
    } else if c == '2' {
        2
    } else if c == '3' {
        3
    } else if c == '4' {
        4
    } else if c == '5' {
        5
    } else if c == '6' {
        6
    } else if c == '7' {
        7
    } else if c == '8' {
        8
    } else if c == '9' {
        9
    } else {
        10
    }
}

/// The value of a digit string, most significant digit first.
pub open spec fn spec_dec_val(s: Seq<char>) -> nat
    decreases s.len(),
{
    if s.len() == 0 {
        0
    } else {
        spec_dec_val(s.drop_last()) * 10 + spec_char_digit(s.last())
    }
}

/// Whether every character of `s` is a decimal digit.
pub open spec fn spec_all_digits(s: Seq<char>) -> bool {
    forall|k: int| 0 <= k < s.len() ==> crate::spec_is_digit(s[k])
}

/// The digit part of a numeric argument: an optional leading `+` is
/// accepted and skipped.
pub open spec fn spec_num_body(s: Seq<char>) -> Seq<char> {
    if s.len() > 0 && s[0] == '+' {
        s.skip(1)
    } else {
        s
    }
}

/// A numeric argument is valid when its digit part is non-empty, all
/// digits, and its value fits the machine word.
pub open spec fn spec_usize_valid(s: Seq<char>) -> bool {
    &&& spec_num_body(s).len() > 0
    &&& spec_all_digits(spec_num_body(s))
    &&& spec_dec_val(spec_num_body(s)) <= usize::MAX
}

/// The value of a prefix never exceeds the value of the whole digit string.
proof fn lemma_dec_val_prefix(s: Seq<char>, m: int)
    requires
        0 <= m <= s.len(),
    ensures
        spec_dec_val(s.take(m)) <= spec_dec_val(s),
    decreases s.len(),
{
    if m < s.len() {
        lemma_dec_val_prefix(s.drop_last(), m);
        assert(s.drop_last().take(m) =~= s.take(m));
        assert(spec_dec_val(s) == spec_dec_val(s.drop_last()) * 10 + spec_char_digit(s.last()));
        assert(spec_dec_val(s.drop_last()) * 10 >= spec_dec_val(s.drop_last())) by (
        nonlinear_arith);
    } else {
        assert(s.take(m) =~= s);
    }
}

/// The digit character of a value below ten.
fn digit_char(d: usize) -> (c: char)
    requires
        d < 10,
    ensures
        c == spec_dec_digit(d as nat),
{
    if d == 0 {
        '0'
    } else if d == 1 {
        '1'
    } else if d == 2 {
        '2'
    } else if d == 3 {
        '3'
    } else if d == 4 {
        '4'
    } else if d == 5 {
        '5'
    } else if d == 6 {
        '6'
    } else if d == 7 {
        '7'
    } else if d == 8 {
        '8'
    } else {
        '9'
    }
}

/// The decimal representation of a number.
pub fn usize_to_string(n: usize) -> (s: String)
    ensures
        s@ == spec_dec(n as nat),
    decreases n,
{
    if n < 10 {
        let mut s = String::new();
        crate::lexer::push_char(&mut s, digit_char(n));
        proof {
            assert(s@ =~= seq![spec_dec_digit(n as nat)]);
        }
        s
    } else {
        let mut s = usize_to_string(n / 10);
        crate::lexer::push_char(&mut s, digit_char(n % 10));
        s
    }
}

/// The value a numeric argument denotes, if it is valid, as
/// [`spec_usize_valid`] and [`spec_dec_val`] describe.
pub fn parse_usize(s: &str) -> (r: Option<usize>)
    ensures
        match r {
            Some(v) => spec_usize_valid(s@) && v as nat == spec_dec_val(spec_num_body(s@)),
            None => !spec_usize_valid(s@),
        },
{
    let n = s.unicode_len();
    let start: usize = if n > 0 && s.get_char(0) == '+' {
        1
    } else {
        0
    };
    let ghost body = spec_num_body(s@);
    proof {
        assert(body =~= s@.skip(start as int));
    }
    if start == n {
        return None;
    }
    let mut acc: usize = 0;
    let mut k: usize = start;
    while k < n
        invariant
            start <= k <= n,
            n == s@.len(),
            body == s@.skip(start as int),
            body == spec_num_body(s@),
            spec_all_digits(body.take((k - start) as int)),
            acc as nat == spec_dec_val(body.take((k - start) as int)),
        decreases n - k,
    {
        let c = s.get_char(k);
        if !crate::char_is_digit(c) {
            proof {
                assert(body[(k - start) as int] == c);
            }
            return None;
        }
        let d: usize = if c == '0' {
            0
        } else if c == '1' {
            1
        } else if c == '2' {
            2
        } else if c == '3' {
            3
        } else if c == '4' {
            4
        } else if c == '5' {
            5
        } else if c == '6' {
            6
        } else if c == '7' {
            7
        } else if c == '8' {
            8
        } else {
            9
        };
        proof {
            assert(d as nat == spec_char_digit(c));
        }
        let ghost m = (k - start) as int;
        proof {
            assert(body.take(m + 1).drop_last() =~= body.take(m));
            assert(body.take(m + 1).last() == body[m]);
            assert(body[m] == c);
            assert(spec_all_digits(body.take(m + 1)));
        }
        if acc > (usize::MAX - d) / 10 {
            proof {
                assert(spec_dec_val(body.take(m + 1)) == acc * 10 + d);
                assert(acc * 10 + d > usize::MAX) by (nonlinear_arith)
                    requires
                        acc > (usize::MAX - d) / 10,
                        d < 10,
                ;
                lemma_dec_val_prefix(body, m + 1);
            }
            return None;
        }
        proof {
            assert(acc * 10 + d <= usize::MAX) by (nonlinear_arith)
                requires
                    acc <= (usize::MAX - d) / 10,
                    d < 10,
            ;
        }
        acc = acc * 10 + d;
        k = k + 1;
    }
    proof {
        assert(body.take((n - start) as int) =~= body);
    }
    Some(acc)
}

/// Space padding that right-aligns a numeral to a field of width five.
pub open spec fn spec_pad5(s: Seq<char>) -> Seq<char> {
    if s.len() >= 5 {
        s
    } else {
        Seq::new((5 - s.len()) as nat, |i: int| ' ') + s
    }
}

/// One displayed history line: the 1-based index right-aligned to width
/// five, two spaces, the command, and a newline.
pub open spec fn spec_history_line(idx: nat, cmd: Seq<char>) -> Seq<char> {
    spec_pad5(spec_dec(idx)) + seq![' ', ' '] + cmd + seq!['\n']
}

/// The displayed lines for history entries from `k` on, with 1-based
/// indices.
pub open spec fn spec_history_lines(h: Seq<Seq<char>>, k: int) -> Seq<char>
    decreases h.len() - k,
{
    if k < 0 || k >= h.len() {
        Seq::empty()
    } else {
        spec_history_line((k + 1) as nat, h[k]) + spec_history_lines(h, k + 1)
    }
}

/// The first entry displayed for a limit: the last `limit` entries, or all
/// of them when the limit is absent or no smaller than the history.
pub open spec fn spec_history_start(len: nat, limit: Option<nat>) -> int {
    match limit {
        None => 0,
        Some(l) => if l >= len {
            0
        } else {
            len - l
        },
    }
}

/// What the `history` builtin writes for the given history and limit.
pub open spec fn spec_history_output(h: Seq<Seq<char>>, limit: Option<nat>) -> Seq<char> {
    spec_history_lines(h, spec_history_start(h.len(), limit))
}

/// One rendered history line.
fn history_line(idx: usize, cmd: &String) -> (out: String)
    ensures
        out@ == spec_history_line(idx as nat, cmd@),
{
    let num = usize_to_string(idx);
    let num_len = num.as_str().unicode_len();
    let mut out = String::new();
    let mut pad: usize = 0;
    let pad_needed: usize = if num_len >= 5 {
        0
    } else {
        5 - num_len
    };
    while pad < pad_needed
        invariant
            pad <= pad_needed,
            out@ == Seq::new(pad as nat, |i: int| ' '),
        decreases pad_needed - pad,
    {
        crate::lexer::push_char(&mut out, ' ');
        pad = pad + 1;
        proof {
            assert(out@ =~= Seq::new(pad as nat, |i: int| ' '));
        }
    }
    out.append(num.as_str());
    crate::lexer::push_char(&mut out, ' ');
    crate::lexer::push_char(&mut out, ' ');
    out.append(cmd.as_str());
    crate::lexer::push_char(&mut out, '\n');
    proof {
        assert(out@ =~= spec_pad5(spec_dec(idx as nat)) + seq![' ', ' '] + cmd@ + seq!['\n']);
    }
    out
}

/// What the `history` builtin writes: all entries, or, given a valid
/// numeric argument, the last so many; a non-numeric argument is an
/// argument error. Lines carry 1-based indices right-aligned to width five.
pub fn history_output(history: &Vec<String>, args_opt: &Option<Vec<String>>) -> (r: Result<
    String,
    ProcessCmdError,
>)
    requires
        args_opt matches Some(v) ==> v@.len() > 0,
    ensures
        match r {
            Ok(out) => match args_opt {
                None => out@ == spec_history_output(strings_view(history@), None),
                Some(v) => spec_usize_valid(v@[0]@) && out@ == spec_history_output(
                    strings_view(history@),
                    Some(spec_dec_val(spec_num_body(v@[0]@))),
                ),
            },
            Err(e) => args_opt matches Some(v) && !spec_usize_valid(v@[0]@) && e matches
                ProcessCmdError::ArgsError(_),
        },
{
    let ghost hv = strings_view(history@);
    let len = history.len();
    let start: usize = match args_opt {
        None => 0,
        Some(args) => {
            match parse_usize(args[0].as_str()) {
                None => {
                    return Err(
                        ProcessCmdError::ArgsError(String::from_str("argument must be a number")),
                    );
                },
                Some(limit) => {
                    if limit >= len {
                        0
                    } else {
                        len - limit
                    }
                },
            }
        },
    };
    let mut out = String::new();
    let mut k: usize = start;
    proof {
        assert(out@ + spec_history_lines(hv, start as int) =~= spec_history_lines(
            hv,
            start as int,
        ));
    }
    while k < len
        invariant
            start <= k <= len,
            len == history.len(),
            hv == strings_view(history@),
            spec_history_lines(hv, start as int) == out@ + spec_history_lines(hv, k as int),
        decreases len - k,
    {
        let ghost out0 = out@;
        let line = history_line(k + 1, &history[k]);
        out.append(line.as_str());
        k = k + 1;
        proof {
            assert(hv[(k - 1) as int] == history@[(k - 1) as int]@);
            assert(out0 + (spec_history_line(k as nat, hv[(k - 1) as int])
                + spec_history_lines(hv, k as int)) =~= out@ + spec_history_lines(hv, k as int));
        }
    }
    proof {
        assert(out@ + Seq::<char>::empty() =~= out@);
    }
    Ok(out)
}

/// The message the `type` builtin writes for its argument list: a builtin
/// reports itself; an external command reports its first candidate path; an
/// unknown name reports "not found"; no argument at all asks for usage.
pub open spec fn spec_type_output(args: Option<Seq<Seq<char>>>, env: SpecShellEnv) -> Seq<char> {
    match args {
        None => "Usage: type <command>"@,
        Some(a) => match spec_parse_command(a, None, env) {
            Some(SpecCommand::Builtin(b, _, _)) => spec_builtin_name(b) + " is a shell builtin"@,
            Some(SpecCommand::External(n, paths, _, _)) => n + " is "@ + paths[0],
            Some(SpecCommand::Unknown(n)) => n + ": not found"@,
            None => Seq::empty(),
        },
    }
}

/// What the `type` builtin writes, as [`spec_type_output`] describes. The
/// argument list, when present, holds at least the non-empty name to look
/// up.
pub fn type_output(args_opt: &Option<Vec<String>>, env: &ShellEnv) -> (out: String)
    requires
        args_opt matches Some(v) ==> v@.len() > 0 && v@[0]@.len() > 0,
    ensures
        out@ == spec_type_output(oargs_view(*args_opt), env@),
{
    match args_opt {
        None => String::from_str("Usage: type <command>"),
        Some(args) => {
            let args2 = args.clone();
            proof {
                assert(strings_view(args2@) =~= strings_view(args@));
            }
            match parse_command(args2, None, env) {
                None => {
                    proof {
                        assert(false);
                    }
                    String::new()
                },
                Some(MskCommand::Builtin(command_type, _, _)) => {
                    let mut out = command_type.name().to_owned();
                    out.append(" is a shell builtin");
                    out
                },
                Some(MskCommand::External(name, paths, _, _)) => {
                    let mut out = name;
                    out.append(" is ");
                    out.append(paths[0].as_str());
                    proof {
                        assert(strings_view(paths@)[0] == paths@[0]@);
                    }
                    out
                },
                Some(MskCommand::Unknown(name)) => {
                    let mut out = name;
                    out.append(": not found");
                    out
                },
            }
        },
    }
}

/// The message written for a name that resolves to no command.
pub fn unknown_output(name: &String) -> (out: String)
    ensures
        out@ == name@ + ": command not found"@,
{
    let mut out = name.clone();
    out.append(": command not found");
    out
}

/// Where a stage's standard input comes from, before redirections.
#[derive(Debug, Clone, Copy, PartialEq, Eq, Structural)]
pub enum StdinPlan {
    Inherit,
    FromPrevPipe,
}

/// Where a stage's standard output goes, before redirections.
#[derive(Debug, Clone, Copy, PartialEq, Eq, Structural)]
pub enum StdoutPlan {
    Inherit,
    ToNextPipe,
}

/// The pipe wiring of one stage.
#[derive(Debug, Clone, Copy, PartialEq, Eq, Structural)]
pub struct StagePlan {
    pub stdin: StdinPlan,
    pub stdout: StdoutPlan,
}

/// The wiring of stage `index` out of `count`: every stage but the first
/// reads the previous stage's pipe, every stage but the last writes a fresh
/// pipe; standard error is always inherited.
pub open spec fn spec_stage_plan(index: int, count: int) -> StagePlan {
    StagePlan {
        stdin: if index > 0 {
            StdinPlan::FromPrevPipe
        } else {
            StdinPlan::Inherit
        },
        stdout: if index + 1 < count {
            StdoutPlan::ToNextPipe
        } else {
            StdoutPlan::Inherit
        },
    }
}

/// Compute the pipe wiring of one stage, as [`spec_stage_plan`] describes.
pub fn plan_stage_io(index: usize, count: usize) -> (p: StagePlan)
    requires
        index < count,
    ensures
        p == spec_stage_plan(index as int, count as int),
{
    StagePlan {
        stdin: if index > 0 {
            StdinPlan::FromPrevPipe
        } else {
            StdinPlan::Inherit
        },
        stdout: if index + 1 < count {
            StdoutPlan::ToNextPipe
        } else {
            StdoutPlan::Inherit
        },
    }
}

/// Pipes thread the stages strictly left to right: each adjacent pair is
/// joined by one pipe, written by the earlier stage and read by the later
/// one; the first stage reads the inherited input and the last writes the
/// inherited output.
pub proof fn lemma_pipeline_wiring(i: int, count: int)
    requires
        0 <= i,
        i + 1 < count,
    ensures
        spec_stage_plan(i, count).stdout == StdoutPlan::ToNextPipe,
        spec_stage_plan(i + 1, count).stdin == StdinPlan::FromPrevPipe,
        spec_stage_plan(0, count).stdin == StdinPlan::Inherit,
        spec_stage_plan(count - 1, count).stdout == StdoutPlan::Inherit,
{
}

/// The last redirection of the given descriptor to a file, if any: later
/// redirections replace earlier ones.
pub open spec fn spec_last_redirect(rs: Seq<SpecRedirection>, fd: int) -> Option<SpecRedirection>
    decreases rs.len(),
{
    if rs.len() == 0 {
        None
    } else if rs.last().source_fd == fd && rs.last().target is File {
        Some(rs.last())
    } else {
        spec_last_redirect(rs.drop_last(), fd)
    }
}

/// Where a stage's stream of the given descriptor finally ends.
#[derive(Debug, PartialEq, Eq)]
pub enum OutputTarget {
    Inherit,
    Pipe,
    File(String, RedirectionMode),
}

/// The abstract value of a stream's final target.
#[verifier::ext_equal]
pub enum SpecOutputTarget {
    Inherit,
    Pipe,
    File(Seq<char>, RedirectionMode),
}

impl View for OutputTarget {
    type V = SpecOutputTarget;

    open spec fn view(&self) -> SpecOutputTarget {
        match self {
            OutputTarget::Inherit => SpecOutputTarget::Inherit,
            OutputTarget::Pipe => SpecOutputTarget::Pipe,
            OutputTarget::File(p, m) => SpecOutputTarget::File(p@, *m),
        }
    }
}

/// The final standard output of a stage: a file redirection always wins
/// over the pipe the wiring computed; with none, the wiring decides.
pub open spec fn spec_effective_stdout(index: int, count: int, rs: Seq<SpecRedirection>) -> SpecOutputTarget {
    match spec_last_redirect(rs, 1) {
        Some(r) => match r.target {
            crate::parser::SpecTarget::File(p) => SpecOutputTarget::File(p, r.mode),
            crate::parser::SpecTarget::Fd(_) => SpecOutputTarget::Inherit,
        },
        None => if index + 1 < count {
            SpecOutputTarget::Pipe
        } else {
            SpecOutputTarget::Inherit
        },
    }
}

/// The final standard error of a stage: a file redirection wins; otherwise
/// it is inherited.
pub open spec fn spec_effective_stderr(rs: Seq<SpecRedirection>) -> SpecOutputTarget {
    match spec_last_redirect(rs, 2) {
        Some(r) => match r.target {
            crate::parser::SpecTarget::File(p) => SpecOutputTarget::File(p, r.mode),
            crate::parser::SpecTarget::Fd(_) => SpecOutputTarget::Inherit,
        },
        None => SpecOutputTarget::Inherit,
    }
}

/// Redirections take precedence over pipe wiring: whenever a stage carries
/// a file redirection of its standard output, the stage's final standard
/// output is that file, never the pipe, at every position in the pipeline.
pub proof fn lemma_redirection_precedence(
    index: int,
    count: int,
    rs: Seq<SpecRedirection>,
    r: SpecRedirection,
)
    requires
        spec_last_redirect(rs, 1) == Some(r),
    ensures
        r.target matches crate::parser::SpecTarget::File(p) ==> spec_effective_stdout(
            index,
            count,
            rs,
        ) == SpecOutputTarget::File(p, r.mode),
        spec_effective_stdout(index, count, rs) != SpecOutputTarget::Pipe,
{
}

/// The redirection list a stage carries, as a sequence.
pub open spec fn spec_stage_redirs(o: Option<Seq<SpecRedirection>>) -> Seq<SpecRedirection> {
    match o {
        Some(rs) => rs,
        None => Seq::empty(),
    }
}

/// The index of the winning file redirection of a descriptor, if any.
fn last_redirect_index(rs: &Vec<Redirection>, fd: i32) -> (r: Option<usize>)
    ensures
        match r {
            Some(j) => j < rs@.len() && spec_last_redirect(redirs_view(rs@), fd as int) == Some(
                rs@[j as int]@,
            ),
            None => spec_last_redirect(redirs_view(rs@), fd as int) is None,
        },
{
    let n = rs.len();
    let mut k: usize = n;
    proof {
        assert(redirs_view(rs@).take(n as int) =~= redirs_view(rs@));
    }
    while k > 0
        invariant
            k <= n,
            n == rs.len(),
            spec_last_redirect(redirs_view(rs@), fd as int) == spec_last_redirect(
                redirs_view(rs@).take(k as int),
                fd as int,
            ),
        decreases k,
    {
        let ghost rv = redirs_view(rs@);
        k = k - 1;
        proof {
            assert(rv.take(k + 1).last() == rv[k as int]);
            assert(rv[k as int] == rs@[k as int]@);
            assert(rv.take(k + 1).drop_last() =~= rv.take(k as int));
        }
        let is_file = match &rs[k].target {
            crate::parser::RedirectionTarget::File(_) => true,
            crate::parser::RedirectionTarget::Fd(_) => false,
        };
        if rs[k].source_fd == fd && is_file {
            return Some(k);
        }
    }
    proof {
        assert(redirs_view(rs@).take(0) =~= Seq::<SpecRedirection>::empty());
    }
    None
}

/// The final standard output of a stage, as [`spec_effective_stdout`]
/// describes.
pub fn effective_stdout(index: usize, count: usize, redirs: &Option<Vec<Redirection>>) -> (t: OutputTarget)
    requires
        index < count,
    ensures
        t@ == spec_effective_stdout(
            index as int,
            count as int,
            spec_stage_redirs(oredirs_view(*redirs)),
        ),
{
    match redirs {
        Some(rs) => {
            match last_redirect_index(rs, 1) {
                Some(j) => {
                    match &rs[j].target {
                        crate::parser::RedirectionTarget::File(p) => OutputTarget::File(
                            p.clone(),
                            rs[j].mode,
                        ),
                        crate::parser::RedirectionTarget::Fd(_) => OutputTarget::Inherit,
                    }
                },
                None => {
                    if index + 1 < count {
                        OutputTarget::Pipe
                    } else {
                        OutputTarget::Inherit
                    }
                },
            }
        },
        None => {
            proof {
                assert(spec_last_redirect(Seq::<SpecRedirection>::empty(), 1) is None);
            }
            if index + 1 < count {
                OutputTarget::Pipe
            } else {
                OutputTarget::Inherit
            }
        },
    }
}

/// The final standard error of a stage, as [`spec_effective_stderr`]
/// describes.
pub fn effective_stderr(redirs: &Option<Vec<Redirection>>) -> (t: OutputTarget)
    ensures
        t@ == spec_effective_stderr(spec_stage_redirs(oredirs_view(*redirs))),
{
    match redirs {
        Some(rs) => {
            match last_redirect_index(rs, 2) {
                Some(j) => {
                    match &rs[j].target {
                        crate::parser::RedirectionTarget::File(p) => OutputTarget::File(
                            p.clone(),
                            rs[j].mode,
                        ),
                        crate::parser::RedirectionTarget::Fd(_) => OutputTarget::Inherit,
                    }
                },
                None => OutputTarget::Inherit,
            }
        },
        None => {
            proof {
                assert(spec_last_redirect(Seq::<SpecRedirection>::empty(), 2) is None);
            }
            OutputTarget::Inherit
        },
    }
}

/// Splitting operator-only tokens yields only non-empty operator-only
/// groups.
proof fn lemma_split_ops(
    toks: Seq<SpecToken>,
    cur: Seq<SpecToken>,
    acc: Seq<Seq<SpecToken>>,
    sep: SpecToken,
)
    requires
        forall|k: int| 0 <= k < toks.len() ==> toks[k] is Op,
        forall|k: int| 0 <= k < cur.len() ==> cur[k] is Op,
        forall|i: int|
            0 <= i < acc.len() ==> acc[i].len() > 0 && (forall|j: int|
                0 <= j < acc[i].len() ==> acc[i][j] is Op),
    ensures
        forall|i: int|
            0 <= i < spec_split_rem(toks, cur, acc, sep).len() ==> #[trigger] spec_split_rem(
                toks,
                cur,
                acc,
                sep,
            )[i].len() > 0 && (forall|j: int|
                0 <= j < spec_split_rem(toks, cur, acc, sep)[i].len() ==> spec_split_rem(
                    toks,
                    cur,
                    acc,
                    sep,
                )[i][j] is Op),
    decreases toks.len(),
{
    if toks.len() == 0 {
    } else if toks[0] == sep {
        lemma_split_ops(
            toks.skip(1),
            Seq::empty(),
            if cur.len() > 0 {
                acc.push(cur)
            } else {
                acc
            },
            sep,
        );
    } else {
        lemma_split_ops(toks.skip(1), cur.push(toks[0]), acc, sep);
    }
}

/// A non-empty group consisting of operators alone never parses: its first
/// token is a redirection operator missing a word target, or no redirection
/// operator at all.
proof fn lemma_op_group_errs(g: Seq<SpecToken>, home: Option<Seq<char>>)
    requires
        g.len() > 0,
        forall|j: int| 0 <= j < g.len() ==> g[j] is Op,
    ensures
        spec_parse_tokens(g, home) is Err,
{
    assert(g[0] is Op);
}

/// With only operator-only groups, the line yields an error when any group
/// exists and no commands at all otherwise.
proof fn lemma_cmds_rem_ops(groups: Seq<Seq<SpecToken>>, env: SpecShellEnv)
    requires
        forall|i: int|
            0 <= i < groups.len() ==> #[trigger] groups[i].len() > 0 && (forall|j: int|
                0 <= j < groups[i].len() ==> groups[i][j] is Op),
    ensures
        groups.len() == 0 ==> spec_cmds_rem(groups, env) == Ok::<Seq<SpecCommand>, ParseError>(
            Seq::empty(),
        ),
        groups.len() > 0 ==> spec_cmds_rem(groups, env) is Err,
{
    if groups.len() > 0 {
        lemma_op_group_errs(groups[0], env.home);
    }
}

/// An input that tokenizes to zero words yields no pipeline: the line
/// either parses to nothing at all (blank input) or fails on a redirection
/// operator with no target, but never produces a pipeline to run.
pub proof fn lemma_no_words_no_pipeline(input: Seq<char>, env: SpecShellEnv)
    requires
        forall|k: int|
            0 <= k < crate::lexer::spec_tokenize(input).len() ==> !(crate::lexer::spec_tokenize(
                input,
            )[k] is Word),
    ensures
        !(spec_pipeline_of(crate::lexer::spec_tokenize(input), env) matches Ok(Some(_))),
{
    let toks = crate::lexer::spec_tokenize(input);
    assert(forall|k: int| 0 <= k < toks.len() ==> toks[k] is Op);
    lemma_split_ops(toks, Seq::empty(), Seq::empty(), spec_pipe_token());
    lemma_cmds_rem_ops(spec_split(toks, spec_pipe_token()), env);
}

/// The `type` builtin's report for a builtin name never depends on the
/// environment: `type cd` reports the shell builtin whatever PATH holds.
pub proof fn lemma_type_builtin_stable(env: SpecShellEnv)
    ensures
        spec_type_output(Some(seq!["cd"@]), env) == "cd is a shell builtin"@,
{
    broadcast use vstd::string::group_string_axioms;

    reveal_strlit("cd");
    reveal_strlit(" is a shell builtin");
    reveal_strlit("cd is a shell builtin");
    let parts = seq!["cd"@];
    lemma_builtin_name_of(Seq::empty(), BuiltinCommand::CD);
    assert(spec_builtin_of("cd"@) == Some(BuiltinCommand::CD));
    assert(parts.skip(1).len() == 0);
    assert(spec_parse_command(parts, None, env) == Some(
        SpecCommand::Builtin(BuiltinCommand::CD, None, None),
    ));
    assert("cd"@ + " is a shell builtin"@ =~= "cd is a shell builtin"@);
}

} // verus!
