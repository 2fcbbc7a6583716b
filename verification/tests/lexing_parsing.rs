use msk_shell::command::{
    parse_input, BuiltinCommand, MskCommand, PathEntry, ShellEnv,
};
use msk_shell::lexer::{tokens_generate, Args, Token};
use msk_shell::parser::{
    parse_tokens_to_args, ParseError, RedirectionMode, RedirectionTarget,
};

fn empty_env() -> ShellEnv {
    ShellEnv { home: None, path: Vec::new() }
}

fn env_with(home: Option<&str>, dirs: &[(&str, &[&str])]) -> ShellEnv {
    ShellEnv {
        home: home.map(|h| h.to_string()),
        path: dirs
            .iter()
            .map(|(d, xs)| PathEntry {
                dir: d.to_string(),
                executables: xs.iter().map(|x| x.to_string()).collect(),
            })
            .collect(),
    }
}

fn word(frags: Vec<Args>) -> Token {
    Token::Word(frags)
}

fn raw(s: &str) -> Args {
    Args::Raw(s.to_string())
}

#[test]
fn blank_line_yields_no_pipeline() {
    let env = empty_env();
    assert!(matches!(parse_input("", &env), Ok(None)));
    assert!(matches!(parse_input("   \t  ", &env), Ok(None)));
}

#[test]
fn pipes_only_line_yields_no_pipeline() {
    let env = empty_env();
    assert!(matches!(parse_input("|", &env), Ok(None)));
    assert!(matches!(parse_input("| |  |", &env), Ok(None)));
}

#[test]
fn quoted_words_stay_single_arguments() {
    let toks = tokens_generate("echo 'a b' \"c d\"");
    assert_eq!(
        toks,
        vec![
            word(vec![raw("echo")]),
            word(vec![Args::SingleQuotes("a b".to_string())]),
            word(vec![Args::DoubleQuotes("c d".to_string())]),
        ]
    );
    let (args, redirs) = parse_tokens_to_args(toks, &None).unwrap();
    assert_eq!(args, vec!["echo".to_string(), "a b".to_string(), "c d".to_string()]);
    assert!(redirs.is_none());
}

#[test]
fn backslash_escapes_space_outside_quotes() {
    let toks = tokens_generate("echo a\\ b");
    let (args, _) = parse_tokens_to_args(toks, &None).unwrap();
    assert_eq!(args, vec!["echo".to_string(), "a b".to_string()]);
}

#[test]
fn backslash_is_literal_inside_single_quotes() {
    let toks = tokens_generate("echo 'a\\ b'");
    let (args, _) = parse_tokens_to_args(toks, &None).unwrap();
    assert_eq!(args, vec!["echo".to_string(), "a\\ b".to_string()]);
}

#[test]
fn digit_in_filename_is_not_a_descriptor() {
    let toks = tokens_generate("cat file1>");
    assert_eq!(
        toks,
        vec![
            word(vec![raw("cat")]),
            word(vec![raw("file1")]),
            Token::Op(">".to_string()),
        ]
    );
}

#[test]
fn leading_digit_before_redirect_is_a_descriptor() {
    let toks = tokens_generate("cat 1>out");
    assert_eq!(
        toks,
        vec![
            word(vec![raw("cat")]),
            Token::Op("1>".to_string()),
            word(vec![raw("out")]),
        ]
    );
}

#[test]
fn double_greater_is_one_operator() {
    let toks = tokens_generate("echo hi >>log");
    assert_eq!(
        toks,
        vec![
            word(vec![raw("echo")]),
            word(vec![raw("hi")]),
            Token::Op(">>".to_string()),
            word(vec![raw("log")]),
        ]
    );
}

#[test]
fn multi_digit_descriptor_lexes_as_one_operator() {
    let toks = tokens_generate("cmd 10>>f");
    assert_eq!(
        toks,
        vec![
            word(vec![raw("cmd")]),
            Token::Op("10>>".to_string()),
            word(vec![raw("f")]),
        ]
    );
}

#[test]
fn adjacent_fragments_concatenate() {
    let toks = tokens_generate("echo a'b'\"c\"");
    let (args, _) = parse_tokens_to_args(toks, &None).unwrap();
    assert_eq!(args, vec!["echo".to_string(), "abc".to_string()]);
}

#[test]
fn unterminated_quote_is_treated_as_closed() {
    let toks = tokens_generate("echo 'abc");
    assert_eq!(
        toks,
        vec![
            word(vec![raw("echo")]),
            word(vec![Args::SingleQuotes("abc".to_string())]),
        ]
    );
}

#[test]
fn double_quote_escapes_limited_set() {
    let toks = tokens_generate("echo \"a\\\"b\\xc\"");
    assert_eq!(
        toks,
        vec![
            word(vec![raw("echo")]),
            word(vec![Args::DoubleQuotes("a\"b\\xc".to_string())]),
        ]
    );
}

#[test]
fn redirection_decodes_descriptor_and_mode() {
    let toks = tokens_generate("echo hi 2>>err.log");
    let (args, redirs) = parse_tokens_to_args(toks, &None).unwrap();
    assert_eq!(args, vec!["echo".to_string(), "hi".to_string()]);
    let rs = redirs.unwrap();
    assert_eq!(rs.len(), 1);
    assert_eq!(rs[0].source_fd, 2);
    assert_eq!(rs[0].mode, RedirectionMode::Append);
    assert_eq!(rs[0].target, RedirectionTarget::File("err.log".to_string()));
}

#[test]
fn missing_redirect_target_is_fatal() {
    let env = empty_env();
    assert!(matches!(parse_input("echo >", &env), Err(ParseError::MissingRedirectTarget)));
}

#[test]
fn operator_after_redirect_is_fatal() {
    let env = empty_env();
    assert!(matches!(parse_input("echo > >", &env), Err(ParseError::RedirectTargetIsOp)));
}

#[test]
fn unsupported_descriptor_is_fatal() {
    let env = empty_env();
    assert!(matches!(parse_input("echo 3>x", &env), Err(ParseError::UnsupportedOperator)));
}

#[test]
fn tilde_expands_in_raw_fragments_only() {
    let home = Some("/home/u".to_string());
    let toks = tokens_generate("echo ~ ~/d '~'");
    let (args, _) = parse_tokens_to_args(toks, &home).unwrap();
    assert_eq!(
        args,
        vec![
            "echo".to_string(),
            "/home/u".to_string(),
            "/home/u/d".to_string(),
            "~".to_string(),
        ]
    );
}

#[test]
fn tilde_stays_literal_without_home() {
    let toks = tokens_generate("echo ~ ~/d");
    let (args, _) = parse_tokens_to_args(toks, &None).unwrap();
    assert_eq!(args, vec!["echo".to_string(), "~".to_string(), "~/d".to_string()]);
}

#[test]
fn builtin_resolution_before_path() {
    let env = env_with(None, &[("/bin", &["cd", "echo", "ls"])]);
    let cmd = msk_shell::command::parse_command(
        vec!["echo".to_string(), "x".to_string()],
        None,
        &env,
    )
    .unwrap();
    match cmd {
        MskCommand::Builtin(BuiltinCommand::ECHO, Some(args), None) => {
            assert_eq!(args, vec!["x".to_string()]);
        }
        _ => panic!("expected the echo builtin"),
    }
}

#[test]
fn external_resolution_collects_candidates_in_path_order() {
    let env = env_with(None, &[("/a", &["ls"]), ("/b", &["cat", "ls"]), ("/c", &[])]);
    let cmd =
        msk_shell::command::parse_command(vec!["ls".to_string()], None, &env).unwrap();
    match cmd {
        MskCommand::External(name, cands, Some(args), None) => {
            assert_eq!(name, "ls".to_string());
            assert_eq!(cands, vec!["/a/ls".to_string(), "/b/ls".to_string()]);
            assert!(args.is_empty());
        }
        _ => panic!("expected an external command"),
    }
}

#[test]
fn unresolved_name_is_unknown() {
    let env = env_with(None, &[("/a", &["ls"])]);
    let cmd =
        msk_shell::command::parse_command(vec!["nope".to_string()], None, &env).unwrap();
    assert!(matches!(cmd, MskCommand::Unknown(n) if n == "nope"));
}

#[test]
fn empty_stages_are_dropped() {
    let env = env_with(None, &[("/a", &["x", "y"])]);
    let p = parse_input("| x | | y |", &env).unwrap().unwrap();
    assert_eq!(p.commands.len(), 2);
}

#[test]
fn pipe_inside_quotes_is_plain_text() {
    let env = empty_env();
    let p = parse_input("echo 'a|b'", &env).unwrap().unwrap();
    assert_eq!(p.commands.len(), 1);
    match &p.commands[0] {
        MskCommand::Builtin(BuiltinCommand::ECHO, Some(args), None) => {
            assert_eq!(args, &vec!["a|b".to_string()]);
        }
        _ => panic!("expected the echo builtin"),
    }
}

#[test]
fn pipe_without_spaces_still_splits_stages() {
    let env = env_with(None, &[("/bin", &["cat"])]);
    let p = parse_input("echo hi|cat", &env).unwrap().unwrap();
    assert_eq!(p.commands.len(), 2);
    assert!(matches!(&p.commands[1], MskCommand::External(n, _, _, _) if n == "cat"));
}

#[test]
fn descriptor_operator_at_line_start() {
    let toks = tokens_generate("2>err");
    assert_eq!(
        toks,
        vec![Token::Op("2>".to_string()), word(vec![raw("err")])]
    );
}

#[test]
fn quoted_fragment_then_descriptor_still_redirects() {
    let toks = tokens_generate("'x'1>f");
    assert_eq!(
        toks,
        vec![
            word(vec![Args::SingleQuotes("x".to_string())]),
            Token::Op("1>".to_string()),
            word(vec![raw("f")]),
        ]
    );
}

#[test]
fn one_greater_appends_nothing_extra() {
    let toks = tokens_generate("c 1>>f");
    let (args, redirs) = parse_tokens_to_args(toks, &None).unwrap();
    assert_eq!(args, vec!["c".to_string()]);
    let rs = redirs.unwrap();
    assert_eq!(rs[0].source_fd, 1);
    assert_eq!(rs[0].mode, RedirectionMode::Append);
}

#[test]
fn single_bad_stage_name_still_builds_pipeline() {
    let env = env_with(None, &[("/a", &["x"])]);
    let p = parse_input("x | nope", &env).unwrap().unwrap();
    assert_eq!(p.commands.len(), 2);
    assert!(matches!(&p.commands[1], MskCommand::Unknown(n) if n == "nope"));
}
