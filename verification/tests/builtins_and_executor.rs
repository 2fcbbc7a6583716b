use msk_shell::command::{
    echo_output, effective_stderr, effective_stdout, history_output, parse_input, parse_usize,
    plan_stage_io, type_output, unknown_output, usize_to_string, MskCommand, OutputTarget,
    PathEntry, ProcessCmdError, ShellEnv, StdinPlan, StdoutPlan,
};
use msk_shell::parser::RedirectionMode;
use msk_shell::state::{trim_string, ShellState};

fn env_with(home: Option<&str>, dirs: &[(&str, &[&str])]) -> ShellEnv {
    ShellEnv {
        home: home.map(|h| h.to_string()),
        path: dirs
            .iter()
            .map(|(d, xs)| PathEntry {
                dir: d.to_string(),
                executables: xs.iter().map(|x| x.to_string()).collect(),
            })
            .collect(),
    }
}

#[test]
fn echo_joins_with_single_spaces() {
    let args = vec!["a".to_string(), "b c".to_string(), "d".to_string()];
    assert_eq!(echo_output(&args), "a b c d\n".to_string());
}

#[test]
fn echo_of_nothing_is_a_bare_newline() {
    assert_eq!(echo_output(&Vec::new()), "\n".to_string());
}

#[test]
fn three_stage_wiring_is_left_to_right() {
    let p0 = plan_stage_io(0, 3);
    let p1 = plan_stage_io(1, 3);
    let p2 = plan_stage_io(2, 3);
    assert_eq!(p0.stdin, StdinPlan::Inherit);
    assert_eq!(p0.stdout, StdoutPlan::ToNextPipe);
    assert_eq!(p1.stdin, StdinPlan::FromPrevPipe);
    assert_eq!(p1.stdout, StdoutPlan::ToNextPipe);
    assert_eq!(p2.stdin, StdinPlan::FromPrevPipe);
    assert_eq!(p2.stdout, StdoutPlan::Inherit);
}

#[test]
fn single_stage_inherits_both_ends() {
    let p = plan_stage_io(0, 1);
    assert_eq!(p.stdin, StdinPlan::Inherit);
    assert_eq!(p.stdout, StdoutPlan::Inherit);
}

#[test]
fn redirection_beats_pipe_for_final_stage() {
    let env = env_with(None, &[("/bin", &["cmd1", "cmd2"])]);
    let p = parse_input("cmd1 | cmd2 > out.txt", &env).unwrap().unwrap();
    assert_eq!(p.commands.len(), 2);
    let redirs = p.commands[1].get_redirections();
    let t = effective_stdout(1, 2, redirs);
    assert_eq!(t, OutputTarget::File("out.txt".to_string(), RedirectionMode::Overwrite));
    assert_eq!(effective_stderr(redirs), OutputTarget::Inherit);
}

#[test]
fn pipe_used_when_no_redirection() {
    let env = env_with(None, &[("/bin", &["cmd1", "cmd2"])]);
    let p = parse_input("cmd1 | cmd2", &env).unwrap().unwrap();
    assert_eq!(effective_stdout(0, 2, p.commands[0].get_redirections()), OutputTarget::Pipe);
    assert_eq!(effective_stdout(1, 2, p.commands[1].get_redirections()), OutputTarget::Inherit);
}

#[test]
fn last_redirection_of_a_descriptor_wins() {
    let env = env_with(None, &[("/bin", &["c"])]);
    let p = parse_input("c >a >>b", &env).unwrap().unwrap();
    let t = effective_stdout(0, 1, p.commands[0].get_redirections());
    assert_eq!(t, OutputTarget::File("b".to_string(), RedirectionMode::Append));
}

#[test]
fn history_shows_last_two_with_width_five_indices() {
    let mut state = ShellState::new();
    state.add_history("alpha".to_string());
    state.add_history("beta".to_string());
    state.add_history("gamma".to_string());
    let out = history_output(&state.history, &Some(vec!["2".to_string()])).unwrap();
    assert_eq!(out, "    2  beta\n    3  gamma\n".to_string());
}

#[test]
fn history_without_argument_shows_everything() {
    let mut state = ShellState::new();
    state.add_history("one".to_string());
    state.add_history("two".to_string());
    let out = history_output(&state.history, &None).unwrap();
    assert_eq!(out, "    1  one\n    2  two\n".to_string());
}

#[test]
fn history_limit_larger_than_history_shows_everything() {
    let mut state = ShellState::new();
    state.add_history("only".to_string());
    let out = history_output(&state.history, &Some(vec!["99".to_string()])).unwrap();
    assert_eq!(out, "    1  only\n".to_string());
}

#[test]
fn history_rejects_non_numeric_argument() {
    let state = ShellState::new();
    let r = history_output(&state.history, &Some(vec!["abc".to_string()]));
    assert!(matches!(r, Err(ProcessCmdError::ArgsError(_))));
}

#[test]
fn blank_lines_never_enter_history() {
    let mut state = ShellState::new();
    state.add_history("   ".to_string());
    state.add_history("".to_string());
    state.add_history("real".to_string());
    assert_eq!(state.history, vec!["real".to_string()]);
}

#[test]
fn history_seed_trims_and_drops_blank_lines() {
    let mut state = ShellState::new();
    state.init("  a  \n\n\tb\n");
    assert_eq!(state.history, vec!["a".to_string(), "b".to_string()]);
}

#[test]
fn trimming_removes_surrounding_whitespace_only() {
    assert_eq!(trim_string("  a b \t"), "a b".to_string());
    assert_eq!(trim_string("   "), "".to_string());
    assert_eq!(trim_string("x"), "x".to_string());
}

#[test]
fn type_reports_builtin_regardless_of_path() {
    let bare = env_with(None, &[]);
    let shadowed = env_with(None, &[("/bin", &["cd"])]);
    let args = Some(vec!["cd".to_string()]);
    assert_eq!(type_output(&args, &bare), "cd is a shell builtin".to_string());
    assert_eq!(type_output(&args, &shadowed), "cd is a shell builtin".to_string());
}

#[test]
fn type_reports_first_candidate_path() {
    let env = env_with(None, &[("/a", &[]), ("/b", &["tool"]), ("/c", &["tool"])]);
    let args = Some(vec!["tool".to_string()]);
    assert_eq!(type_output(&args, &env), "tool is /b/tool".to_string());
}

#[test]
fn type_reports_not_found() {
    let env = env_with(None, &[]);
    let args = Some(vec!["ghost".to_string()]);
    assert_eq!(type_output(&args, &env), "ghost: not found".to_string());
}

#[test]
fn type_without_argument_asks_for_usage() {
    let env = env_with(None, &[]);
    assert_eq!(type_output(&None, &env), "Usage: type <command>".to_string());
}

#[test]
fn unknown_command_message() {
    assert_eq!(
        unknown_output(&"frobnicate".to_string()),
        "frobnicate: command not found".to_string()
    );
}

#[test]
fn numeric_arguments_parse_like_the_standard_library() {
    assert_eq!(parse_usize("0"), Some(0));
    assert_eq!(parse_usize("42"), Some(42));
    assert_eq!(parse_usize("+7"), Some(7));
    assert_eq!(parse_usize(""), None);
    assert_eq!(parse_usize("+"), None);
    assert_eq!(parse_usize("4x"), None);
    assert_eq!(parse_usize("-3"), None);
    assert_eq!(parse_usize("99999999999999999999999999999"), None);
}

#[test]
fn decimal_rendering() {
    assert_eq!(usize_to_string(0), "0".to_string());
    assert_eq!(usize_to_string(7), "7".to_string());
    assert_eq!(usize_to_string(12345), "12345".to_string());
    assert_eq!(usize_to_string(120043), "120043".to_string());
}

#[test]
fn exit_builtin_carries_no_arguments() {
    let env = env_with(None, &[]);
    let p = parse_input("exit 5", &env).unwrap().unwrap();
    assert!(matches!(
        &p.commands[0],
        MskCommand::Builtin(msk_shell::command::BuiltinCommand::EXIT, None, None)
    ));
}
