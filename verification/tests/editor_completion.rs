use msk_shell::autocompletion::{collect_all_commands, longest_common_prefix};
use msk_shell::command::{PathEntry, ShellEnv};
use msk_shell::line_editor::LineEditor;
use msk_shell::navigation::resolve_cd_target;
use msk_shell::terminal_io::{MskEvent, MskKeyCode};
use msk_shell::trie::Trie;

fn key(k: MskKeyCode) -> MskEvent {
    MskEvent::Key(k)
}

fn type_str(editor: &mut LineEditor, trie: &Trie, s: &str) {
    for c in s.chars() {
        editor.handle_event(key(MskKeyCode::Char(c)), trie);
    }
}

fn sorted(mut v: Vec<String>) -> Vec<String> {
    v.sort();
    v
}

#[test]
fn trie_finds_all_words_with_prefix() {
    let mut t = Trie::new();
    t.insert("ab");
    t.insert("abc");
    t.insert("b");
    let r = sorted(t.search_prefix("a").unwrap());
    assert_eq!(r, vec!["ab".to_string(), "abc".to_string()]);
    let all = sorted(t.search_prefix("").unwrap());
    assert_eq!(all, vec!["ab".to_string(), "abc".to_string(), "b".to_string()]);
    assert!(t.search_prefix("x").is_none());
}

#[test]
fn trie_search_is_exact_membership() {
    let mut t = Trie::new();
    t.insert("ab");
    t.insert("abc");
    assert!(t.search("ab"));
    assert!(t.search("abc"));
    assert!(!t.search("a"));
    assert!(!t.search("abcd"));
    assert!(!t.search(""));
}

#[test]
fn trie_insert_is_idempotent_on_lookups() {
    let mut t = Trie::new();
    t.insert("ls");
    t.insert("ls");
    let r = t.search_prefix("ls").unwrap();
    assert_eq!(r, vec!["ls".to_string()]);
}

#[test]
fn lcp_of_related_words() {
    let v = vec![
        "interspecies".to_string(),
        "interstellar".to_string(),
        "interstate".to_string(),
    ];
    assert_eq!(longest_common_prefix(&v), Some("inters".to_string()));
}

#[test]
fn lcp_of_unrelated_words_is_nothing() {
    let v = vec!["ab".to_string(), "cd".to_string()];
    assert_eq!(longest_common_prefix(&v), None);
}

#[test]
fn lcp_of_empty_list_is_nothing() {
    assert_eq!(longest_common_prefix(&Vec::new()), None);
}

#[test]
fn lcp_with_empty_first_string_is_empty() {
    let v = vec!["".to_string(), "x".to_string()];
    assert_eq!(longest_common_prefix(&v), Some("".to_string()));
}

#[test]
fn collected_commands_hold_builtins_and_path_entries() {
    let env = ShellEnv {
        home: None,
        path: vec![PathEntry {
            dir: "/bin".to_string(),
            executables: vec!["zz_tool".to_string()],
        }],
    };
    let t = collect_all_commands(&env);
    let all = sorted(t.search_prefix("").unwrap());
    assert_eq!(
        all,
        vec![
            "cd".to_string(),
            "echo".to_string(),
            "exit".to_string(),
            "history".to_string(),
            "pwd".to_string(),
            "type".to_string(),
            "zz_tool".to_string(),
        ]
    );
}

#[test]
fn typing_and_submitting_a_line() {
    let trie = Trie::new();
    let mut ed = LineEditor::new();
    type_str(&mut ed, &trie, "hi");
    let r = ed.handle_event(key(MskKeyCode::Enter), &trie);
    assert_eq!(r.line, Some("hi".to_string()));
    assert_eq!(r.echo, "\r\n".to_string());
    assert!(ed.buffer.is_empty());
    assert_eq!(ed.cursor, 0);
}

#[test]
fn backspace_removes_left_of_cursor() {
    let trie = Trie::new();
    let mut ed = LineEditor::new();
    type_str(&mut ed, &trie, "abc");
    ed.handle_event(key(MskKeyCode::ArrowLeft), &trie);
    let r = ed.handle_event(key(MskKeyCode::Backspace), &trie);
    assert_eq!(ed.buffer, vec!['a', 'c']);
    assert_eq!(ed.cursor, 1);
    assert_eq!(r.echo, "\u{8}\u{1b}[P".to_string());
}

#[test]
fn backspace_at_start_is_a_no_op() {
    let trie = Trie::new();
    let mut ed = LineEditor::new();
    let r = ed.handle_event(key(MskKeyCode::Backspace), &trie);
    assert!(ed.buffer.is_empty());
    assert_eq!(r.echo, "".to_string());
}

#[test]
fn arrows_stay_inside_the_buffer() {
    let trie = Trie::new();
    let mut ed = LineEditor::new();
    type_str(&mut ed, &trie, "ab");
    let r = ed.handle_event(key(MskKeyCode::ArrowRight), &trie);
    assert_eq!(ed.cursor, 2);
    assert_eq!(r.echo, "".to_string());
    ed.handle_event(key(MskKeyCode::ArrowLeft), &trie);
    ed.handle_event(key(MskKeyCode::ArrowLeft), &trie);
    let r2 = ed.handle_event(key(MskKeyCode::ArrowLeft), &trie);
    assert_eq!(ed.cursor, 0);
    assert_eq!(r2.echo, "".to_string());
}

#[test]
fn mid_buffer_insert_echoes_insert_sequence() {
    let trie = Trie::new();
    let mut ed = LineEditor::new();
    type_str(&mut ed, &trie, "ac");
    ed.handle_event(key(MskKeyCode::ArrowLeft), &trie);
    let r = ed.handle_event(key(MskKeyCode::Char('b')), &trie);
    assert_eq!(ed.buffer, vec!['a', 'b', 'c']);
    assert_eq!(ed.cursor, 2);
    assert_eq!(r.echo, "\u{1b}[@b".to_string());
}

#[test]
fn tab_completes_to_longest_common_prefix() {
    let mut trie = Trie::new();
    trie.insert("foobar");
    trie.insert("foobaz");
    let mut ed = LineEditor::new();
    type_str(&mut ed, &trie, "foo");
    let r = ed.handle_event(key(MskKeyCode::Tab), &trie);
    assert_eq!(ed.buffer, vec!['f', 'o', 'o', 'b', 'a', ' ']);
    assert_eq!(ed.cursor, 6);
    assert_eq!(r.echo, "ba ".to_string());
}

#[test]
fn tab_completes_unique_match_fully() {
    let mut trie = Trie::new();
    trie.insert("history");
    let mut ed = LineEditor::new();
    type_str(&mut ed, &trie, "hi");
    ed.handle_event(key(MskKeyCode::Tab), &trie);
    assert_eq!(ed.buffer, "history ".chars().collect::<Vec<char>>());
}

#[test]
fn tab_at_longest_common_prefix_is_a_no_op() {
    let mut trie = Trie::new();
    trie.insert("foobar");
    trie.insert("foobaz");
    let mut ed = LineEditor::new();
    type_str(&mut ed, &trie, "fooba");
    let r = ed.handle_event(key(MskKeyCode::Tab), &trie);
    assert_eq!(ed.buffer, vec!['f', 'o', 'o', 'b', 'a']);
    assert_eq!(ed.cursor, 5);
    assert_eq!(r.echo, "".to_string());
}

#[test]
fn tab_with_no_match_rings_the_bell() {
    let mut trie = Trie::new();
    trie.insert("ls");
    let mut ed = LineEditor::new();
    type_str(&mut ed, &trie, "zz");
    let r = ed.handle_event(key(MskKeyCode::Tab), &trie);
    assert_eq!(ed.buffer, vec!['z', 'z']);
    assert_eq!(r.echo, "\u{7}".to_string());
}

#[test]
fn cd_target_resolution() {
    let home = Some("/home/u".to_string());
    assert_eq!(resolve_cd_target(&"~".to_string(), &home), Some("/home/u".to_string()));
    assert_eq!(
        resolve_cd_target(&"~/dl".to_string(), &home),
        Some("/home/u/dl".to_string())
    );
    assert_eq!(resolve_cd_target(&"/etc".to_string(), &home), Some("/etc".to_string()));
    assert_eq!(resolve_cd_target(&"~".to_string(), &None), None);
    assert_eq!(resolve_cd_target(&"~/x".to_string(), &None), None);
    assert_eq!(resolve_cd_target(&"rel".to_string(), &None), Some("rel".to_string()));
}
