use pdf::shell::{shell_action, split_words, ShellAction};

#[test]
fn shell_splits_a_line_into_words() {
    assert_eq!(split_words("  info  a.pdf\t--format json "), vec!["info", "a.pdf", "--format", "json"]);
    assert!(split_words(" \t ").is_empty());
}

#[test]
fn shell_understands_quit_help_and_blank_lines() {
    assert!(matches!(shell_action("quit"), ShellAction::Quit));
    assert!(matches!(shell_action("  exit "), ShellAction::Quit));
    assert!(matches!(shell_action("help"), ShellAction::Help));
    assert!(matches!(shell_action("   "), ShellAction::Skip));
}

#[test]
fn shell_runs_other_lines_as_commands() {
    match shell_action("merge a.pdf b.pdf -o merged.pdf") {
        ShellAction::Run(words) => assert_eq!(words, vec!["merge", "a.pdf", "b.pdf", "-o", "merged.pdf"]),
        _ => panic!("expected a command"),
    }
}
