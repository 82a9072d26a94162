use top_cmds::history::{locate_history, parse_history};
use top_cmds::shell::ShellIdentity;

fn lines(ls: &[&str]) -> Vec<String> {
    ls.iter().map(|l| l.to_string()).collect()
}

#[test]
fn locate_history_maps_each_shell() {
    assert_eq!(
        locate_history(ShellIdentity::Bash, "/home/u"),
        Some("/home/u/.bash_history".to_string())
    );
    assert_eq!(
        locate_history(ShellIdentity::Zsh, "/home/u"),
        Some("/home/u/.zsh_history".to_string())
    );
    assert_eq!(
        locate_history(ShellIdentity::Fish, "/home/u"),
        Some("/home/u/.local/share/fish/fish_history".to_string())
    );
    assert_eq!(locate_history(ShellIdentity::Unknown, "/home/u"), None);
}

#[test]
fn locate_history_is_deterministic() {
    let a = locate_history(ShellIdentity::Zsh, "/root");
    let b = locate_history(ShellIdentity::Zsh, "/root");
    assert_eq!(a, b);
    assert_eq!(locate_history(ShellIdentity::Unknown, ""), None);
}

#[test]
fn fish_records_yield_commands() {
    let file = lines(&["- cmd: ls -la", "  paths:", "    - ls", "- cmd: git status"]);
    let cmds = parse_history(&file, ShellIdentity::Fish);
    assert_eq!(cmds, lines(&["ls -la", "git status"]));
}

#[test]
fn fish_paths_block_skips_the_next_line() {
    let file = lines(&["  paths:", "- cmd: ls", "- cmd: pwd"]);
    let cmds = parse_history(&file, ShellIdentity::Fish);
    assert_eq!(cmds, lines(&["pwd"]));
}

#[test]
fn fish_ignores_other_lines_and_short_markers() {
    let file = lines(&["- cmd: a", "  when: 1700000000", "- cmd:b", "- cmd: "]);
    let cmds = parse_history(&file, ShellIdentity::Fish);
    assert_eq!(cmds, lines(&["a", ""]));
}

#[test]
fn bash_lines_are_kept_verbatim() {
    let file = lines(&["ls", "cd /tmp", "ls"]);
    assert_eq!(parse_history(&file, ShellIdentity::Bash), file);
}

#[test]
fn zsh_metadata_prefix_is_not_stripped() {
    let file = lines(&[": 1700000000:0;ls"]);
    assert_eq!(parse_history(&file, ShellIdentity::Zsh), file);
}

#[test]
fn unknown_shell_yields_no_commands() {
    let file = lines(&["ls", "pwd"]);
    assert_eq!(parse_history(&file, ShellIdentity::Unknown), lines(&[]));
}

#[test]
fn empty_file_yields_no_commands() {
    let none: Vec<String> = Vec::new();
    assert_eq!(parse_history(&none, ShellIdentity::Bash), none);
    assert_eq!(parse_history(&none, ShellIdentity::Fish), none);
    assert_eq!(parse_history(&none, ShellIdentity::Unknown), none);
}
