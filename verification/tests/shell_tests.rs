use top_cmds::shell::{classify_shell, get_parent_pid, get_shell, proc_field, ShellIdentity};

fn lines(ls: &[&str]) -> Vec<String> {
    ls.iter().map(|l| l.to_string()).collect()
}

#[test]
fn classify_shell_matches_names_and_paths() {
    assert_eq!(classify_shell("bash"), ShellIdentity::Bash);
    assert_eq!(classify_shell("/bin/bash"), ShellIdentity::Bash);
    assert_eq!(classify_shell("/usr/bin/zsh"), ShellIdentity::Zsh);
    assert_eq!(classify_shell("zsh"), ShellIdentity::Zsh);
    assert_eq!(classify_shell("/usr/bin/fish"), ShellIdentity::Fish);
    assert_eq!(classify_shell("fish"), ShellIdentity::Fish);
}

#[test]
fn classify_shell_unknown_names() {
    assert_eq!(classify_shell("python3"), ShellIdentity::Unknown);
    assert_eq!(classify_shell(""), ShellIdentity::Unknown);
    assert_eq!(classify_shell("Bash"), ShellIdentity::Unknown);
}

#[test]
fn classify_shell_is_case_sensitive_substring() {
    assert_eq!(classify_shell("my-bash-wrapper"), ShellIdentity::Bash);
    assert_eq!(classify_shell("fisherman"), ShellIdentity::Fish);
}

#[test]
fn parent_pid_read_from_status_lines() {
    let status = lines(&["Name:\tbash", "Umask:\t0022", "PPid:\t42"]);
    assert_eq!(get_parent_pid(&status), Some(42));
}

#[test]
fn parent_pid_missing_or_malformed() {
    assert_eq!(get_parent_pid(&lines(&[])), None);
    assert_eq!(get_parent_pid(&lines(&["Name:\tbash"])), None);
    assert_eq!(get_parent_pid(&lines(&["PPid:\tabc"])), None);
    assert_eq!(get_parent_pid(&lines(&["PPid:\t-7"])), None);
}

#[test]
fn parent_pid_skips_valueless_key_line() {
    let status = lines(&["PPid:", "PPid:\t7"]);
    assert_eq!(get_parent_pid(&status), Some(7));
}

#[test]
fn shell_name_read_from_status_lines() {
    let status = lines(&["Name:\tzsh", "PPid:\t1"]);
    assert_eq!(get_shell(&status), Some("zsh".to_string()));
    assert_eq!(get_shell(&lines(&["PPid:\t1"])), None);
}

#[test]
fn proc_field_takes_first_matching_line() {
    let status = lines(&["Name:\ta", "Name:\tb"]);
    assert_eq!(proc_field(&status, "Name:"), Some("a".to_string()));
}
