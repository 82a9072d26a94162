use top_cmds::history::parse_history;
use top_cmds::rank::{rank, top_commands};
use top_cmds::shell::ShellIdentity;

fn lines(ls: &[&str]) -> Vec<String> {
    ls.iter().map(|l| l.to_string()).collect()
}

fn pairs(ps: &[(&str, usize)]) -> Vec<(String, usize)> {
    ps.iter().map(|(c, n)| (c.to_string(), *n)).collect()
}

#[test]
fn rank_three_line_bash_file() {
    let history = parse_history(&lines(&["ls", "cd /tmp", "ls"]), ShellIdentity::Bash);
    let top = rank(&history, 2);
    assert_eq!(top, pairs(&[("ls", 2), ("cd /tmp", 1)]));
}

#[test]
fn rank_length_is_min_of_limit_and_distinct() {
    let history = lines(&["a", "b", "a", "c"]);
    assert_eq!(rank(&history, 0).len(), 0);
    assert_eq!(rank(&history, 2).len(), 2);
    assert_eq!(rank(&history, 10).len(), 3);
}

#[test]
fn rank_counts_never_rise() {
    let history = lines(&["a", "b", "b", "c", "c", "c", "a"]);
    let top = rank(&history, 10);
    for w in top.windows(2) {
        assert!(w[0].1 >= w[1].1);
    }
    assert_eq!(top[0], ("c".to_string(), 3));
}

#[test]
fn rank_breaks_ties_by_first_appearance() {
    let history = lines(&["b", "a", "b", "a", "c"]);
    let top = rank(&history, 10);
    assert_eq!(top, pairs(&[("b", 2), ("a", 2), ("c", 1)]));
}

#[test]
fn rank_is_deterministic() {
    let history = lines(&["x", "y", "x", "z", "y", "x"]);
    let a = rank(&history, 3);
    let b = rank(&history, 3);
    assert_eq!(a, b);
}

#[test]
fn rank_is_case_sensitive_and_exact() {
    let history = lines(&["ls", "LS", "ls -l"]);
    let top = rank(&history, 10);
    assert_eq!(top.len(), 3);
    for (_, n) in &top {
        assert_eq!(*n, 1);
    }
}

#[test]
fn rank_of_empty_history_is_empty() {
    let history: Vec<String> = Vec::new();
    assert_eq!(rank(&history, 5), pairs(&[]));
    assert_eq!(top_commands(&history), pairs(&[]));
}

#[test]
fn top_commands_takes_at_most_three() {
    let history = lines(&["a", "a", "a", "b", "b", "c", "c", "d"]);
    let top = top_commands(&history);
    assert_eq!(top, pairs(&[("a", 3), ("b", 2), ("c", 2)]));
}
