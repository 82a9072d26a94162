use top_cmds::config::{read_nb_cmds, write_nb_cmds};
use top_cmds::text::{parse_u32, u32_to_string};

fn lines(ls: &[&str]) -> Vec<String> {
    ls.iter().map(|l| l.to_string()).collect()
}

#[test]
fn write_then_read_round_trips() {
    let written = write_nb_cmds(&lines(&[]), 5);
    assert_eq!(written, lines(&["nb_cmds 5"]));
    assert_eq!(read_nb_cmds(&written), 5);
}

#[test]
fn second_write_keeps_only_the_latest() {
    let once = write_nb_cmds(&lines(&["color blue"]), 5);
    let twice = write_nb_cmds(&once, 7);
    assert_eq!(twice, write_nb_cmds(&lines(&["color blue"]), 7));
    assert_eq!(read_nb_cmds(&twice), 7);
}

#[test]
fn write_replaces_the_setting_in_place() {
    let before = lines(&["color blue", "nb_cmds 2", "sound off"]);
    let after = write_nb_cmds(&before, 9);
    assert_eq!(after, lines(&["color blue", "nb_cmds 9", "sound off"]));
}

#[test]
fn write_appends_when_no_setting_is_there() {
    let before = lines(&["color blue"]);
    let after = write_nb_cmds(&before, 4);
    assert_eq!(after, lines(&["color blue", "nb_cmds 4"]));
}

#[test]
fn read_defaults_to_three() {
    assert_eq!(read_nb_cmds(&lines(&[])), 3);
    assert_eq!(read_nb_cmds(&lines(&["color blue"])), 3);
    assert_eq!(read_nb_cmds(&lines(&["nb_cmds"])), 3);
    assert_eq!(read_nb_cmds(&lines(&["nb_cmds abc"])), 3);
    assert_eq!(read_nb_cmds(&lines(&["nb_cmds -2"])), 3);
}

#[test]
fn read_takes_the_first_setting_line() {
    let file = lines(&["nb_cmds 8", "nb_cmds 1"]);
    assert_eq!(read_nb_cmds(&file), 8);
    let indented = lines(&["  nb_cmds 6"]);
    assert_eq!(read_nb_cmds(&indented), 6);
}

#[test]
fn limit_argument_accepts_only_plain_numerals() {
    assert_eq!(parse_u32("5"), Some(5));
    assert_eq!(parse_u32("0"), Some(0));
    assert_eq!(parse_u32("abc"), None);
    assert_eq!(parse_u32("-2"), None);
    assert_eq!(parse_u32(""), None);
    assert_eq!(parse_u32("4294967295"), Some(u32::MAX));
    assert_eq!(parse_u32("4294967296"), None);
}

#[test]
fn rejected_override_never_touches_the_lines() {
    let before = lines(&["nb_cmds 5"]);
    assert_eq!(parse_u32("abc"), None);
    assert_eq!(read_nb_cmds(&before), 5);
}

#[test]
fn numbers_format_in_decimal() {
    assert_eq!(u32_to_string(0), "0".to_string());
    assert_eq!(u32_to_string(7), "7".to_string());
    assert_eq!(u32_to_string(12345), "12345".to_string());
    assert_eq!(u32_to_string(u32::MAX), "4294967295".to_string());
}
