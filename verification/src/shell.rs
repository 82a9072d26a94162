//! Which shell a process belongs to, and the fields of a process status
//! listing.
//!
//! The binary walks the parent-process chain and hands each ancestor's
//! status listing (the lines of `/proc/<pid>/status`) to [`get_parent_pid`]
//! and [`get_shell`]; [`classify_shell`] then says whether a process name
//! names one of the known shells.

use vstd::prelude::*;

use crate::text::{
    contains_seq, dec_value, is_numeral, second_field, starts_with, str_contains,
    str_starts_with, get_second_field, parse_u32,
};

verus! {

/// The command-line interpreter driving a session: one of the three known
/// shells, or `Unknown` when no ancestor process names one of them.
#[derive(Clone, Copy, Debug, PartialEq, Eq, Structural)]
pub enum ShellIdentity {
    Bash,
    Zsh,
    Fish,
    Unknown,
}

/// The shell a process name or executable path names, if any: the name is
/// matched for the substrings `fish`, `zsh` and `bash`, in that order of
/// priority, case-sensitively.  This one policy covers both bare process
/// names (`bash`) and executable paths (`/usr/bin/bash`).
pub open spec fn spec_classify(name: Seq<char>) -> ShellIdentity {
    if contains_seq(name, "fish"@) {
        ShellIdentity::Fish
    } else if contains_seq(name, "zsh"@) {
        ShellIdentity::Zsh
    } else if contains_seq(name, "bash"@) {
        ShellIdentity::Bash
    } else {
        ShellIdentity::Unknown
    }
}

/// Tells which known shell `name` names, or `Unknown`.
pub fn classify_shell(name: &str) -> (r: ShellIdentity)
    ensures
        r == spec_classify(name@),
{
    if str_contains(name, "fish") {
        ShellIdentity::Fish
    } else if str_contains(name, "zsh") {
        ShellIdentity::Zsh
    } else if str_contains(name, "bash") {
        ShellIdentity::Bash
    } else {
        ShellIdentity::Unknown
    }
}

/// The value of the first status line that begins with `key` and carries a
/// second blank-separated field; lines with the key but no value are passed
/// over.
pub open spec fn spec_proc_field(lines: Seq<Seq<char>>, key: Seq<char>) -> Option<Seq<char>>
    decreases lines.len(),
{
    if lines.len() == 0 {
        None
    } else if starts_with(lines[0], key) && second_field(lines[0]) is Some {
        second_field(lines[0])
    } else {
        spec_proc_field(lines.drop_first(), key)
    }
}

/// Looks `key` up in the lines of a process status listing.
pub fn proc_field(lines: &Vec<String>, key: &str) -> (r: Option<String>)
    ensures
        (r is Some) == (spec_proc_field(lines.deep_view(), key@) is Some),
        r is Some ==> r->0@ == spec_proc_field(lines.deep_view(), key@)->0,
{
    let ghost all: Seq<Seq<char>> = lines.deep_view();
    proof {
        assert(all.skip(0) =~= all);
    }
    let mut i: usize = 0;
    while i < lines.len()
        invariant
            0 <= i <= lines.len(),
            all == lines.deep_view(),
            all.len() == lines.len(),
            spec_proc_field(all, key@) == spec_proc_field(all.skip(i as int), key@),
        decreases lines.len() - i,
    {
        proof {
            assert(all.skip(i as int)[0] == all[i as int]);
            assert(all[i as int] == lines[i as int]@);
            assert(all.skip(i as int).drop_first() =~= all.skip(i + 1));
        }
        let line = &lines[i];
        if str_starts_with(line.as_str(), key) {
            let field = get_second_field(line.as_str());
            if field.is_some() {
                return field;
            }
        }
        i = i + 1;
    }
    proof {
        assert(all.skip(lines.len() as int) =~= Seq::<Seq<char>>::empty());
    }
    None
}

/// The parent-process id a status listing reports: the value of its `PPid:`
/// line, when that value is a decimal numeral that fits a `u32`.
pub open spec fn spec_parent_pid(lines: Seq<Seq<char>>) -> Option<u32> {
    match spec_proc_field(lines, "PPid:"@) {
        Some(v) => if is_numeral(v) && dec_value(v) <= u32::MAX {
            Some(dec_value(v) as u32)
        } else {
            None
        },
        None => None,
    }
}

/// Reads the parent-process id out of the lines of a process status
/// listing.
pub fn get_parent_pid(lines: &Vec<String>) -> (r: Option<u32>)
    ensures
        r == spec_parent_pid(lines.deep_view()),
{
    match proc_field(lines, "PPid:") {
        Some(v) => parse_u32(v.as_str()),
        None => None,
    }
}

/// The process name a status listing reports: the value of its `Name:`
/// line.
pub open spec fn spec_process_name(lines: Seq<Seq<char>>) -> Option<Seq<char>> {
    spec_proc_field(lines, "Name:"@)
}

/// Reads the process name out of the lines of a process status listing.
pub fn get_shell(lines: &Vec<String>) -> (r: Option<String>)
    ensures
        (r is Some) == (spec_process_name(lines.deep_view()) is Some),
        r is Some ==> r->0@ == spec_process_name(lines.deep_view())->0,
{
    proc_field(lines, "Name:")
}

} // verus!
