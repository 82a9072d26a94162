//! Locating a shell's history file and extracting the command strings from
//! its lines.

use vstd::prelude::*;
use vstd::string::StrSliceExecFns;

use crate::shell::ShellIdentity;
use crate::text::{starts_with, str_starts_with};

verus! {

/// The history file each shell keeps under the home directory, or `None`
/// for an unknown shell.
pub open spec fn spec_locate_history(shell: ShellIdentity, home: Seq<char>) -> Option<Seq<char>> {
    match shell {
        ShellIdentity::Bash => Some(home + "/.bash_history"@),
        ShellIdentity::Zsh => Some(home + "/.zsh_history"@),
        ShellIdentity::Fish => Some(home + "/.local/share/fish/fish_history"@),
        ShellIdentity::Unknown => None,
    }
}

/// Maps a shell to the path of its history file under `home_dir`.  A pure
/// mapping: it does not look whether the file exists, and an unknown shell
/// has no path at all.
pub fn locate_history(shell: ShellIdentity, home_dir: &str) -> (r: Option<String>)
    ensures
        (r is Some) == (spec_locate_history(shell, home_dir@) is Some),
        r is Some ==> r->0@ == spec_locate_history(shell, home_dir@)->0,
{
    match shell {
        ShellIdentity::Bash => Some(String::from_str(home_dir).concat("/.bash_history")),
        ShellIdentity::Zsh => Some(String::from_str(home_dir).concat("/.zsh_history")),
        ShellIdentity::Fish => Some(
            String::from_str(home_dir).concat("/.local/share/fish/fish_history"),
        ),
        ShellIdentity::Unknown => None,
    }
}

/// The same path on the same input, always; and an unknown shell never has
/// one.  `locate_history` is a pure total function of its two arguments.
pub proof fn lemma_locate_history_total(shell: ShellIdentity, home: Seq<char>)
    ensures
        spec_locate_history(shell, home) == spec_locate_history(shell, home),
        spec_locate_history(ShellIdentity::Unknown, home) is None,
        shell != ShellIdentity::Unknown ==> spec_locate_history(shell, home) is Some,
{
}

/// The marker that opens a command record in a fish history file.
pub open spec fn fish_cmd_marker() -> Seq<char> {
    "- cmd: "@
}

/// The marker that opens a `paths:` block in a fish history file; the one
/// line after it is a path entry, not a command.
pub open spec fn fish_paths_marker() -> Seq<char> {
    "  paths:"@
}

/// The commands of a fish history file: what follows the `- cmd: ` marker
/// on each line that begins with it.  A line beginning with the `  paths:`
/// marker makes the line after it skipped; every other line is passed over.
pub open spec fn fish_commands(lines: Seq<Seq<char>>) -> Seq<Seq<char>>
    decreases lines.len(),
{
    if lines.len() == 0 {
        Seq::empty()
    } else if starts_with(lines[0], fish_cmd_marker()) {
        seq![lines[0].skip(fish_cmd_marker().len() as int)] + fish_commands(lines.drop_first())
    } else if starts_with(lines[0], fish_paths_marker()) {
        if lines.len() == 1 {
            Seq::empty()
        } else {
            fish_commands(lines.skip(2))
        }
    } else {
        fish_commands(lines.drop_first())
    }
}

/// The command strings the lines of a history file hold: bash and zsh keep
/// one command per line, taken verbatim (a zsh extended-history metadata
/// prefix such as `: <epoch>:<duration>;` is part of the line and is kept);
/// fish keeps records read by [`fish_commands`]; an unknown shell
/// contributes nothing.
pub open spec fn spec_parse_history(lines: Seq<Seq<char>>, shell: ShellIdentity) -> Seq<Seq<char>> {
    match shell {
        ShellIdentity::Bash => lines,
        ShellIdentity::Zsh => lines,
        ShellIdentity::Fish => fish_commands(lines),
        ShellIdentity::Unknown => Seq::empty(),
    }
}

/// Extracts the commands from the lines of `shell`'s history file.  The
/// order of the file is kept and nothing is deduplicated.  The binary hands
/// in whatever lines it could read: a missing or unreadable file becomes no
/// lines, and so no commands.
pub fn parse_history(lines: &Vec<String>, shell: ShellIdentity) -> (r: Vec<String>)
    ensures
        r.deep_view() == spec_parse_history(lines.deep_view(), shell),
{
    match shell {
        ShellIdentity::Unknown => {
            let r: Vec<String> = Vec::new();
            proof {
                assert(r.deep_view() =~= Seq::<Seq<char>>::empty());
            }
            r
        },
        ShellIdentity::Fish => parse_fish_lines(lines),
        _ => {
            let mut r: Vec<String> = Vec::new();
            let mut i: usize = 0;
            while i < lines.len()
                invariant
                    0 <= i <= lines.len(),
                    r.deep_view() =~= lines.deep_view().take(i as int),
                decreases lines.len() - i,
            {
                r.push(lines[i].clone());
                proof {
                    assert(lines.deep_view()[i as int] == lines[i as int]@);
                    assert(lines.deep_view().take(i + 1) =~= lines.deep_view().take(
                        i as int,
                    ).push(lines.deep_view()[i as int]));
                    assert(r.deep_view() =~= lines.deep_view().take(i + 1));
                }
                i = i + 1;
            }
            proof {
                assert(lines.deep_view().take(lines.len() as int) =~= lines.deep_view());
            }
            r
        },
    }
}

/// Extracts the commands of a fish history file, one line of lookahead for
/// `paths:` blocks included.
fn parse_fish_lines(lines: &Vec<String>) -> (r: Vec<String>)
    ensures
        r.deep_view() == fish_commands(lines.deep_view()),
{
    let ghost all: Seq<Seq<char>> = lines.deep_view();
    proof {
        assert(all.skip(0) =~= all);
    }
    let mut r: Vec<String> = Vec::new();
    let mut i: usize = 0;
    while i < lines.len()
        invariant
            0 <= i <= lines.len(),
            all == lines.deep_view(),
            all.len() == lines.len(),
            fish_commands(all) =~= r.deep_view() + fish_commands(all.skip(i as int)),
        decreases lines.len() - i,
    {
        proof {
            assert(all.skip(i as int)[0] == all[i as int]);
            assert(all[i as int] == lines[i as int]@);
            assert(all.skip(i as int).drop_first() =~= all.skip(i + 1));
        }
        let line = &lines[i];
        if str_starts_with(line.as_str(), "- cmd: ") {
            proof {
                reveal_strlit("- cmd: ");
            }
            let n = line.as_str().unicode_len();
            let cmd = String::from_str(line.as_str().substring_char(7, n));
            proof {
                assert(cmd@ =~= all[i as int].skip(fish_cmd_marker().len() as int));
            }
            r.push(cmd);
            proof {
                assert(r.deep_view() =~= r.deep_view().take(r.deep_view().len() - 1).push(cmd@));
            }
            i = i + 1;
        } else if str_starts_with(line.as_str(), "  paths:") {
            if lines.len() - i >= 2 {
                proof {
                    assert(all.skip(i as int).skip(2) =~= all.skip(i + 2));
                }
                i = i + 2;
            } else {
                assert(all.skip(i as int).len() == 1);
                i = lines.len();
            }
        } else {
            i = i + 1;
        }
    }
    proof {
        assert(all.skip(lines.len() as int) =~= Seq::<Seq<char>>::empty());
    }
    r
}

/// No lines mean no commands, whatever the shell: an empty or unreadable
/// history file degrades to an empty command sequence.
pub proof fn lemma_parse_history_empty(shell: ShellIdentity)
    ensures
        spec_parse_history(Seq::empty(), shell) == Seq::<Seq<char>>::empty(),
{
}

} // verus!
