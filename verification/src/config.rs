//! The one persisted setting: how many commands the chart shows.
//!
//! The configuration file holds lines of `key value` pairs; the line whose
//! key is `nb_cmds` carries the limit.  Reading and rewriting work on the
//! file's lines as plain strings; the binary does the opening, reading and
//! writing around them.

use vstd::prelude::*;

use crate::text::{
    dec_digits, dec_value, find_non_blank, get_second_field, is_blank, is_digit, is_numeral,
    lemma_dec_digits_are_digits, lemma_dec_digits_value, lemma_digit_not_blank,
    lemma_skip_blanks_run, lemma_skip_field_run, match_at, matches_at, parse_u32, second_field,
    second_field_start, skip_blanks, u32_to_string,
};

verus! {

/// The key of the limit setting.
pub open spec fn nb_cmds_key() -> Seq<char> {
    "nb_cmds"@
}

/// A line that sets the limit: after any leading blanks it begins with the
/// `nb_cmds` key.
pub open spec fn is_nb_cmds_line(l: Seq<char>) -> bool {
    matches_at(l, nb_cmds_key(), skip_blanks(l, 0))
}

/// Whether a configuration line sets the limit.
pub fn line_sets_nb_cmds(l: &str) -> (r: bool)
    ensures
        r == is_nb_cmds_line(l@),
{
    let a = find_non_blank(l, 0);
    match_at(l, "nb_cmds", a)
}

/// The first limit-setting line of the file, if one is there.
pub open spec fn first_nb_cmds_line(lines: Seq<Seq<char>>) -> Option<Seq<char>>
    decreases lines.len(),
{
    if lines.len() == 0 {
        None
    } else if is_nb_cmds_line(lines[0]) {
        Some(lines[0])
    } else {
        first_nb_cmds_line(lines.drop_first())
    }
}

/// The default limit, used when the file holds no readable setting.
pub open spec fn default_limit() -> int {
    3
}

/// The limit one setting line carries: its second field read as a decimal
/// number, or the default when the field is missing or malformed.
pub open spec fn line_limit(l: Seq<char>) -> int {
    match second_field(l) {
        Some(t) => if is_numeral(t) && dec_value(t) <= u32::MAX {
            dec_value(t)
        } else {
            default_limit()
        },
        None => default_limit(),
    }
}

/// The limit the file's lines persist: what the first `nb_cmds` line
/// carries, or the default 3 when no line sets it or the value is
/// malformed.
pub open spec fn spec_read_nb_cmds(lines: Seq<Seq<char>>) -> int {
    match first_nb_cmds_line(lines) {
        Some(l) => line_limit(l),
        None => default_limit(),
    }
}

/// Reads the persisted limit out of the configuration file's lines.
pub fn read_nb_cmds(lines: &Vec<String>) -> (r: u32)
    ensures
        r as int == spec_read_nb_cmds(lines.deep_view()),
{
    let ghost all: Seq<Seq<char>> = lines.deep_view();
    proof {
        assert(all.skip(0) =~= all);
    }
    let mut i: usize = 0;
    while i < lines.len()
        invariant
            0 <= i <= lines.len(),
            all == lines.deep_view(),
            all.len() == lines.len(),
            first_nb_cmds_line(all) == first_nb_cmds_line(all.skip(i as int)),
        decreases lines.len() - i,
    {
        proof {
            assert(all.skip(i as int)[0] == all[i as int]);
            assert(all[i as int] == lines[i as int]@);
            assert(all.skip(i as int).drop_first() =~= all.skip(i + 1));
        }
        let line = &lines[i];
        if line_sets_nb_cmds(line.as_str()) {
            match get_second_field(line.as_str()) {
                Some(t) => {
                    match parse_u32(t.as_str()) {
                        Some(n) => {
                            return n;
                        },
                        None => {
                            return 3;
                        },
                    }
                },
                None => {
                    return 3;
                },
            }
        }
        i = i + 1;
    }
    proof {
        assert(all.skip(lines.len() as int) =~= Seq::<Seq<char>>::empty());
    }
    3
}

/// The line that persists limit `n`.
pub open spec fn nb_cmds_line_of(n: int) -> Seq<char> {
    "nb_cmds "@ + dec_digits(n)
}

/// The file's lines after setting the limit to `n`: every line that set it
/// before is rewritten to the new setting, every other line is kept
/// verbatim, and when no line set it the setting is appended at the end.
pub open spec fn spec_write_nb_cmds(lines: Seq<Seq<char>>, n: int) -> Seq<Seq<char>> {
    let replaced = lines.map_values(
        |l: Seq<char>|
            if is_nb_cmds_line(l) {
                nb_cmds_line_of(n)
            } else {
                l
            },
    );
    if exists|i: int| 0 <= i < lines.len() && is_nb_cmds_line(lines[i]) {
        replaced
    } else {
        replaced.push(nb_cmds_line_of(n))
    }
}

/// Rewrites the configuration file's lines so that they persist limit `n`;
/// lines that do not set the limit are left exactly as they were.
pub fn write_nb_cmds(lines: &Vec<String>, n: u32) -> (r: Vec<String>)
    ensures
        r.deep_view() == spec_write_nb_cmds(lines.deep_view(), n as int),
        forall|i: int|
            0 <= i < lines.deep_view().len() && !is_nb_cmds_line(lines.deep_view()[i])
                ==> r.deep_view()[i] == lines.deep_view()[i],
{
    let ghost all: Seq<Seq<char>> = lines.deep_view();
    let setting = String::from_str("nb_cmds ").concat(u32_to_string(n).as_str());
    proof {
        assert(setting@ == nb_cmds_line_of(n as int));
    }
    let mut out: Vec<String> = Vec::new();
    let mut found = false;
    let mut i: usize = 0;
    while i < lines.len()
        invariant
            0 <= i <= lines.len(),
            all == lines.deep_view(),
            all.len() == lines.len(),
            setting@ == nb_cmds_line_of(n as int),
            out@.len() == i,
            found == exists|k: int| 0 <= k < i && is_nb_cmds_line(all[k]),
            forall|k: int|
                0 <= k < i ==> out@[k]@ == if is_nb_cmds_line(all[k]) {
                    nb_cmds_line_of(n as int)
                } else {
                    all[k]
                },
        decreases lines.len() - i,
    {
        proof {
            assert(all[i as int] == lines[i as int]@);
        }
        let line = &lines[i];
        if line_sets_nb_cmds(line.as_str()) {
            out.push(setting.clone());
            found = true;
            proof {
                assert(is_nb_cmds_line(all[i as int]));
            }
        } else {
            out.push(line.clone());
        }
        i = i + 1;
    }
    if !found {
        out.push(setting);
    }
    proof {
        let replaced = all.map_values(
            |l: Seq<char>|
                if is_nb_cmds_line(l) {
                    nb_cmds_line_of(n as int)
                } else {
                    l
                },
        );
        assert(forall|k: int|
            0 <= k < out@.len() ==> #[trigger] out.deep_view()[k] == out@[k]@);
        if found {
            assert(out.deep_view() =~= replaced);
        } else {
            assert(out.deep_view() =~= replaced.push(nb_cmds_line_of(n as int)));
        }
    }
    out
}

/// The line that persists `n` is itself a setting line, and the limit it
/// carries is `n`.
pub proof fn lemma_nb_cmds_line_value(n: int)
    requires
        0 <= n <= u32::MAX,
    ensures
        is_nb_cmds_line(nb_cmds_line_of(n)),
        line_limit(nb_cmds_line_of(n)) == n,
{
    reveal_strlit("nb_cmds ");
    reveal_strlit("nb_cmds");
    let l = nb_cmds_line_of(n);
    let d = dec_digits(n);
    lemma_dec_digits_are_digits(n);
    lemma_dec_digits_value(n);
    assert(l.len() == 8 + d.len());
    assert(forall|k: int| 0 <= k < 8 ==> l[k] == "nb_cmds "@[k]);
    assert(forall|k: int| 8 <= k < l.len() ==> l[k] == d[k - 8]);
    assert forall|k: int| 8 <= k < l.len() implies !is_blank(l[k]) by {
        assert(is_digit(d[k - 8]));
        lemma_digit_not_blank(d[k - 8]);
    }
    assert(!is_blank(l[0]));
    lemma_skip_blanks_run(l, 0, 0);
    assert(l.subrange(0, 7) =~= nb_cmds_key());
    assert(is_nb_cmds_line(l));
    assert(forall|k: int| 0 <= k < 7 ==> !is_blank(l[k]));
    assert(is_blank(l[7]));
    lemma_skip_field_run(l, 0, 7);
    lemma_skip_blanks_run(l, 7, 8);
    lemma_skip_field_run(l, 8, l.len() as int);
    assert(second_field_start(l) == 8);
    assert(second_field(l) == Some(l.subrange(8, l.len() as int)));
    assert(l.subrange(8, l.len() as int) =~= d);
    assert(line_limit(l) == n);
}

/// After a write, the first setting line of the file is exactly the one
/// just written.
pub proof fn lemma_write_first_line(lines: Seq<Seq<char>>, n: int)
    requires
        0 <= n <= u32::MAX,
    ensures
        first_nb_cmds_line(spec_write_nb_cmds(lines, n)) == Some(nb_cmds_line_of(n)),
    decreases lines.len(),
{
    lemma_nb_cmds_line_value(n);
    let w = spec_write_nb_cmds(lines, n);
    if lines.len() == 0 {
        assert(w =~= seq![nb_cmds_line_of(n)]);
        assert(w[0] == nb_cmds_line_of(n));
    } else if is_nb_cmds_line(lines[0]) {
        assert(exists|i: int| 0 <= i < lines.len() && is_nb_cmds_line(lines[i])) by {
            assert(is_nb_cmds_line(lines[0]));
        }
        assert(w[0] == nb_cmds_line_of(n));
        assert(first_nb_cmds_line(w) == Some(w[0]));
    } else {
        let d = lines.drop_first();
        lemma_write_first_line(d, n);
        if exists|i: int| 0 <= i < lines.len() && is_nb_cmds_line(lines[i]) {
            let i = choose|i: int| 0 <= i < lines.len() && is_nb_cmds_line(lines[i]);
            assert(d[i - 1] == lines[i]);
            assert(exists|j: int| 0 <= j < d.len() && is_nb_cmds_line(d[j])) by {
                assert(is_nb_cmds_line(d[i - 1]));
            }
            assert(w.drop_first() =~= spec_write_nb_cmds(d, n));
        } else {
            assert(!(exists|j: int| 0 <= j < d.len() && is_nb_cmds_line(d[j]))) by {
                if exists|j: int| 0 <= j < d.len() && is_nb_cmds_line(d[j]) {
                    let j = choose|j: int| 0 <= j < d.len() && is_nb_cmds_line(d[j]);
                    assert(is_nb_cmds_line(lines[j + 1]));
                }
            }
            assert(w.drop_first() =~= spec_write_nb_cmds(d, n));
        }
        assert(w[0] == lines[0]);
        assert(first_nb_cmds_line(w) == first_nb_cmds_line(w.drop_first()));
    }
}

/// Round trip: writing limit `n` and reading the lines back yields `n`,
/// whatever the file held before.
pub proof fn lemma_nb_cmds_round_trip(lines: Seq<Seq<char>>, n: u32)
    ensures
        spec_read_nb_cmds(spec_write_nb_cmds(lines, n as int)) == n as int,
{
    lemma_write_first_line(lines, n as int);
    lemma_nb_cmds_line_value(n as int);
}

/// Writing twice keeps only the latest value: the second write leaves the
/// file exactly as one write of its value would have, unrelated lines still
/// untouched.
pub proof fn lemma_write_twice_keeps_latest(lines: Seq<Seq<char>>, a: int, b: int)
    requires
        0 <= a <= u32::MAX,
        0 <= b <= u32::MAX,
    ensures
        spec_write_nb_cmds(spec_write_nb_cmds(lines, a), b) == spec_write_nb_cmds(lines, b),
{
    lemma_nb_cmds_line_value(a);
    let w1 = spec_write_nb_cmds(lines, a);
    if exists|i: int| 0 <= i < lines.len() && is_nb_cmds_line(lines[i]) {
        let i = choose|i: int| 0 <= i < lines.len() && is_nb_cmds_line(lines[i]);
        assert(w1[i] == nb_cmds_line_of(a));
        assert(exists|j: int| 0 <= j < w1.len() && is_nb_cmds_line(w1[j])) by {
            assert(is_nb_cmds_line(w1[i]));
        }
        assert(spec_write_nb_cmds(w1, b) =~= spec_write_nb_cmds(lines, b));
    } else {
        assert(w1.len() == lines.len() + 1);
        assert(w1[lines.len() as int] == nb_cmds_line_of(a));
        assert(exists|j: int| 0 <= j < w1.len() && is_nb_cmds_line(w1[j])) by {
            assert(is_nb_cmds_line(w1[lines.len() as int]));
        }
        assert(forall|k: int| 0 <= k < lines.len() ==> w1[k] == lines[k]);
        assert(spec_write_nb_cmds(w1, b) =~= spec_write_nb_cmds(lines, b));
    }
}

} // verus!
