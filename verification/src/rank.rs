//! Counting how often each command occurs in a history and ranking the most
//! frequent ones.
//!
//! Commands are compared case-sensitively, by exact string match.  The
//! ranking sorts the distinct commands by falling count; commands with equal
//! counts stay in the order of their first appearance in the history, so the
//! result is one fixed function of the input.

use vstd::prelude::*;

verus! {

/// How often `c` occurs in `h`.
pub open spec fn count_in(h: Seq<Seq<char>>, c: Seq<char>) -> int
    decreases h.len(),
{
    if h.len() == 0 {
        0
    } else {
        count_in(h.drop_last(), c) + if h.last() == c {
            1int
        } else {
            0int
        }
    }
}

/// The distinct commands of `h`, in the order of their first appearance.
pub open spec fn firsts(h: Seq<Seq<char>>) -> Seq<Seq<char>>
    decreases h.len(),
{
    if h.len() == 0 {
        Seq::empty()
    } else {
        let f = firsts(h.drop_last());
        if f.contains(h.last()) {
            f
        } else {
            f.push(h.last())
        }
    }
}

/// Each distinct command of `h` paired with its count, in first-appearance
/// order.
pub open spec fn counts_table(h: Seq<Seq<char>>) -> Seq<(Seq<char>, int)> {
    firsts(h).map_values(|c: Seq<char>| (c, count_in(h, c)))
}

pub proof fn lemma_count_in_bounds(h: Seq<Seq<char>>, c: Seq<char>)
    ensures
        0 <= count_in(h, c) <= h.len(),
    decreases h.len(),
{
    if h.len() > 0 {
        lemma_count_in_bounds(h.drop_last(), c);
    }
}

pub proof fn lemma_firsts_step(h: Seq<Seq<char>>, i: int)
    requires
        0 <= i < h.len(),
    ensures
        firsts(h.take(i + 1)) == if firsts(h.take(i)).contains(h[i]) {
            firsts(h.take(i))
        } else {
            firsts(h.take(i)).push(h[i])
        },
{
    assert(h.take(i + 1).drop_last() =~= h.take(i));
    assert(h.take(i + 1).last() == h[i]);
}

/// The first-appearance listing holds no command twice.
pub proof fn lemma_firsts_distinct(h: Seq<Seq<char>>)
    ensures
        forall|i: int, j: int|
            0 <= i < j < firsts(h).len() ==> firsts(h)[i] != firsts(h)[j],
    decreases h.len(),
{
    if h.len() > 0 {
        lemma_firsts_distinct(h.drop_last());
        let f = firsts(h.drop_last());
        if !f.contains(h.last()) {
            assert(forall|i: int| 0 <= i < f.len() ==> f[i] != h.last());
            assert(forall|i: int| 0 <= i < f.len() ==> firsts(h)[i] == f[i]);
        }
    }
}

/// A command is listed among the distinct commands exactly when it occurs.
pub proof fn lemma_firsts_contains(h: Seq<Seq<char>>, c: Seq<char>)
    ensures
        firsts(h).contains(c) <==> count_in(h, c) > 0,
    decreases h.len(),
{
    if h.len() > 0 {
        lemma_firsts_contains(h.drop_last(), c);
        lemma_count_in_bounds(h.drop_last(), c);
        let f = firsts(h.drop_last());
        if f.contains(h.last()) {
            assert(firsts(h) == f);
        } else {
            assert(f.push(h.last()).contains(c) <==> (f.contains(c) || h.last() == c)) by {
                if f.push(h.last()).contains(c) {
                    let i = choose|i: int| 0 <= i < f.push(h.last()).len() && f.push(h.last())[i] == c;
                    if i < f.len() {
                        assert(f[i] == c);
                    }
                }
                if f.contains(c) {
                    let i = choose|i: int| 0 <= i < f.len() && f[i] == c;
                    assert(f.push(h.last())[i] == c);
                }
                if h.last() == c {
                    assert(f.push(h.last())[f.len() as int] == c);
                }
            }
        }
    }
}

/// One more history entry changes no other command's count.
pub proof fn lemma_count_in_step_all(h: Seq<Seq<char>>, i: int)
    requires
        0 <= i < h.len(),
    ensures
        forall|c: Seq<char>|
            #[trigger] count_in(h.take(i + 1), c) == count_in(h.take(i), c) + if h[i] == c {
                1int
            } else {
                0int
            },
{
    assert(h.take(i + 1).drop_last() =~= h.take(i));
    assert(h.take(i + 1).last() == h[i]);
}

/// The counting loop's table view: each entry's command and its count so
/// far.
pub open spec fn table_view(t: Seq<(String, usize)>) -> Seq<(Seq<char>, int)> {
    t.map_values(|p: (String, usize)| (p.0@, p.1 as int))
}

/// Finds the table entry of a command, if one is there.
fn find_command(t: &Vec<(String, usize)>, cmd: &String) -> (r: Option<usize>)
    ensures
        r is Some ==> r->0 < t@.len() && t@[r->0 as int].0@ == cmd@,
        r is None ==> forall|k: int| 0 <= k < t@.len() ==> t@[k].0@ != cmd@,
{
    let mut j: usize = 0;
    while j < t.len()
        invariant
            0 <= j <= t@.len(),
            forall|k: int| 0 <= k < j ==> t@[k].0@ != cmd@,
        decreases t@.len() - j,
    {
        if t[j].0.eq(cmd) {
            return Some(j);
        }
        j = j + 1;
    }
    None
}

/// Builds the table of distinct commands and their counts, in
/// first-appearance order.
fn count_commands(history: &Vec<String>) -> (t: Vec<(String, usize)>)
    ensures
        table_view(t@) == counts_table(history.deep_view()),
{
    let ghost h: Seq<Seq<char>> = history.deep_view();
    let mut t: Vec<(String, usize)> = Vec::new();
    let mut i: usize = 0;
    proof {
        assert(h.take(0) =~= Seq::<Seq<char>>::empty());
    }
    while i < history.len()
        invariant
            0 <= i <= history.len(),
            h == history.deep_view(),
            h.len() == history.len(),
            t@.len() == firsts(h.take(i as int)).len(),
            forall|k: int| 0 <= k < t@.len() ==> t@[k].0@ == firsts(h.take(i as int))[k],
            forall|k: int|
                0 <= k < t@.len() ==> t@[k].1 as int == count_in(h.take(i as int), t@[k].0@),
        decreases history.len() - i,
    {
        proof {
            assert(h[i as int] == history[i as int]@);
            lemma_firsts_step(h, i as int);
            lemma_firsts_distinct(h.take(i as int));
            lemma_count_in_step_all(h, i as int);
        }
        let cmd = &history[i];
        match find_command(&t, cmd) {
            Some(j0) => {
                proof {
                    assert(firsts(h.take(i as int)).contains(h[i as int])) by {
                        assert(firsts(h.take(i as int))[j0 as int] == h[i as int]);
                    }
                    lemma_count_in_bounds(h.take(i as int), h[i as int]);
                    assert(t@[j0 as int].1 as int <= i);
                }
                let c = t[j0].1;
                let name = t[j0].0.clone();
                let ghost told = t@;
                t.set(j0, (name, c + 1));
                proof {
                    let fi = firsts(h.take(i as int));
                    assert(t@ == told.update(j0 as int, (name, (c + 1) as usize)));
                    assert(fi[j0 as int] == h[i as int]);
                    assert(forall|k: int|
                        0 <= k < fi.len() && k != j0 ==> fi[k] != fi[j0 as int]);
                    assert(forall|k: int|
                        0 <= k < t@.len() && k != j0 ==> t@[k] == told[k] && t@[k].0@ == fi[k]
                            && t@[k].0@ != h[i as int]);
                    assert(t@[j0 as int].0@ == h[i as int]);
                    assert(t@[j0 as int].1 as int == count_in(h.take(i as int), h[i as int]) + 1);
                }
            },
            None => {
                proof {
                    assert(!firsts(h.take(i as int)).contains(h[i as int])) by {
                        if firsts(h.take(i as int)).contains(h[i as int]) {
                            let k = choose|k: int|
                                0 <= k < firsts(h.take(i as int)).len() && firsts(
                                    h.take(i as int),
                                )[k] == h[i as int];
                            assert(t@[k].0@ == h[i as int]);
                        }
                    }
                    lemma_firsts_contains(h.take(i as int), h[i as int]);
                    lemma_count_in_bounds(h.take(i as int), h[i as int]);
                }
                t.push((cmd.clone(), 1));
            },
        }
        proof {
            assert(forall|k: int| 0 <= k < t@.len() ==> t@[k].0@ == firsts(h.take(i + 1))[k]);
            assert(forall|k: int|
                0 <= k < t@.len() ==> t@[k].1 as int == count_in(h.take(i + 1), t@[k].0@));
        }
        i = i + 1;
    }
    proof {
        assert(h.take(h.len() as int) =~= h);
        assert(table_view(t@) =~= counts_table(h));
    }
    t
}

/// Places `p` into `s` behind every entry whose count is at least `p`'s:
/// a stable insertion by falling count.
pub open spec fn insert_desc(s: Seq<(Seq<char>, int)>, p: (Seq<char>, int)) -> Seq<
    (Seq<char>, int),
>
    decreases s.len(),
{
    if s.len() == 0 {
        seq![p]
    } else if p.1 > s[0].1 {
        seq![p] + s
    } else {
        seq![s[0]] + insert_desc(s.drop_first(), p)
    }
}

/// Sorts by falling count, stably: entries with equal counts keep their
/// order.
pub open spec fn sort_desc(s: Seq<(Seq<char>, int)>) -> Seq<(Seq<char>, int)>
    decreases s.len(),
{
    if s.len() == 0 {
        Seq::empty()
    } else {
        insert_desc(sort_desc(s.drop_last()), s.last())
    }
}

/// Counts never rise along the sequence.
pub open spec fn sorted_desc(s: Seq<(Seq<char>, int)>) -> bool {
    forall|i: int, j: int| 0 <= i < j < s.len() ==> s[i].1 >= s[j].1
}

pub proof fn lemma_insert_desc_len(s: Seq<(Seq<char>, int)>, p: (Seq<char>, int))
    ensures
        insert_desc(s, p).len() == s.len() + 1,
    decreases s.len(),
{
    if s.len() > 0 && !(p.1 > s[0].1) {
        lemma_insert_desc_len(s.drop_first(), p);
    }
}

pub proof fn lemma_sort_desc_len(s: Seq<(Seq<char>, int)>)
    ensures
        sort_desc(s).len() == s.len(),
    decreases s.len(),
{
    if s.len() > 0 {
        lemma_sort_desc_len(s.drop_last());
        lemma_insert_desc_len(sort_desc(s.drop_last()), s.last());
    }
}

/// Inserting keeps any upper bound on the counts.
pub proof fn lemma_insert_desc_bound(s: Seq<(Seq<char>, int)>, p: (Seq<char>, int), b: int)
    requires
        forall|k: int| 0 <= k < s.len() ==> s[k].1 <= b,
        p.1 <= b,
    ensures
        forall|k: int| 0 <= k < insert_desc(s, p).len() ==> insert_desc(s, p)[k].1 <= b,
    decreases s.len(),
{
    let r = insert_desc(s, p);
    if s.len() == 0 {
        assert(r[0] == p);
    } else if p.1 > s[0].1 {
        assert(forall|k: int| 1 <= k < r.len() ==> r[k] == s[k - 1]);
    } else {
        let d = s.drop_first();
        assert(forall|k: int| 0 <= k < d.len() ==> d[k].1 <= b);
        lemma_insert_desc_bound(d, p, b);
        assert(forall|k: int| 1 <= k < r.len() ==> r[k] == insert_desc(d, p)[k - 1]);
    }
}

pub proof fn lemma_insert_desc_sorted(s: Seq<(Seq<char>, int)>, p: (Seq<char>, int))
    requires
        sorted_desc(s),
    ensures
        sorted_desc(insert_desc(s, p)),
    decreases s.len(),
{
    let r = insert_desc(s, p);
    if s.len() == 0 {
    } else if p.1 > s[0].1 {
        assert(forall|j: int| 1 <= j < r.len() ==> r[j] == s[j - 1]);
        assert(forall|j: int| 1 <= j < r.len() ==> r[0].1 >= #[trigger] r[j].1);
    } else {
        let d = s.drop_first();
        assert(forall|i: int, j: int| 0 <= i < j < d.len() ==> d[i].1 >= d[j].1);
        lemma_insert_desc_sorted(d, p);
        assert(forall|k: int| 0 <= k < d.len() ==> d[k].1 <= s[0].1);
        lemma_insert_desc_bound(d, p, s[0].1);
        let ins = insert_desc(d, p);
        assert(forall|j: int| 1 <= j < r.len() ==> r[j] == ins[j - 1]);
        assert(forall|i: int, j: int| 1 <= i < j < r.len() ==> r[i].1 >= r[j].1);
        assert(forall|j: int| 1 <= j < r.len() ==> r[0].1 >= #[trigger] r[j].1);
    }
}

pub proof fn lemma_sort_desc_sorted(s: Seq<(Seq<char>, int)>)
    ensures
        sorted_desc(sort_desc(s)),
    decreases s.len(),
{
    if s.len() > 0 {
        lemma_sort_desc_sorted(s.drop_last());
        lemma_insert_desc_sorted(sort_desc(s.drop_last()), s.last());
    }
}

/// Inserting adds `p` and keeps everything else.
pub proof fn lemma_insert_desc_contains(
    s: Seq<(Seq<char>, int)>,
    p: (Seq<char>, int),
    q: (Seq<char>, int),
)
    ensures
        insert_desc(s, p).contains(q) <==> (s.contains(q) || q == p),
    decreases s.len(),
{
    let r = insert_desc(s, p);
    if s.len() == 0 {
        if q == p {
            assert(r[0] == q);
        }
        if r.contains(q) {
            let i = choose|i: int| 0 <= i < r.len() && r[i] == q;
            assert(q == p);
        }
    } else if p.1 > s[0].1 {
        if r.contains(q) {
            let i = choose|i: int| 0 <= i < r.len() && r[i] == q;
            if i > 0 {
                assert(s[i - 1] == q);
            }
        }
        if s.contains(q) {
            let i = choose|i: int| 0 <= i < s.len() && s[i] == q;
            assert(r[i + 1] == q);
        }
        if q == p {
            assert(r[0] == q);
        }
    } else {
        let d = s.drop_first();
        let ins = insert_desc(d, p);
        lemma_insert_desc_contains(d, p, q);
        if r.contains(q) {
            let i = choose|i: int| 0 <= i < r.len() && r[i] == q;
            if i == 0 {
                assert(s[0] == q);
            } else {
                assert(ins[i - 1] == q);
                assert(ins.contains(q));
                if d.contains(q) {
                    let k = choose|k: int| 0 <= k < d.len() && d[k] == q;
                    assert(s[k + 1] == q);
                }
            }
        }
        if s.contains(q) {
            let i = choose|i: int| 0 <= i < s.len() && s[i] == q;
            if i == 0 {
                assert(r[0] == q);
            } else {
                assert(d[i - 1] == q);
                assert(d.contains(q));
                assert(ins.contains(q));
                let k = choose|k: int| 0 <= k < ins.len() && ins[k] == q;
                assert(r[k + 1] == q);
            }
        }
        if q == p {
            assert(ins.contains(q));
            let k = choose|k: int| 0 <= k < ins.len() && ins[k] == q;
            assert(r[k + 1] == q);
        }
    }
}

/// Sorting neither adds nor loses entries.
pub proof fn lemma_sort_desc_contains(s: Seq<(Seq<char>, int)>, q: (Seq<char>, int))
    ensures
        sort_desc(s).contains(q) <==> s.contains(q),
    decreases s.len(),
{
    if s.len() > 0 {
        let d = s.drop_last();
        lemma_sort_desc_contains(d, q);
        lemma_insert_desc_contains(sort_desc(d), s.last(), q);
        if d.contains(q) {
            let i = choose|i: int| 0 <= i < d.len() && d[i] == q;
            assert(s[i] == q);
        }
        if q == s.last() {
            assert(s[s.len() - 1] == q);
        }
        if s.contains(q) {
            let i = choose|i: int| 0 <= i < s.len() && s[i] == q;
            if i < s.len() - 1 {
                assert(d[i] == q);
            }
        }
    }
}

/// Where a scan from the front puts a new entry, the insertion lands: at
/// the first position whose count falls below `p`'s.
pub proof fn lemma_insert_desc_at(s: Seq<(Seq<char>, int)>, p: (Seq<char>, int), j: int)
    requires
        0 <= j <= s.len(),
        forall|k: int| 0 <= k < j ==> s[k].1 >= p.1,
        j == s.len() || p.1 > s[j].1,
    ensures
        insert_desc(s, p) == s.take(j) + seq![p] + s.skip(j),
    decreases j,
{
    if j == 0 {
        if s.len() == 0 {
            assert(insert_desc(s, p) =~= s.take(0) + seq![p] + s.skip(0));
        } else {
            assert(insert_desc(s, p) =~= s.take(0) + seq![p] + s.skip(0));
        }
    } else {
        let d = s.drop_first();
        assert(forall|k: int| 0 <= k < j - 1 ==> d[k].1 >= p.1);
        lemma_insert_desc_at(d, p, j - 1);
        assert(insert_desc(s, p) =~= s.take(j) + seq![p] + s.skip(j)) by {
            assert(insert_desc(s, p) == seq![s[0]] + insert_desc(d, p));
            assert(insert_desc(d, p) == d.take(j - 1) + seq![p] + d.skip(j - 1));
            assert(forall|k: int| 0 <= k < d.len() ==> d[k] == s[k + 1]);
        }
    }
}

/// One sorting step: the next table entry is inserted into the sorted
/// prefix.
pub proof fn lemma_sort_desc_step(v: Seq<(Seq<char>, int)>, i: int)
    requires
        0 <= i < v.len(),
    ensures
        sort_desc(v.take(i + 1)) == insert_desc(sort_desc(v.take(i)), v[i]),
{
    assert(v.take(i + 1).drop_last() =~= v.take(i));
    assert(v.take(i + 1).last() == v[i]);
}

/// The ranking of a history: its distinct commands with their counts,
/// sorted stably by falling count, cut down to at most `limit` entries.
pub open spec fn spec_rank(h: Seq<Seq<char>>, limit: int) -> Seq<(Seq<char>, int)> {
    let sorted = sort_desc(counts_table(h));
    if limit < sorted.len() {
        sorted.take(limit)
    } else {
        sorted
    }
}

/// Ranks the commands of `history` by how often each occurs.
///
/// The result pairs each of the `min(limit, distinct)` most frequent
/// distinct commands with its count, most frequent first; commands of equal
/// count stay in the order of their first appearance.
pub fn rank(history: &Vec<String>, limit: usize) -> (r: Vec<(String, usize)>)
    ensures
        table_view(r@) == spec_rank(history.deep_view(), limit as int),
        r@.len() == if limit as int <= firsts(history.deep_view()).len() {
            limit as int
        } else {
            firsts(history.deep_view()).len() as int
        },
        forall|i: int, j: int| 0 <= i < j < r@.len() ==> r@[i].1 >= r@[j].1,
        forall|i: int|
            0 <= i < r@.len() ==> r@[i].1 as int == count_in(history.deep_view(), r@[i].0@)
                && r@[i].1 > 0,
{
    let ghost h: Seq<Seq<char>> = history.deep_view();
    let t = count_commands(history);
    let ghost tv: Seq<(Seq<char>, int)> = table_view(t@);
    let mut sorted: Vec<(String, usize)> = Vec::new();
    let mut i: usize = 0;
    proof {
        assert(tv.take(0) =~= Seq::<(Seq<char>, int)>::empty());
        assert(table_view(sorted@) =~= Seq::<(Seq<char>, int)>::empty());
    }
    while i < t.len()
        invariant
            0 <= i <= t@.len(),
            tv == table_view(t@),
            tv.len() == t@.len(),
            table_view(sorted@) == sort_desc(tv.take(i as int)),
            sorted@.len() == i,
        decreases t@.len() - i,
    {
        proof {
            lemma_sort_desc_step(tv, i as int);
            assert(tv[i as int] == (t@[i as int].0@, t@[i as int].1 as int));
        }
        let name = t[i].0.clone();
        let cnt = t[i].1;
        let p = (name, cnt);
        let ghost pv: (Seq<char>, int) = (p.0@, p.1 as int);
        let ghost sv: Seq<(Seq<char>, int)> = table_view(sorted@);
        let mut j: usize = 0;
        while j < sorted.len() && sorted[j].1 >= p.1
            invariant
                0 <= j <= sorted@.len(),
                sv == table_view(sorted@),
                sv.len() == sorted@.len(),
                pv.1 == p.1 as int,
                forall|k: int| 0 <= k < j ==> sv[k].1 >= pv.1,
            decreases sorted@.len() - j,
        {
            proof {
                assert(j < sorted@.len());
                assert(sorted@[j as int].1 >= p.1);
                assert(sv[j as int] == (sorted@[j as int].0@, sorted@[j as int].1 as int));
                assert(sv[j as int].1 >= pv.1);
            }
            j = j + 1;
        }
        proof {
            assert(j == sorted@.len() || pv.1 > sv[j as int].1);
            lemma_insert_desc_at(sv, pv, j as int);
        }
        sorted.insert(j, p);
        proof {
            assert(table_view(sorted@) =~= sv.take(j as int) + seq![pv] + sv.skip(j as int));
            assert(table_view(sorted@) == insert_desc(sort_desc(tv.take(i as int)), tv[i as int]));
        }
        i = i + 1;
    }
    proof {
        assert(tv.take(t@.len() as int) =~= tv);
        assert(table_view(sorted@) == sort_desc(tv));
    }
    if limit < sorted.len() {
        sorted.truncate(limit);
        proof {
            assert(table_view(sorted@) =~= sort_desc(tv).take(limit as int));
        }
    }
    proof {
        lemma_sort_desc_len(tv);
        lemma_sort_desc_sorted(tv);
        assert(tv.len() == firsts(h).len());
        let res = table_view(sorted@);
        assert(forall|k: int| 0 <= k < sorted@.len() ==> #[trigger] res[k] == (
            sorted@[k].0@,
            sorted@[k].1 as int,
        ));
        assert(forall|k: int| 0 <= k < res.len() ==> res[k] == sort_desc(tv)[k]);
        assert forall|i1: int, j1: int| 0 <= i1 < j1 < sorted@.len() implies sorted@[i1].1
            >= sorted@[j1].1 by {
            assert(res[i1] == sort_desc(tv)[i1]);
            assert(res[j1] == sort_desc(tv)[j1]);
            assert(sort_desc(tv)[i1].1 >= sort_desc(tv)[j1].1);
        }
        assert forall|k: int| 0 <= k < sorted@.len() implies sorted@[k].1 as int == count_in(
            h,
            sorted@[k].0@,
        ) && sorted@[k].1 > 0 by {
            let q = res[k];
            assert(sort_desc(tv)[k] == q);
            assert(sort_desc(tv).contains(q));
            lemma_sort_desc_contains(tv, q);
            let m = choose|m: int| 0 <= m < tv.len() && tv[m] == q;
            assert(q == (firsts(h)[m], count_in(h, firsts(h)[m])));
            assert(firsts(h).contains(q.0)) by {
                assert(firsts(h)[m] == q.0);
            }
            lemma_firsts_contains(h, q.0);
        }
    }
    sorted
}

/// Ranks the three most used commands of a history: the default chart size.
pub fn top_commands(history: &Vec<String>) -> (r: Vec<(String, usize)>)
    ensures
        table_view(r@) == spec_rank(history.deep_view(), 3),
        forall|i: int, j: int| 0 <= i < j < r@.len() ==> r@[i].1 >= r@[j].1,
{
    rank(history, 3)
}

/// Ranking is deterministic, tie order included: the result is one fixed
/// function of the history and the limit, so two runs over the same input
/// agree exactly.
pub proof fn lemma_rank_deterministic(
    h: Seq<Seq<char>>,
    limit: int,
    r1: Seq<(Seq<char>, int)>,
    r2: Seq<(Seq<char>, int)>,
)
    requires
        r1 == spec_rank(h, limit),
        r2 == spec_rank(h, limit),
    ensures
        r1 == r2,
{
}

/// An empty history ranks to an empty result, whatever the limit: there is
/// never data invented.
pub proof fn lemma_rank_empty(limit: int)
    requires
        limit >= 0,
    ensures
        spec_rank(Seq::empty(), limit) == Seq::<(Seq<char>, int)>::empty(),
{
    assert(counts_table(Seq::empty()) =~= Seq::<(Seq<char>, int)>::empty());
}

} // verus!
