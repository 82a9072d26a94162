//! Character-level helpers shared by the parsing modules: blank and digit
//! classification, field splitting on blanks, prefix and substring matching,
//! and decimal numerals.

use vstd::prelude::*;
use vstd::string::StrSliceExecFns;

verus! {

/// A character this library treats as blank when splitting a line into
/// fields: the space, tab and carriage return that history files, `/proc`
/// status listings and the configuration file use between fields.
pub open spec fn is_blank(c: char) -> bool {
    c == ' ' || c == '\t' || c == '\r'
}

/// An ASCII decimal digit.
pub open spec fn is_digit(c: char) -> bool {
    48 <= (c as u32) && (c as u32) <= 57
}

/// The value of an ASCII decimal digit.
pub open spec fn digit_val(c: char) -> int {
    (c as u32) - 48
}

/// Index of the first non-blank character of `s` at or after `i`, or
/// `s.len()` if all the rest is blank.
pub open spec fn skip_blanks(s: Seq<char>, i: int) -> int
    decreases s.len() - i,
{
    if i < 0 || i >= s.len() {
        s.len() as int
    } else if is_blank(s[i]) {
        skip_blanks(s, i + 1)
    } else {
        i
    }
}

/// Index of the first blank character of `s` at or after `i`, or `s.len()`
/// if none follows.
pub open spec fn skip_field(s: Seq<char>, i: int) -> int
    decreases s.len() - i,
{
    if i < 0 || i >= s.len() {
        s.len() as int
    } else if !is_blank(s[i]) {
        skip_field(s, i + 1)
    } else {
        i
    }
}

/// `skip_blanks` lands exactly after a run of blanks.
pub proof fn lemma_skip_blanks_run(s: Seq<char>, i: int, j: int)
    requires
        0 <= i <= j <= s.len(),
        forall|k: int| i <= k < j ==> is_blank(s[k]),
        j == s.len() || !is_blank(s[j]),
    ensures
        skip_blanks(s, i) == j,
    decreases j - i,
{
    if i < j {
        lemma_skip_blanks_run(s, i + 1, j);
    }
}

/// `skip_field` lands exactly after a run of non-blanks.
pub proof fn lemma_skip_field_run(s: Seq<char>, i: int, j: int)
    requires
        0 <= i <= j <= s.len(),
        forall|k: int| i <= k < j ==> !is_blank(s[k]),
        j == s.len() || is_blank(s[j]),
    ensures
        skip_field(s, i) == j,
    decreases j - i,
{
    if i < j {
        lemma_skip_field_run(s, i + 1, j);
    }
}

fn blank(c: char) -> (r: bool)
    ensures
        r == is_blank(c),
{
    c == ' ' || c == '\t' || c == '\r'
}

/// Index of the first non-blank character of `s` at or after `from`.
pub fn find_non_blank(s: &str, from: usize) -> (r: usize)
    requires
        from <= s@.len(),
    ensures
        r == skip_blanks(s@, from as int),
        from <= r <= s@.len(),
{
    let n = s.unicode_len();
    let mut i = from;
    while i < n && blank(s.get_char(i))
        invariant
            from <= i <= n,
            n == s@.len(),
            forall|k: int| from <= k < i ==> is_blank(s@[k]),
        decreases n - i,
    {
        i = i + 1;
    }
    proof {
        lemma_skip_blanks_run(s@, from as int, i as int);
    }
    i
}

/// Index of the first blank character of `s` at or after `from`.
pub fn find_blank(s: &str, from: usize) -> (r: usize)
    requires
        from <= s@.len(),
    ensures
        r == skip_field(s@, from as int),
        from <= r <= s@.len(),
{
    let n = s.unicode_len();
    let mut i = from;
    while i < n && !blank(s.get_char(i))
        invariant
            from <= i <= n,
            n == s@.len(),
            forall|k: int| from <= k < i ==> !is_blank(s@[k]),
        decreases n - i,
    {
        i = i + 1;
    }
    proof {
        lemma_skip_field_run(s@, from as int, i as int);
    }
    i
}

/// `p` occurs in `s` starting at index `at`.
pub open spec fn matches_at(s: Seq<char>, p: Seq<char>, at: int) -> bool {
    0 <= at && at + p.len() <= s.len() && s.subrange(at, at + p.len()) == p
}

/// `s` begins with `p`.
pub open spec fn starts_with(s: Seq<char>, p: Seq<char>) -> bool {
    matches_at(s, p, 0)
}

/// `p` occurs somewhere in `s`.
pub open spec fn contains_seq(s: Seq<char>, p: Seq<char>) -> bool {
    exists|i: int| matches_at(s, p, i)
}

/// Whether `p` occurs in `s` at index `at`.
pub fn match_at(s: &str, p: &str, at: usize) -> (r: bool)
    requires
        at <= s@.len(),
    ensures
        r == matches_at(s@, p@, at as int),
{
    let n = s.unicode_len();
    let m = p.unicode_len();
    if m > n - at {
        return false;
    }
    let mut i: usize = 0;
    while i < m
        invariant
            0 <= i <= m,
            at + m <= n,
            n == s@.len(),
            m == p@.len(),
            forall|k: int| 0 <= k < i ==> s@[at + k] == p@[k],
        decreases m - i,
    {
        if s.get_char(at + i) != p.get_char(i) {
            assert(s@.subrange(at as int, at + m) != p@) by {
                assert(s@.subrange(at as int, at + m)[i as int] != p@[i as int]);
            }
            return false;
        }
        i = i + 1;
    }
    proof {
        assert(s@.subrange(at as int, at + m) =~= p@);
    }
    true
}

/// Whether `s` begins with `p`.
pub fn str_starts_with(s: &str, p: &str) -> (r: bool)
    ensures
        r == starts_with(s@, p@),
{
    match_at(s, p, 0)
}

/// Whether `p` occurs somewhere in `s`.
pub fn str_contains(s: &str, p: &str) -> (r: bool)
    ensures
        r == contains_seq(s@, p@),
{
    let n = s.unicode_len();
    let m = p.unicode_len();
    if m == 0 {
        proof {
            assert(s@.subrange(0, 0) =~= p@);
            assert(matches_at(s@, p@, 0));
        }
        return true;
    }
    if m > n {
        return false;
    }
    let last = n - m;
    let mut i: usize = 0;
    while i <= last
        invariant
            0 <= i <= last + 1,
            last == n - m,
            1 <= m <= n,
            n == s@.len(),
            m == p@.len(),
            forall|k: int| 0 <= k < i ==> !matches_at(s@, p@, k),
        decreases last + 1 - i,
    {
        if match_at(s, p, i) {
            return true;
        }
        i = i + 1;
    }
    assert(forall|k: int| matches_at(s@, p@, k) ==> 0 <= k <= last);
    false
}

/// The second blank-separated field of `s`, as the pair of its bounds:
/// `s` is skipped over leading blanks, a first field, the blanks after it,
/// and the field that then starts (if any) is the result.
pub open spec fn second_field_start(s: Seq<char>) -> int {
    skip_blanks(s, skip_field(s, skip_blanks(s, 0)))
}

/// The second blank-separated field of `s`, or `None` if `s` has fewer than
/// two fields.
pub open spec fn second_field(s: Seq<char>) -> Option<Seq<char>> {
    let c = second_field_start(s);
    if c < s.len() {
        Some(s.subrange(c, skip_field(s, c)))
    } else {
        None
    }
}

/// Extracts the second blank-separated field of `s`.
pub fn get_second_field(s: &str) -> (r: Option<String>)
    ensures
        (r is Some) == (second_field(s@) is Some),
        r is Some ==> r->0@ == second_field(s@)->0,
{
    let n = s.unicode_len();
    let a = find_non_blank(s, 0);
    let b = find_blank(s, a);
    let c = find_non_blank(s, b);
    if c < n {
        let d = find_blank(s, c);
        Some(String::from_str(s.substring_char(c, d)))
    } else {
        None
    }
}

/// All characters of `s` are decimal digits.
pub open spec fn all_digits(s: Seq<char>) -> bool {
    forall|i: int| 0 <= i < s.len() ==> is_digit(s[i])
}

/// A numeral: one or more decimal digits and nothing else.
pub open spec fn is_numeral(s: Seq<char>) -> bool {
    s.len() > 0 && all_digits(s)
}

/// The value of a digit string read as a decimal number.
pub open spec fn dec_value(s: Seq<char>) -> int
    decreases s.len(),
{
    if s.len() == 0 {
        0
    } else {
        dec_value(s.drop_last()) * 10 + digit_val(s.last())
    }
}

pub proof fn lemma_dec_value_bounds(s: Seq<char>)
    requires
        all_digits(s),
    ensures
        0 <= dec_value(s),
    decreases s.len(),
{
    if s.len() > 0 {
        assert(all_digits(s.drop_last())) by {
            assert(forall|i: int| 0 <= i < s.len() - 1 ==> s.drop_last()[i] == s[i]);
        }
        lemma_dec_value_bounds(s.drop_last());
    }
}

/// Extending a digit string on the right can only grow its value.
pub proof fn lemma_dec_value_grows(s: Seq<char>, i: int)
    requires
        all_digits(s),
        0 <= i <= s.len(),
    ensures
        dec_value(s.take(i)) <= dec_value(s),
    decreases s.len() - i,
{
    if i < s.len() {
        assert(all_digits(s.take(i + 1))) by {
            assert(forall|k: int| 0 <= k < i + 1 ==> s.take(i + 1)[k] == s[k]);
        }
        assert(s.take(i + 1).drop_last() =~= s.take(i));
        lemma_dec_value_bounds(s.take(i));
        lemma_dec_value_grows(s, i + 1);
    } else {
        assert(s.take(i) =~= s);
    }
}

/// Parses `s` as a decimal `u32`: succeeds exactly on numerals whose value
/// fits, and then returns that value.
pub fn parse_u32(s: &str) -> (r: Option<u32>)
    ensures
        (r is Some) == (is_numeral(s@) && dec_value(s@) <= u32::MAX),
        r is Some ==> r->0 as int == dec_value(s@),
{
    let n = s.unicode_len();
    if n == 0 {
        return None;
    }
    let mut value: u32 = 0;
    let mut i: usize = 0;
    while i < n
        invariant
            0 <= i <= n,
            n == s@.len(),
            forall|k: int| 0 <= k < i ==> is_digit(s@[k]),
            value as int == dec_value(s@.take(i as int)),
        decreases n - i,
    {
        let c = s.get_char(i);
        let u = c as u32;
        if u < 48 || u > 57 {
            return None;
        }
        let d = u - 48;
        proof {
            assert(s@.take(i + 1).drop_last() =~= s@.take(i as int));
            assert(s@.take(i + 1).last() == s@[i as int]);
        }
        if value > (u32::MAX - d) / 10 {
            proof {
                assert(value * 10 + d > u32::MAX) by (nonlinear_arith)
                    requires
                        value > (u32::MAX - d) / 10,
                        d <= 9,
                        u32::MAX == (u32::MAX / 10) * 10 + 5,
                {
                }
                if all_digits(s@) {
                    lemma_dec_value_grows(s@, i + 1);
                    assert(all_digits(s@.take(i + 1))) by {
                        assert(forall|k: int| 0 <= k < i + 1 ==> s@.take(i + 1)[k] == s@[k]);
                    }
                    assert(dec_value(s@) >= dec_value(s@.take(i + 1)));
                }
            }
            return None;
        }
        proof {
            assert(value <= (u32::MAX - d) / 10 ==> value * 10 + d <= u32::MAX) by (nonlinear_arith);
        }
        value = value * 10 + d;
        i = i + 1;
    }
    proof {
        assert(s@.take(n as int) =~= s@);
    }
    Some(value)
}

/// A digit never counts as blank, so a numeral is one whole field.
pub proof fn lemma_digit_not_blank(c: char)
    requires
        is_digit(c),
    ensures
        !is_blank(c),
{
    assert(' ' as u32 == 32);
    assert('\t' as u32 == 9);
    assert('\r' as u32 == 13);
}

/// The character of one decimal digit.
pub open spec fn digit_char(d: int) -> char {
    if d == 0 {
        '0'
    } else if d == 1 {
        '1'
    } else if d == 2 {
        '2'
    } else if d == 3 {
        '3'
    } else if d == 4 {
        '4'
    } else if d == 5 {
        '5'
    } else if d == 6 {
        '6'
    } else if d == 7 {
        '7'
    } else if d == 8 {
        '8'
    } else {
        '9'
    }
}

/// The decimal numeral of a non-negative number, most significant digit
/// first.
pub open spec fn dec_digits(n: int) -> Seq<char>
    decreases n,
{
    if n < 10 {
        seq![digit_char(n)]
    } else {
        dec_digits(n / 10).push(digit_char(n % 10))
    }
}

pub proof fn lemma_dec_digits_are_digits(n: int)
    requires
        0 <= n,
    ensures
        is_numeral(dec_digits(n)),
    decreases n,
{
    if n >= 10 {
        lemma_dec_digits_are_digits(n / 10);
    }
}

/// Reading the numeral of `n` back as a number gives `n`.
pub proof fn lemma_dec_digits_value(n: int)
    requires
        0 <= n,
    ensures
        dec_value(dec_digits(n)) == n,
    decreases n,
{
    if n < 10 {
        let s = seq![digit_char(n)];
        assert(s.drop_last() =~= Seq::<char>::empty());
        assert(s.last() == digit_char(n));
        assert(dec_value(s) == dec_value(s.drop_last()) * 10 + digit_val(s.last()));
        assert(digit_val(digit_char(n)) == n);
    } else {
        lemma_dec_digits_value(n / 10);
        let s = dec_digits(n / 10).push(digit_char(n % 10));
        assert(s.drop_last() =~= dec_digits(n / 10));
        assert(s.last() == digit_char(n % 10));
        assert(dec_value(s) == dec_value(s.drop_last()) * 10 + digit_val(s.last()));
        assert(digit_val(digit_char(n % 10)) == n % 10);
    }
}

fn digit_str(d: u32) -> (r: &'static str)
    requires
        d < 10,
    ensures
        r@ =~= seq![digit_char(d as int)],
{
    proof {
        reveal_strlit("0");
        reveal_strlit("1");
        reveal_strlit("2");
        reveal_strlit("3");
        reveal_strlit("4");
        reveal_strlit("5");
        reveal_strlit("6");
        reveal_strlit("7");
        reveal_strlit("8");
        reveal_strlit("9");
    }
    match d {
        0 => "0",
        1 => "1",
        2 => "2",
        3 => "3",
        4 => "4",
        5 => "5",
        6 => "6",
        7 => "7",
        8 => "8",
        _ => "9",
    }
}

/// Writes `n` as its decimal numeral.
pub fn u32_to_string(n: u32) -> (r: String)
    ensures
        r@ == dec_digits(n as int),
    decreases n,
{
    if n < 10 {
        String::from_str(digit_str(n))
    } else {
        let prefix = u32_to_string(n / 10);
        prefix.concat(digit_str(n % 10))
    }
}

} // verus!
