//! Verified character-level string utilities: trimming, splitting, substring
//! search and digit formatting. Exec functions mirror their spec functions
//! one for one, so each contract is exact.

use vstd::prelude::*;

verus! {

/// Whether `c` carries the Unicode `White_Space` property, as `str::trim`
/// understands whitespace.
pub open spec fn spec_is_space(c: char) -> bool {
    c == ' ' || c == '\t' || c == '\n' || c == '\r' || c == '\u{b}' || c == '\u{c}' || c == '\u{85}'
        || c == '\u{a0}' || c == '\u{1680}' || c == '\u{2000}' || c == '\u{2001}' || c == '\u{2002}'
        || c == '\u{2003}' || c == '\u{2004}' || c == '\u{2005}' || c == '\u{2006}' || c
        == '\u{2007}' || c == '\u{2008}' || c == '\u{2009}' || c == '\u{200a}' || c == '\u{2028}'
        || c == '\u{2029}' || c == '\u{202f}' || c == '\u{205f}' || c == '\u{3000}'
}

/// Exec form of `spec_is_space`.
pub fn is_space(c: char) -> (r: bool)
    ensures
        r == spec_is_space(c),
{
    c == ' ' || c == '\t' || c == '\n' || c == '\r' || c == '\u{b}' || c == '\u{c}' || c == '\u{85}'
        || c == '\u{a0}' || c == '\u{1680}' || c == '\u{2000}' || c == '\u{2001}' || c == '\u{2002}'
        || c == '\u{2003}' || c == '\u{2004}' || c == '\u{2005}' || c == '\u{2006}' || c
        == '\u{2007}' || c == '\u{2008}' || c == '\u{2009}' || c == '\u{200a}' || c == '\u{2028}'
        || c == '\u{2029}' || c == '\u{202f}' || c == '\u{205f}' || c == '\u{3000}'
}

/// `s` without its leading run of `c`.
pub open spec fn spec_trim_lead(s: Seq<char>, c: char) -> Seq<char>
    decreases s.len(),
{
    if s.len() > 0 && s[0] == c {
        spec_trim_lead(s.skip(1), c)
    } else {
        s
    }
}

/// `s` without its trailing run of `c`.
pub open spec fn spec_trim_trail(s: Seq<char>, c: char) -> Seq<char>
    decreases s.len(),
{
    if s.len() > 0 && s[s.len() - 1] == c {
        spec_trim_trail(s.take(s.len() - 1), c)
    } else {
        s
    }
}

/// `s` without leading and trailing runs of `c`, as `str::trim_matches`.
pub open spec fn spec_trim_char(s: Seq<char>, c: char) -> Seq<char> {
    spec_trim_trail(spec_trim_lead(s, c), c)
}

/// A leading run of `i` copies of `c` followed by a non-`c` (or the end)
/// pins `spec_trim_lead` down to `s.skip(i)`.
proof fn lemma_trim_lead_run(s: Seq<char>, c: char, i: int)
    requires
        0 <= i <= s.len(),
        forall|k: int| 0 <= k < i ==> s[k] == c,
        i == s.len() || s[i] != c,
    ensures
        spec_trim_lead(s, c) == s.skip(i),
    decreases i,
{
    if i == 0 {
        assert(s.skip(0) =~= s);
    } else {
        lemma_trim_lead_run(s.skip(1), c, i - 1);
        assert(s.skip(1).skip(i - 1) =~= s.skip(i));
    }
}

/// The mirror of `lemma_trim_lead_run` for the trailing run.
proof fn lemma_trim_trail_run(s: Seq<char>, c: char, j: int)
    requires
        0 <= j <= s.len(),
        forall|k: int| j <= k < s.len() ==> s[k] == c,
        j == 0 || s[j - 1] != c,
    ensures
        spec_trim_trail(s, c) == s.take(j),
    decreases s.len() - j,
{
    if j == s.len() {
        assert(s.take(j) =~= s);
    } else {
        lemma_trim_trail_run(s.take(s.len() - 1), c, j);
        assert(s.take(s.len() - 1).take(j) =~= s.take(j));
    }
}

/// `str::trim_matches` for a single pattern character.
pub fn trim_char(s: &str, c: char) -> (r: String)
    ensures
        r@ == spec_trim_char(s@, c),
{
    let n = s.unicode_len();
    let mut i: usize = 0;
    while i < n && s.get_char(i) == c
        invariant
            n == s@.len(),
            i <= n,
            forall|k: int| 0 <= k < i ==> s@[k] == c,
        decreases n - i,
    {
        i = i + 1;
    }
    let mut j: usize = n;
    while j > i && s.get_char(j - 1) == c
        invariant
            n == s@.len(),
            i <= j <= n,
            forall|k: int| j <= k < n ==> s@[k] == c,
        decreases j,
    {
        j = j - 1;
    }
    let sub = s.substring_char(i, j);
    proof {
        lemma_trim_lead_run(s@, c, i as int);
        if j == i {
            lemma_trim_trail_run(s@.skip(i as int), c, 0);
        } else {
            lemma_trim_trail_run(s@.skip(i as int), c, j - i);
        }
        assert(s@.skip(i as int).take(j - i) =~= s@.subrange(i as int, j as int));
    }
    String::from_str(sub)
}

/// `str::trim`: both ends stripped of whitespace.
pub open spec fn spec_trim_ws(s: Seq<char>) -> Seq<char> {
    spec_trim_ws_trail(spec_trim_ws_lead(s))
}

/// `s` without its leading whitespace run.
pub open spec fn spec_trim_ws_lead(s: Seq<char>) -> Seq<char>
    decreases s.len(),
{
    if s.len() > 0 && spec_is_space(s[0]) {
        spec_trim_ws_lead(s.skip(1))
    } else {
        s
    }
}

/// `s` without its trailing whitespace run.
pub open spec fn spec_trim_ws_trail(s: Seq<char>) -> Seq<char>
    decreases s.len(),
{
    if s.len() > 0 && spec_is_space(s[s.len() - 1]) {
        spec_trim_ws_trail(s.take(s.len() - 1))
    } else {
        s
    }
}

proof fn lemma_trim_ws_lead_run(s: Seq<char>, i: int)
    requires
        0 <= i <= s.len(),
        forall|k: int| 0 <= k < i ==> spec_is_space(s[k]),
        i == s.len() || !spec_is_space(s[i]),
    ensures
        spec_trim_ws_lead(s) == s.skip(i),
    decreases i,
{
    if i == 0 {
        assert(s.skip(0) =~= s);
    } else {
        lemma_trim_ws_lead_run(s.skip(1), i - 1);
        assert(s.skip(1).skip(i - 1) =~= s.skip(i));
    }
}

proof fn lemma_trim_ws_trail_run(s: Seq<char>, j: int)
    requires
        0 <= j <= s.len(),
        forall|k: int| j <= k < s.len() ==> spec_is_space(s[k]),
        j == 0 || !spec_is_space(s[j - 1]),
    ensures
        spec_trim_ws_trail(s) == s.take(j),
    decreases s.len() - j,
{
    if j == s.len() {
        assert(s.take(j) =~= s);
    } else {
        lemma_trim_ws_trail_run(s.take(s.len() - 1), j);
        assert(s.take(s.len() - 1).take(j) =~= s.take(j));
    }
}

/// `str::trim`.
pub fn trim_ws(s: &str) -> (r: String)
    ensures
        r@ == spec_trim_ws(s@),
{
    let n = s.unicode_len();
    let mut i: usize = 0;
    while i < n && is_space(s.get_char(i))
        invariant
            n == s@.len(),
            i <= n,
            forall|k: int| 0 <= k < i ==> spec_is_space(s@[k]),
        decreases n - i,
    {
        i = i + 1;
    }
    let mut j: usize = n;
    while j > i && is_space(s.get_char(j - 1))
        invariant
            n == s@.len(),
            i <= j <= n,
            forall|k: int| j <= k < n ==> spec_is_space(s@[k]),
        decreases j,
    {
        j = j - 1;
    }
    let sub = s.substring_char(i, j);
    proof {
        lemma_trim_ws_lead_run(s@, i as int);
        if j == i {
            lemma_trim_ws_trail_run(s@.skip(i as int), 0);
        } else {
            lemma_trim_ws_trail_run(s@.skip(i as int), j - i);
        }
        assert(s@.skip(i as int).take(j - i) =~= s@.subrange(i as int, j as int));
    }
    String::from_str(sub)
}

/// The index of the first `c` in `s`, or `s.len()` when `s` has no `c`.
pub open spec fn spec_find_char(s: Seq<char>, c: char) -> int
    decreases s.len(),
{
    if s.len() == 0 {
        0
    } else if s[0] == c {
        0
    } else {
        1 + spec_find_char(s.skip(1), c)
    }
}

/// `spec_find_char` stays in bounds, everything before it differs from `c`,
/// and it points at `c` when it is not the length.
pub proof fn lemma_find_char(s: Seq<char>, c: char)
    ensures
        0 <= spec_find_char(s, c) <= s.len(),
        forall|k: int| 0 <= k < spec_find_char(s, c) ==> s[k] != c,
        spec_find_char(s, c) < s.len() ==> s[spec_find_char(s, c)] == c,
    decreases s.len(),
{
    if s.len() > 0 && s[0] != c {
        lemma_find_char(s.skip(1), c);
        let f = spec_find_char(s, c);
        assert forall|k: int| 0 <= k < f implies s[k] != c by {
            if k > 0 {
                assert(s.skip(1)[k - 1] != c);
            }
        }
    }
}

/// The pieces of `s` between occurrences of `c`, as `str::split` yields
/// them: an empty `s` gives one empty piece.
pub open spec fn spec_split_char(s: Seq<char>, c: char) -> Seq<Seq<char>>
    decreases s.len(),
{
    proof {
        lemma_find_char(s, c);
    }
    let i = spec_find_char(s, c);
    if i == s.len() {
        seq![s]
    } else {
        seq![s.take(i)].add(spec_split_char(s.skip(i + 1), c))
    }
}

/// `str::split` for a single pattern character.
pub fn split_char(s: &str, c: char) -> (r: Vec<String>)
    ensures
        r@.len() == spec_split_char(s@, c).len(),
        forall|k: int|
            0 <= k < r@.len() ==> (#[trigger] r@[k])@ == spec_split_char(s@, c)[k],
        r@.len() >= 1,
    decreases s@.len(),
{
    let n = s.unicode_len();
    let mut i: usize = 0;
    while i < n && !(s.get_char(i) == c)
        invariant
            n == s@.len(),
            i <= n,
            forall|k: int| 0 <= k < i ==> s@[k] != c,
        decreases n - i,
    {
        i = i + 1;
    }
    proof {
        lemma_find_char(s@, c);
        if i < n {
            assert(s@[i as int] == c);
        }
        assert(spec_find_char(s@, c) == i as int) by {
            let f = spec_find_char(s@, c);
            if f < i {
                assert(s@[f] == c);
            }
            if i < f {
                assert(s@[i as int] != c);
            }
        }
    }
    if i == n {
        let mut r: Vec<String> = Vec::new();
        r.push(String::from_str(s));
        return r;
    }
    let head = s.substring_char(0, i);
    let rest = s.substring_char(i + 1, n);
    let tail = split_char(rest, c);
    let mut r: Vec<String> = Vec::new();
    r.push(String::from_str(head));
    let mut k: usize = 0;
    let ghost spec_r = spec_split_char(s@, c);
    proof {
        assert(head@ =~= s@.take(i as int));
        assert(rest@ =~= s@.skip(i + 1));
    }
    while k < tail.len()
        invariant
            k <= tail@.len(),
            r@.len() == 1 + k,
            spec_r == spec_split_char(s@, c),
            spec_r.len() == 1 + tail@.len(),
            (r@[0])@ == spec_r[0],
            forall|t: int|
                0 <= t < tail@.len() ==> (#[trigger] tail@[t])@ == spec_r[t + 1],
            forall|t: int| 1 <= t < r@.len() ==> (#[trigger] r@[t])@ == spec_r[t],
        decreases tail@.len() - k,
    {
        let piece = String::from_str(tail[k].as_str());
        r.push(piece);
        k = k + 1;
    }
    r
}

/// Whether `t` occurs in `s` starting at `i`.
pub open spec fn matches_at(s: Seq<char>, t: Seq<char>, i: int) -> bool {
    0 <= i && i + t.len() <= s.len() && s.subrange(i, i + t.len()) == t
}

/// Whether `t` occurs somewhere in `s`.
pub open spec fn contains_seq(s: Seq<char>, t: Seq<char>) -> bool {
    exists|i: int| matches_at(s, t, i)
}

/// Whether `t` occurs in `s` at exactly position `i` (exec check).
fn matches_at_exec(s: &str, t: &str, i: usize) -> (r: bool)
    requires
        i + t@.len() <= s@.len(),
    ensures
        r == matches_at(s@, t@, i as int),
{
    let n = s.unicode_len();
    let tn = t.unicode_len();
    let mut k: usize = 0;
    while k < tn && s.get_char(i + k) == t.get_char(k)
        invariant
            n == s@.len(),
            i + tn <= n,
            tn == t@.len(),
            k <= tn,
            forall|q: int| 0 <= q < k ==> s@[i + q] == t@[q],
        decreases tn - k,
    {
        k = k + 1;
    }
    if k == tn {
        proof {
            assert(s@.subrange(i as int, i + t@.len()) =~= t@);
        }
        true
    } else {
        proof {
            assert(s@[i + k] != t@[k as int]);
            if matches_at(s@, t@, i as int) {
                assert(s@.subrange(i as int, i + t@.len())[k as int] == t@[k as int]);
            }
        }
        false
    }
}

/// The first position where `t` occurs in `s`, if any.
pub fn find_sub(s: &str, t: &str) -> (r: Option<usize>)
    ensures
        match r {
            Some(i) => matches_at(s@, t@, i as int) && forall|k: int|
                0 <= k < i ==> !matches_at(s@, t@, k),
            None => !contains_seq(s@, t@),
        },
{
    let n = s.unicode_len();
    let tn = t.unicode_len();
    if tn > n {
        proof {
            assert forall|i: int| !matches_at(s@, t@, i) by {}
        }
        return None;
    }
    if tn == 0 {
        proof {
            assert(s@.subrange(0, 0) =~= t@);
        }
        return Some(0);
    }
    let mut i: usize = 0;
    while i <= n - tn
        invariant
            n == s@.len(),
            tn == t@.len(),
            0 < tn <= n,
            i <= n - tn + 1,
            forall|k: int| 0 <= k < i ==> !matches_at(s@, t@, k),
        decreases n - i,
    {
        if matches_at_exec(s, t, i) {
            return Some(i);
        }
        i = i + 1;
    }
    proof {
        assert forall|k: int| !matches_at(s@, t@, k) by {
            if matches_at(s@, t@, k) {
                assert(0 <= k <= s@.len() - t@.len());
            }
        }
    }
    None
}

/// Whether `t` occurs somewhere in `s` (exec form of `contains_seq`).
pub fn contains_sub(s: &str, t: &str) -> (r: bool)
    ensures
        r == contains_seq(s@, t@),
{
    match find_sub(s, t) {
        Some(_) => true,
        None => false,
    }
}

/// The index of the first occurrence of `t` in `s`, or `-1` when `t` does
/// not occur.
pub open spec fn spec_find_sub(s: Seq<char>, t: Seq<char>) -> int
    decreases s.len(),
{
    if matches_at(s, t, 0) {
        0
    } else if s.len() == 0 {
        -1
    } else {
        let r = spec_find_sub(s.skip(1), t);
        if r < 0 {
            -1
        } else {
            r + 1
        }
    }
}

/// `spec_find_sub` is the first match: `-1` means no occurrence, and a
/// non-negative result is an occurrence with none before it.
pub proof fn lemma_find_sub_props(s: Seq<char>, t: Seq<char>)
    ensures
        spec_find_sub(s, t) == -1 ==> !contains_seq(s, t),
        spec_find_sub(s, t) >= 0 ==> matches_at(s, t, spec_find_sub(s, t)) && forall|k: int|
            0 <= k < spec_find_sub(s, t) ==> !matches_at(s, t, k),
    decreases s.len(),
{
    if !matches_at(s, t, 0) && s.len() > 0 {
        lemma_find_sub_props(s.skip(1), t);
        assert forall|k: int| 1 <= k implies matches_at(s, t, k) == matches_at(
            s.skip(1),
            t,
            k - 1,
        ) by {
            if 0 <= k - 1 && k - 1 + t.len() <= s.skip(1).len() {
                assert(s.skip(1).subrange(k - 1, k - 1 + t.len()) =~= s.subrange(k, k + t.len()));
            }
        }
        let f = spec_find_sub(s, t);
        if f == -1 {
            assert forall|k: int| !matches_at(s, t, k) by {
                if k >= 1 {
                    assert(!matches_at(s.skip(1), t, k - 1));
                }
            }
        }
    }
}

/// An occurrence with none before it is where `spec_find_sub` points.
pub proof fn lemma_find_sub_at(s: Seq<char>, t: Seq<char>, i: int)
    requires
        matches_at(s, t, i),
        forall|k: int| 0 <= k < i ==> !matches_at(s, t, k),
    ensures
        spec_find_sub(s, t) == i,
{
    lemma_find_sub_props(s, t);
    let f = spec_find_sub(s, t);
    if f == -1 {
        assert(contains_seq(s, t));
    }
}

/// The decimal digit character for `d`.
pub open spec fn spec_digit(d: int) -> char {
    if d == 0 {
        '0'
    } else if d == 1 {
        '1'
    } else if d == 2 {
        '2'
    } else if d == 3 {
        '3'
    } else if d == 4 {
        '4'
    } else if d == 5 {
        '5'
    } else if d == 6 {
        '6'
    } else if d == 7 {
        '7'
    } else if d == 8 {
        '8'
    } else {
        '9'
    }
}

/// The decimal digits of `n`, most significant first.
pub open spec fn spec_digits(n: int) -> Seq<char>
    decreases n,
{
    if n < 10 {
        seq![spec_digit(n)]
    } else {
        spec_digits(n / 10).push(spec_digit(n % 10))
    }
}

/// One decimal digit as a string slice.
fn digit_str(d: u64) -> (r: &'static str)
    requires
        d < 10,
    ensures
        r@ =~= seq![spec_digit(d as int)],
{
    proof {
        reveal_strlit("0");
        reveal_strlit("1");
        reveal_strlit("2");
        reveal_strlit("3");
        reveal_strlit("4");
        reveal_strlit("5");
        reveal_strlit("6");
        reveal_strlit("7");
        reveal_strlit("8");
        reveal_strlit("9");
    }
    if d == 0 {
        "0"
    } else if d == 1 {
        "1"
    } else if d == 2 {
        "2"
    } else if d == 3 {
        "3"
    } else if d == 4 {
        "4"
    } else if d == 5 {
        "5"
    } else if d == 6 {
        "6"
    } else if d == 7 {
        "7"
    } else if d == 8 {
        "8"
    } else {
        "9"
    }
}

/// `n` written in decimal.
pub fn u64_to_string(n: u64) -> (r: String)
    ensures
        r@ == spec_digits(n as int),
    decreases n,
{
    if n < 10 {
        String::from_str(digit_str(n))
    } else {
        let mut s = u64_to_string(n / 10);
        s.append(digit_str(n % 10));
        proof {
            assert(s@ =~= spec_digits((n / 10) as int).push(spec_digit((n % 10) as int)));
        }
        s
    }
}

} // verus!
