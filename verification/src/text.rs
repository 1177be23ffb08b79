//! Character-sequence utilities shared by the block scanner, the line
//! classifier and the inline tokenizer: trimming, prefix/suffix tests and
//! delimiter search, each with a specification over `Seq<char>`.

use vstd::prelude::*;
use vstd::string::StrSliceExecFns;

verus! {

/// The whitespace characters this library trims and splits on.
pub open spec fn is_space(c: char) -> bool {
    c == ' ' || c == '\t' || c == '\r' || c == '\n'
}

/// `s` without its leading whitespace.
pub open spec fn trim_start_s(s: Seq<char>) -> Seq<char>
    decreases s.len(),
{
    if s.len() > 0 && is_space(s[0]) {
        trim_start_s(s.drop_first())
    } else {
        s
    }
}

/// `s` without its trailing whitespace.
pub open spec fn trim_end_s(s: Seq<char>) -> Seq<char>
    decreases s.len(),
{
    if s.len() > 0 && is_space(s.last()) {
        trim_end_s(s.drop_last())
    } else {
        s
    }
}

/// `s` without leading and trailing whitespace.
pub open spec fn trim_s(s: Seq<char>) -> Seq<char> {
    trim_end_s(trim_start_s(s))
}

/// `p` is a prefix of `s`.
pub open spec fn has_prefix(s: Seq<char>, p: Seq<char>) -> bool {
    p.len() <= s.len() && s.subrange(0, p.len() as int) == p
}

/// `p` is a suffix of `s`.
pub open spec fn has_suffix(s: Seq<char>, p: Seq<char>) -> bool {
    p.len() <= s.len() && s.subrange(s.len() - p.len(), s.len() as int) == p
}

/// Index of the first occurrence of `c` in `s` at or after `pos`, or
/// `s.len()` when there is none (or when `pos` is out of range).
pub open spec fn find_from(s: Seq<char>, pos: int, c: char) -> int
    decreases s.len() - pos,
{
    if pos < 0 {
        s.len() as int
    } else if pos >= s.len() {
        s.len() as int
    } else if s[pos] == c {
        pos
    } else {
        find_from(s, pos + 1, c)
    }
}

/// Length of the run of `c` at the start of `s`.
pub open spec fn leading_run_s(s: Seq<char>, c: char) -> int
    decreases s.len(),
{
    if s.len() > 0 && s[0] == c {
        1 + leading_run_s(s.drop_first(), c)
    } else {
        0
    }
}

/// Length of the run of blanks (spaces and tabs) at the start of `s`.
pub open spec fn leading_blank_run_s(s: Seq<char>) -> int
    decreases s.len(),
{
    if s.len() > 0 && (s[0] == ' ' || s[0] == '\t') {
        1 + leading_blank_run_s(s.drop_first())
    } else {
        0
    }
}

/// If the first `k` characters of `s` are whitespace and the `k`-th (when
/// there is one) is not, then trimming the start drops exactly `k` characters.
pub proof fn lemma_trim_start_at(s: Seq<char>, k: int)
    requires
        0 <= k <= s.len(),
        forall|i: int| 0 <= i < k ==> is_space(s[i]),
        k < s.len() ==> !is_space(s[k]),
    ensures
        trim_start_s(s) == s.subrange(k, s.len() as int),
    decreases k,
{
    if k == 0 {
        assert(trim_start_s(s) == s);
        assert(s.subrange(0, s.len() as int) =~= s);
    } else {
        assert(is_space(s[0]));
        let d = s.drop_first();
        assert(forall|i: int| 0 <= i < k - 1 ==> is_space(d[i]));
        lemma_trim_start_at(d, k - 1);
        assert(d.subrange(k - 1, d.len() as int) =~= s.subrange(k, s.len() as int));
    }
}

/// If the last `s.len() - k` characters of `s` are whitespace and the one
/// before them (when there is one) is not, then trimming the end keeps
/// exactly the first `k` characters.
pub proof fn lemma_trim_end_at(s: Seq<char>, k: int)
    requires
        0 <= k <= s.len(),
        forall|i: int| k <= i < s.len() ==> is_space(s[i]),
        k > 0 ==> !is_space(s[k - 1]),
    ensures
        trim_end_s(s) == s.subrange(0, k),
    decreases s.len() - k,
{
    if k == s.len() {
        if s.len() > 0 && is_space(s.last()) {
            assert(false);
        }
        assert(trim_end_s(s) == s);
        assert(s.subrange(0, s.len() as int) =~= s);
    } else {
        assert(is_space(s.last()));
        let d = s.drop_last();
        assert(forall|i: int| k <= i < d.len() ==> is_space(d[i]));
        lemma_trim_end_at(d, k);
        assert(d.subrange(0, k) =~= s.subrange(0, k));
    }
}

/// The character found by `find_from` really is the first occurrence.
pub proof fn lemma_find_from(s: Seq<char>, pos: int, c: char)
    requires
        0 <= pos <= s.len(),
    ensures
        pos <= find_from(s, pos, c),
        find_from(s, pos, c) <= s.len(),
        find_from(s, pos, c) < s.len() ==> s[find_from(s, pos, c)] == c,
        forall|i: int| pos <= i < find_from(s, pos, c) ==> s[i] != c,
    decreases s.len() - pos,
{
    if pos >= s.len() {
    } else if s[pos] == c {
    } else {
        lemma_find_from(s, pos + 1, c);
    }
}

/// The leading run counted by `leading_run_s` is a run of `c` bounded by a
/// character that differs (or the end of `s`).
pub proof fn lemma_leading_run(s: Seq<char>, c: char)
    ensures
        0 <= leading_run_s(s, c) <= s.len(),
        forall|i: int| 0 <= i < leading_run_s(s, c) ==> s[i] == c,
        leading_run_s(s, c) < s.len() ==> s[leading_run_s(s, c)] != c,
    decreases s.len(),
{
    if s.len() > 0 && s[0] == c {
        lemma_leading_run(s.drop_first(), c);
        assert forall|i: int| 0 <= i < leading_run_s(s, c) implies s[i] == c by {
            if i > 0 {
                assert(s.drop_first()[i - 1] == c);
            }
        }
    }
}

/// Same bounds for the run of blanks.
pub proof fn lemma_leading_blank_run(s: Seq<char>)
    ensures
        0 <= leading_blank_run_s(s) <= s.len(),
        forall|i: int|
            0 <= i < leading_blank_run_s(s) ==> (s[i] == ' ' || s[i] == '\t'),
        leading_blank_run_s(s) < s.len() ==> !(s[leading_blank_run_s(s)] == ' '
            || s[leading_blank_run_s(s)] == '\t'),
    decreases s.len(),
{
    if s.len() > 0 && (s[0] == ' ' || s[0] == '\t') {
        lemma_leading_blank_run(s.drop_first());
        assert forall|i: int|
            0 <= i < leading_blank_run_s(s) implies (s[i] == ' ' || s[i] == '\t') by {
            if i > 0 {
                assert(s.drop_first()[i - 1] == ' ' || s.drop_first()[i - 1] == '\t');
            }
        }
    }
}

/// Trimming the start never grows a sequence, and strictly shrinks one that
/// begins with whitespace.
pub proof fn lemma_trim_start_shrinks(s: Seq<char>)
    ensures
        trim_start_s(s).len() <= s.len(),
        s.len() > 0 && is_space(s[0]) ==> trim_start_s(s).len() < s.len(),
    decreases s.len(),
{
    if s.len() > 0 && is_space(s[0]) {
        lemma_trim_start_shrinks(s.drop_first());
    }
}

/// Trimming the end never grows a sequence, and strictly shrinks one that
/// ends with whitespace.
pub proof fn lemma_trim_end_shrinks(s: Seq<char>)
    ensures
        trim_end_s(s).len() <= s.len(),
        s.len() > 0 && is_space(s.last()) ==> trim_end_s(s).len() < s.len(),
    decreases s.len(),
{
    if s.len() > 0 && is_space(s.last()) {
        lemma_trim_end_shrinks(s.drop_last());
    }
}

/// Trimming the end keeps a non-whitespace head in place.
pub proof fn lemma_trim_end_keeps_head(s: Seq<char>)
    requires
        s.len() > 0,
        !is_space(s[0]),
    ensures
        trim_end_s(s).len() >= 1,
        trim_end_s(s)[0] == s[0],
    decreases s.len(),
{
    if is_space(s.last()) {
        lemma_trim_end_keeps_head(s.drop_last());
    }
}

/// A sequence equal to its own trim neither begins nor ends with
/// whitespace.
pub proof fn lemma_trimmed_ends(s: Seq<char>)
    requires
        trim_s(s) == s,
        s.len() > 0,
    ensures
        !is_space(s[0]),
        !is_space(s.last()),
{
    lemma_trim_start_shrinks(s);
    lemma_trim_end_shrinks(trim_start_s(s));
    if is_space(s[0]) {
        assert(trim_s(s).len() < s.len());
    }
    assert(trim_start_s(s) == s);
    if is_space(s.last()) {
        assert(trim_s(s).len() < s.len());
    }
}

/// A run of `k` copies of `c` in front of `b` adds `k` to the leading run,
/// when `b` does not begin with another `c`.
pub proof fn lemma_run_prefix(c: char, a: Seq<char>, b: Seq<char>)
    requires
        forall|i: int| 0 <= i < a.len() ==> a[i] == c,
    ensures
        leading_run_s(a + b, c) == a.len() + leading_run_s(b, c),
    decreases a.len(),
{
    if a.len() == 0 {
        assert(a + b =~= b);
    } else {
        assert((a + b)[0] == c);
        assert((a + b).drop_first() =~= a.drop_first() + b);
        lemma_run_prefix(c, a.drop_first(), b);
    }
}

/// Whether `c` is one of the characters this library treats as whitespace.
pub fn is_space_char(c: char) -> (r: bool)
    ensures
        r == is_space(c),
{
    c == ' ' || c == '\t' || c == '\r' || c == '\n'
}

/// First occurrence of `c` in `s` at or after `from`, as a character index;
/// `n` must be the character length of `s`.
pub fn find_char_from(s: &str, n: usize, from: usize, c: char) -> (r: usize)
    requires
        n == s@.len(),
        from <= n,
    ensures
        r == find_from(s@, from as int, c),
        from <= r <= n,
{
    proof {
        lemma_find_from(s@, from as int, c);
    }
    let mut i: usize = from;
    while i < n
        invariant
            from <= i <= n,
            n == s@.len(),
            forall|j: int| from <= j < i ==> s@[j] != c,
        decreases n - i,
    {
        if s.get_char(i) == c {
            proof {
                lemma_find_from(s@, from as int, c);
            }
            return i;
        }
        i = i + 1;
    }
    proof {
        lemma_find_from(s@, from as int, c);
    }
    n
}

/// `s` without leading whitespace.
pub fn trim_start_str<'a>(s: &'a str) -> (r: &'a str)
    ensures
        r@ == trim_start_s(s@),
{
    let n = s.unicode_len();
    let mut a: usize = 0;
    while a < n && is_space_char(s.get_char(a))
        invariant
            0 <= a <= n,
            n == s@.len(),
            forall|j: int| 0 <= j < a ==> is_space(s@[j]),
        decreases n - a,
    {
        a = a + 1;
    }
    proof {
        lemma_trim_start_at(s@, a as int);
    }
    s.substring_char(a, n)
}

/// `s` without trailing whitespace.
pub fn trim_end_str<'a>(s: &'a str) -> (r: &'a str)
    ensures
        r@ == trim_end_s(s@),
{
    let n = s.unicode_len();
    let mut b: usize = n;
    while b > 0 && is_space_char(s.get_char(b - 1))
        invariant
            0 <= b <= n,
            n == s@.len(),
            forall|j: int| b <= j < n ==> is_space(s@[j]),
        decreases b,
    {
        b = b - 1;
    }
    proof {
        lemma_trim_end_at(s@, b as int);
    }
    s.substring_char(0, b)
}

/// `s` without leading and trailing whitespace.
pub fn trim_str<'a>(s: &'a str) -> (r: &'a str)
    ensures
        r@ == trim_s(s@),
{
    trim_end_str(trim_start_str(s))
}

/// Whether the character sequences of `s` and `p` are equal.
pub fn str_eq_str(s: &str, p: &str) -> (r: bool)
    ensures
        r == (s@ == p@),
{
    let n = s.unicode_len();
    let m = p.unicode_len();
    if n != m {
        return false;
    }
    let mut i: usize = 0;
    while i < n
        invariant
            0 <= i <= n,
            n == s@.len(),
            n == p@.len(),
            forall|j: int| 0 <= j < i ==> s@[j] == p@[j],
        decreases n - i,
    {
        if s.get_char(i) != p.get_char(i) {
            return false;
        }
        i = i + 1;
    }
    proof {
        assert(s@ =~= p@);
    }
    true
}

/// Whether `p` is a prefix of `s`.
pub fn str_has_prefix(s: &str, p: &str) -> (r: bool)
    ensures
        r == has_prefix(s@, p@),
{
    let n = s.unicode_len();
    let m = p.unicode_len();
    if m > n {
        return false;
    }
    let mut i: usize = 0;
    while i < m
        invariant
            0 <= i <= m <= n,
            n == s@.len(),
            m == p@.len(),
            forall|j: int| 0 <= j < i ==> s@[j] == p@[j],
        decreases m - i,
    {
        if s.get_char(i) != p.get_char(i) {
            proof {
                assert(s@.subrange(0, p@.len() as int)[i as int] != p@[i as int]);
            }
            return false;
        }
        i = i + 1;
    }
    proof {
        assert(s@.subrange(0, p@.len() as int) =~= p@);
    }
    true
}

/// Whether `p` is a suffix of `s`.
pub fn str_has_suffix(s: &str, p: &str) -> (r: bool)
    ensures
        r == has_suffix(s@, p@),
{
    let n = s.unicode_len();
    let m = p.unicode_len();
    if m > n {
        return false;
    }
    let mut i: usize = 0;
    while i < m
        invariant
            0 <= i <= m <= n,
            n == s@.len(),
            m == p@.len(),
            forall|j: int| 0 <= j < i ==> s@[n - m + j] == p@[j],
        decreases m - i,
    {
        if s.get_char(n - m + i) != p.get_char(i) {
            proof {
                assert(s@.subrange(s@.len() - p@.len(), s@.len() as int)[i as int]
                    != p@[i as int]);
            }
            return false;
        }
        i = i + 1;
    }
    proof {
        assert(s@.subrange(s@.len() - p@.len(), s@.len() as int) =~= p@);
    }
    true
}

/// Length of the run of `c` at the start of `s`.
pub fn leading_run(s: &str, c: char) -> (r: usize)
    ensures
        r == leading_run_s(s@, c),
{
    proof {
        lemma_leading_run(s@, c);
    }
    let n = s.unicode_len();
    let mut i: usize = 0;
    while i < n && s.get_char(i) == c
        invariant
            0 <= i <= n,
            n == s@.len(),
            forall|j: int| 0 <= j < i ==> s@[j] == c,
        decreases n - i,
    {
        i = i + 1;
    }
    proof {
        lemma_run_from_bound(s@, c, i as int);
    }
    i
}

/// Length of the run of blanks (spaces and tabs) at the start of `s`.
pub fn leading_blank_run(s: &str) -> (r: usize)
    ensures
        r == leading_blank_run_s(s@),
{
    let n = s.unicode_len();
    let mut i: usize = 0;
    while i < n && (s.get_char(i) == ' ' || s.get_char(i) == '\t')
        invariant
            0 <= i <= n,
            n == s@.len(),
            forall|j: int| 0 <= j < i ==> (s@[j] == ' ' || s@[j] == '\t'),
        decreases n - i,
    {
        i = i + 1;
    }
    proof {
        lemma_blank_run_from_bound(s@, i as int);
    }
    i
}

/// A run of `k` copies of `c` followed by a differing character (or the end)
/// pins `leading_run_s` to `k`.
pub proof fn lemma_run_from_bound(s: Seq<char>, c: char, k: int)
    requires
        0 <= k <= s.len(),
        forall|i: int| 0 <= i < k ==> s[i] == c,
        k < s.len() ==> s[k] != c,
    ensures
        leading_run_s(s, c) == k,
    decreases k,
{
    if k == 0 {
    } else {
        let d = s.drop_first();
        assert(forall|i: int| 0 <= i < k - 1 ==> d[i] == c);
        lemma_run_from_bound(d, c, k - 1);
    }
}

/// The blank-run analogue of `lemma_run_from_bound`.
pub proof fn lemma_blank_run_from_bound(s: Seq<char>, k: int)
    requires
        0 <= k <= s.len(),
        forall|i: int| 0 <= i < k ==> (s[i] == ' ' || s[i] == '\t'),
        k < s.len() ==> !(s[k] == ' ' || s[k] == '\t'),
    ensures
        leading_blank_run_s(s) == k,
    decreases k,
{
    if k == 0 {
    } else {
        let d = s.drop_first();
        assert(forall|i: int| 0 <= i < k - 1 ==> (d[i] == ' ' || d[i] == '\t'));
        lemma_blank_run_from_bound(d, k - 1);
    }
}

} // verus!
