//! Character-level helpers shared by the scanner: the whitespace predicate,
//! whitespace trimming, string equality over views, and newline counting.

use vstd::prelude::*;

verus! {

/// The Unicode `White_Space` characters, the set `str::trim` strips.
pub open spec fn is_ws(c: char) -> bool {
    c == ' ' || c == '\t' || c == '\n' || c == '\r' || c == '\u{0b}' || c == '\u{0c}'
        || c == '\u{85}' || c == '\u{a0}' || c == '\u{1680}'
        || ('\u{2000}' <= c && c <= '\u{200a}') || c == '\u{2028}' || c == '\u{2029}'
        || c == '\u{202f}' || c == '\u{205f}' || c == '\u{3000}'
}

/// Executable form of `is_ws`.
pub fn is_ws_char(c: char) -> (r: bool)
    ensures
        r == is_ws(c),
{
    c == ' ' || c == '\t' || c == '\n' || c == '\r' || c == '\u{0b}' || c == '\u{0c}'
        || c == '\u{85}' || c == '\u{a0}' || c == '\u{1680}'
        || ('\u{2000}' <= c && c <= '\u{200a}') || c == '\u{2028}' || c == '\u{2029}'
        || c == '\u{202f}' || c == '\u{205f}' || c == '\u{3000}'
}

/// First index at or after `i` holding a non-whitespace character (or `s.len()`).
pub open spec fn ws_run_end(s: Seq<char>, i: int) -> int
    recommends
        0 <= i <= s.len(),
    decreases s.len() - i,
{
    if i < 0 || i >= s.len() || !is_ws(s[i]) {
        i
    } else {
        ws_run_end(s, i + 1)
    }
}

/// Last index at or before `i` that is preceded only by trailing whitespace
/// when walking left from `i` (or `0`).
pub open spec fn ws_run_start(s: Seq<char>, i: int) -> int
    recommends
        0 <= i <= s.len(),
    decreases i,
{
    if i <= 0 || i > s.len() || !is_ws(s[i - 1]) {
        i
    } else {
        ws_run_start(s, i - 1)
    }
}

/// The number of leading whitespace characters of `s`.
pub open spec fn lead_ws(s: Seq<char>) -> int {
    ws_run_end(s, 0)
}

/// One past the last non-whitespace character of `s` (or `0` on all-whitespace).
pub open spec fn trail_start(s: Seq<char>) -> int {
    ws_run_start(s, s.len() as int)
}

/// What trimming leading and trailing whitespace from `s` leaves.
pub open spec fn trim_spec(s: Seq<char>) -> Seq<char> {
    if lead_ws(s) == s.len() {
        Seq::<char>::empty()
    } else {
        s.subrange(lead_ws(s), trail_start(s))
    }
}

pub proof fn lemma_ws_run_end_bounds(s: Seq<char>, i: int)
    requires
        0 <= i <= s.len(),
    ensures
        i <= ws_run_end(s, i) <= s.len(),
        forall|j: int| i <= j < ws_run_end(s, i) ==> is_ws(s[j]),
        ws_run_end(s, i) < s.len() ==> !is_ws(s[ws_run_end(s, i)]),
    decreases s.len() - i,
{
    if i < s.len() && is_ws(s[i]) {
        lemma_ws_run_end_bounds(s, i + 1);
    }
}

pub proof fn lemma_ws_run_start_bounds(s: Seq<char>, i: int)
    requires
        0 <= i <= s.len(),
    ensures
        0 <= ws_run_start(s, i) <= i,
        forall|j: int| ws_run_start(s, i) <= j < i ==> is_ws(s[j]),
        ws_run_start(s, i) > 0 ==> !is_ws(s[ws_run_start(s, i) - 1]),
    decreases i,
{
    if i > 0 && i <= s.len() && is_ws(s[i - 1]) {
        lemma_ws_run_start_bounds(s, i - 1);
    }
}

/// A run of whitespace indices `[i, a)` with a non-whitespace stop (or the end)
/// at `a` pins down `ws_run_end`.
pub proof fn lemma_ws_run_end_unique(s: Seq<char>, i: int, a: int)
    requires
        0 <= i <= a <= s.len(),
        forall|j: int| i <= j < a ==> is_ws(s[j]),
        a < s.len() ==> !is_ws(s[a]),
    ensures
        ws_run_end(s, i) == a,
    decreases a - i,
{
    if i < a {
        assert(is_ws(s[i]));
        lemma_ws_run_end_unique(s, i + 1, a);
    }
}

/// A run of whitespace indices `[b, i)` with a non-whitespace stop (or the
/// start) just below `b` pins down `ws_run_start`.
pub proof fn lemma_ws_run_start_unique(s: Seq<char>, i: int, b: int)
    requires
        0 <= b <= i <= s.len(),
        forall|j: int| b <= j < i ==> is_ws(s[j]),
        b > 0 ==> !is_ws(s[b - 1]),
    ensures
        ws_run_start(s, i) == b,
    decreases i - b,
{
    if b < i {
        assert(is_ws(s[i - 1]));
        lemma_ws_run_start_unique(s, i - 1, b);
    }
}

/// When `s` holds a non-whitespace character, the trimmed range is non-empty
/// and well-ordered: `lead_ws(s) < trail_start(s)`.
pub proof fn lemma_trim_range(s: Seq<char>)
    requires
        lead_ws(s) < s.len(),
    ensures
        0 <= lead_ws(s) < trail_start(s) <= s.len(),
        !is_ws(s[lead_ws(s)]),
        !is_ws(s[trail_start(s) - 1]),
{
    lemma_ws_run_end_bounds(s, 0);
    lemma_ws_run_start_bounds(s, s.len() as int);
    let a = lead_ws(s);
    let b = trail_start(s);
    if b <= a {
        assert(is_ws(s[a]));
        assert(false);
    }
}

/// Trims leading and trailing whitespace, as `trim_spec` describes.
pub fn trim(s: &str) -> (r: &str)
    ensures
        r@ == trim_spec(s@),
{
    let n: usize = s.unicode_len();
    let ghost sq = s@;
    let mut a: usize = 0;
    while a < n && is_ws_char(s.get_char(a))
        invariant
            0 <= a <= n,
            n == sq.len(),
            s@ == sq,
            forall|j: int| 0 <= j < a ==> is_ws(sq[j]),
        decreases n - a,
    {
        a = a + 1;
    }
    proof {
        lemma_ws_run_end_unique(sq, 0, a as int);
    }
    if a == n {
        let r = s.substring_char(n, n);
        proof {
            assert(r@ =~= trim_spec(sq));
        }
        r
    } else {
        let mut b: usize = n;
        while b > a && is_ws_char(s.get_char(b - 1))
            invariant
                a < b <= n,
                a < n,
                n == sq.len(),
                s@ == sq,
                !is_ws(sq[a as int]),
                forall|j: int| b <= j < n ==> is_ws(sq[j]),
            decreases b,
        {
            b = b - 1;
        }
        proof {
            assert(!is_ws(sq[b - 1]));
            lemma_ws_run_start_unique(sq, n as int, b as int);
        }
        s.substring_char(a, b)
    }
}

/// String equality over views: `r` holds exactly when the two views are equal.
pub fn str_eq(x: &str, y: &str) -> (r: bool)
    ensures
        r == (x@ == y@),
{
    let n: usize = x.unicode_len();
    let m: usize = y.unicode_len();
    if n != m {
        return false;
    }
    let mut i: usize = 0;
    while i < n
        invariant
            0 <= i <= n,
            n == x@.len(),
            n == y@.len(),
            forall|j: int| 0 <= j < i ==> x@[j] == y@[j],
        decreases n - i,
    {
        if x.get_char(i) != y.get_char(i) {
            assert(x@[i as int] != y@[i as int]);
            return false;
        }
        i = i + 1;
    }
    proof {
        assert(x@ =~= y@);
    }
    true
}

/// The number of newline characters in `s`.
pub open spec fn count_newlines(s: Seq<char>) -> nat
    decreases s.len(),
{
    if s.len() == 0 {
        0
    } else {
        count_newlines(s.drop_last()) + if s.last() == '\n' {
            1nat
        } else {
            0nat
        }
    }
}

/// Extending a prefix by one character adds that character's newline count.
pub proof fn lemma_count_newlines_take(s: Seq<char>, n: int)
    requires
        0 <= n < s.len(),
    ensures
        count_newlines(s.take(n + 1)) == count_newlines(s.take(n)) + if s[n] == '\n' {
            1nat
        } else {
            0nat
        },
{
    assert(s.take(n + 1).drop_last() =~= s.take(n));
    assert(s.take(n + 1).last() == s[n]);
}

} // verus!
