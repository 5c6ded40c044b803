use crate::text::{chars_of, usize_string};
use vstd::prelude::*;

verus! {

/// All characters in `s[i..j]` differ from one another.
pub open spec fn distinct_range(s: Seq<char>, i: int, j: int) -> bool {
    forall|k: int, l: int| i <= k < l < j ==> s[k] != s[l]
}

/// Whether the `n` characters just before index `j` are all distinct.
pub open spec fn window_at(s: Seq<char>, n: int, j: int) -> bool {
    n <= j < s.len() && distinct_range(s, j - n, j)
}

/// The first index scanned whose preceding `n` characters are all distinct,
/// starting the scan at `n`; `0` when the scan finds none.
pub open spec fn marker_from(s: Seq<char>, n: int, j: int) -> int
    decreases s.len() - j,
{
    if j < 0 || j >= s.len() {
        0
    } else if window_at(s, n, j) {
        j
    } else {
        marker_from(s, n, j + 1)
    }
}

/// The position reported for a window of `n` distinct characters in `s`.
pub open spec fn marker(s: Seq<char>, n: int) -> int {
    marker_from(s, n, n)
}

/// Whether the `n` characters of `v` before index `j` are all distinct.
fn window_distinct(v: &Vec<char>, n: usize, j: usize) -> (r: bool)
    requires
        n <= j <= v.len(),
    ensures
        r == distinct_range(v@, j - n, j as int),
{
    let mut k: usize = j - n;
    while k < j
        invariant
            j - n <= k <= j <= v.len(),
            forall|a: int, b: int| j - n <= a < b < j && a < k ==> v@[a] != v@[b],
        decreases j - k,
    {
        let mut l: usize = k + 1;
        while l < j
            invariant
                j - n <= k < l <= j <= v.len(),
                forall|b: int| k < b < l ==> v@[k as int] != v@[b],
            decreases j - l,
        {
            if v[k] == v[l] {
                return false;
            }
            l = l + 1;
        }
        k = k + 1;
    }
    true
}

/// The first index whose preceding `n` characters are all distinct, scanning
/// from index `n` up to (and excluding) the end of `s`; `0` when no such
/// window is found.
pub fn find_first_n_distinct(s: &str, n: usize) -> (r: usize)
    ensures
        r == marker(s@, n as int),
{
    let v = chars_of(s);
    let mut i: usize = n;
    while i < v.len()
        invariant
            v@ == s@,
            n <= i,
            marker(s@, n as int) == marker_from(s@, n as int, i as int),
        decreases v.len() - i,
    {
        if window_distinct(&v, n, i) {
            return i;
        }
        i = i + 1;
    }
    0
}

/// The marker positions for window sizes four and fourteen, as decimal strings.
pub fn solution(contents: &str) -> (r: (String, String))
    ensures
        r.0@ == crate::text::dec_nat(marker(contents@, 4)),
        r.1@ == crate::text::dec_nat(marker(contents@, 14)),
{
    let result1 = find_first_n_distinct(contents, 4);
    let result2 = find_first_n_distinct(contents, 14);
    proof {
        lemma_marker_nonneg(contents@, 4, 4);
        lemma_marker_nonneg(contents@, 14, 14);
    }
    (usize_string(result1), usize_string(result2))
}

proof fn lemma_marker_nonneg(s: Seq<char>, n: int, j: int)
    ensures
        marker_from(s, n, j) >= 0,
    decreases s.len() - j,
{
    if 0 <= j < s.len() && !window_at(s, n, j) {
        lemma_marker_nonneg(s, n, j + 1);
    }
}

} // verus!
