use crate::text::{chars_of, dec_nat, lemma_deep_view_chars, line_seqs, split_lines, u64_string};
use vstd::prelude::*;

verus! {

/// The priority of an item: 1 to 26 for `a` to `z`, 27 to 52 for `A` to `Z`,
/// 0 for anything else.
pub open spec fn priority(c: char) -> int {
    if 'a' <= c && c <= 'z' {
        c as u32 - 96
    } else if 'A' <= c && c <= 'Z' {
        c as u32 - 38
    } else {
        0
    }
}

/// Whether `c` occurs among the first `upto` characters of `l`.
pub open spec fn occurs_before(l: Seq<char>, upto: int, c: char) -> bool {
    exists|k: int| 0 <= k < upto && k < l.len() && l[k] == c
}

/// The points a rucksack scores, scanning its second half from index `i`:
/// the priority of the first item also present in the first half.
pub open spec fn rucksack_points_from(l: Seq<char>, i: int) -> int
    decreases l.len() - i,
{
    if i < 0 || i >= l.len() {
        0
    } else if occurs_before(l, l.len() as int / 2, l[i]) {
        priority(l[i])
    } else {
        rucksack_points_from(l, i + 1)
    }
}

/// The points a rucksack scores: the priority of the first item in its
/// second half that also occurs in its first half, or 0.
pub open spec fn rucksack_points(l: Seq<char>) -> int {
    rucksack_points_from(l, l.len() as int / 2)
}

/// The sum of rucksack points over the lines from index `j` on.
pub open spec fn total_dup_points(lines: Seq<Seq<char>>, j: int) -> int
    decreases lines.len() - j,
{
    if j < 0 || j >= lines.len() {
        0
    } else {
        rucksack_points(lines[j]) + total_dup_points(lines, j + 1)
    }
}

/// The points a group of three rucksacks scores, scanning the third from
/// index `i`: the priority of its first item present in both others.
pub open spec fn badge_points_from(l1: Seq<char>, l2: Seq<char>, l3: Seq<char>, i: int) -> int
    decreases l3.len() - i,
{
    if i < 0 || i >= l3.len() {
        0
    } else if occurs_before(l1, l1.len() as int, l3[i]) && occurs_before(
        l2,
        l2.len() as int,
        l3[i],
    ) {
        priority(l3[i])
    } else {
        badge_points_from(l1, l2, l3, i + 1)
    }
}

/// The sum of badge points over the complete groups of three lines from
/// group `g` on.
pub open spec fn total_badge_points(lines: Seq<Seq<char>>, g: int) -> int
    decreases lines.len() / 3 - g,
{
    if g < 0 || g >= lines.len() / 3 {
        0
    } else {
        badge_points_from(lines[3 * g], lines[3 * g + 1], lines[3 * g + 2], 0)
            + total_badge_points(lines, g + 1)
    }
}

proof fn lemma_priority_range(c: char)
    ensures
        0 <= priority(c) <= 52,
{
}

proof fn lemma_rucksack_points_range(l: Seq<char>, i: int)
    ensures
        0 <= rucksack_points_from(l, i) <= 52,
    decreases l.len() - i,
{
    if 0 <= i < l.len() && !occurs_before(l, l.len() as int / 2, l[i]) {
        lemma_rucksack_points_range(l, i + 1);
    }
}

proof fn lemma_badge_points_range(l1: Seq<char>, l2: Seq<char>, l3: Seq<char>, i: int)
    ensures
        0 <= badge_points_from(l1, l2, l3, i) <= 52,
    decreases l3.len() - i,
{
    if 0 <= i < l3.len() && !(occurs_before(l1, l1.len() as int, l3[i]) && occurs_before(
        l2,
        l2.len() as int,
        l3[i],
    )) {
        lemma_badge_points_range(l1, l2, l3, i + 1);
    }
}

proof fn lemma_total_dup_nonneg(lines: Seq<Seq<char>>, j: int)
    ensures
        total_dup_points(lines, j) >= 0,
    decreases lines.len() - j,
{
    if 0 <= j < lines.len() {
        lemma_total_dup_nonneg(lines, j + 1);
        lemma_rucksack_points_range(lines[j], lines[j].len() as int / 2);
    }
}

proof fn lemma_total_badge_nonneg(lines: Seq<Seq<char>>, g: int)
    ensures
        total_badge_points(lines, g) >= 0,
    decreases lines.len() / 3 - g,
{
    if 0 <= g < lines.len() / 3 {
        lemma_total_badge_nonneg(lines, g + 1);
        lemma_badge_points_range(lines[3 * g], lines[3 * g + 1], lines[3 * g + 2], 0);
    }
}

/// Whether `c` occurs among the first `upto` characters of `v`.
fn contains_char(v: &Vec<char>, upto: usize, c: char) -> (r: bool)
    requires
        upto <= v.len(),
    ensures
        r == occurs_before(v@, upto as int, c),
{
    let mut k: usize = 0;
    while k < upto
        invariant
            k <= upto <= v.len(),
            forall|m: int| 0 <= m < k ==> v@[m] != c,
        decreases upto - k,
    {
        if v[k] == c {
            return true;
        }
        k = k + 1;
    }
    false
}

/// The priority of item `c`.
pub fn priority_of(c: char) -> (r: u32)
    ensures
        r == priority(c),
{
    if 'a' <= c && c <= 'z' {
        (c as u32) - 96
    } else if 'A' <= c && c <= 'Z' {
        (c as u32) - 38
    } else {
        0
    }
}

/// The points of one rucksack line.
fn rucksack_value(l: &Vec<char>) -> (r: u32)
    ensures
        r == rucksack_points(l@),
        r <= 52,
{
    let half = l.len() / 2;
    let mut i: usize = half;
    proof {
        lemma_rucksack_points_range(l@, i as int);
    }
    while i < l.len()
        invariant
            half == l@.len() as int / 2,
            half <= i,
            rucksack_points(l@) == rucksack_points_from(l@, i as int),
        decreases l.len() - i,
    {
        if contains_char(l, half, l[i]) {
            proof {
                lemma_rucksack_points_range(l@, i as int);
                lemma_priority_range(l@[i as int]);
            }
            return priority_of(l[i]);
        }
        i = i + 1;
    }
    0
}

/// The badge points of one complete group of three lines.
fn badge_value(l1: &Vec<char>, l2: &Vec<char>, l3: &Vec<char>) -> (r: u32)
    ensures
        r == badge_points_from(l1@, l2@, l3@, 0),
        r <= 52,
{
    let mut i: usize = 0;
    proof {
        lemma_badge_points_range(l1@, l2@, l3@, 0);
    }
    while i < l3.len()
        invariant
            badge_points_from(l1@, l2@, l3@, 0) == badge_points_from(l1@, l2@, l3@, i as int),
        decreases l3.len() - i,
    {
        if contains_char(l1, l1.len(), l3[i]) && contains_char(l2, l2.len(), l3[i]) {
            proof {
                lemma_badge_points_range(l1@, l2@, l3@, i as int);
                lemma_priority_range(l3@[i as int]);
            }
            return priority_of(l3[i]);
        }
        i = i + 1;
    }
    0
}

/// Sum the duplicate-item priorities of every rucksack, and the badge
/// priorities of every complete group of three rucksacks.
pub fn solution(contents: &str) -> (r: (String, String))
    requires
        total_dup_points(line_seqs(contents@), 0) <= u32::MAX,
        total_badge_points(line_seqs(contents@), 0) <= u32::MAX,
    ensures
        r.0@ == dec_nat(total_dup_points(line_seqs(contents@), 0)),
        r.1@ == dec_nat(total_badge_points(line_seqs(contents@), 0)),
{
    let chars = chars_of(contents);
    let lines = split_lines(&chars);
    let ghost ld = line_seqs(contents@);
    proof {
        lemma_deep_view_chars(&lines);
    }
    let mut result1: u32 = 0;
    let mut j: usize = 0;
    while j < lines.len()
        invariant
            j <= lines.len(),
            ld == line_seqs(contents@),
            lines@.len() == ld.len(),
            forall|i: int| 0 <= i < lines@.len() ==> #[trigger] lines@[i]@ == ld[i],
            total_dup_points(ld, 0) <= u32::MAX,
            result1 == total_dup_points(ld, 0) - total_dup_points(ld, j as int),
            result1 <= u32::MAX,
        decreases lines.len() - j,
    {
        let v = rucksack_value(&lines[j]);
        proof {
            lemma_total_dup_nonneg(ld, j + 1);
            lemma_total_dup_nonneg(ld, j as int);
        }
        result1 = result1 + v;
        j = j + 1;
    }
    let mut result2: u32 = 0;
    let mut g: usize = 0;
    while g < lines.len() / 3
        invariant
            ld == line_seqs(contents@),
            lines@.len() == ld.len(),
            forall|i: int| 0 <= i < lines@.len() ==> #[trigger] lines@[i]@ == ld[i],
            total_badge_points(ld, 0) <= u32::MAX,
            g <= lines.len(),
            result2 == total_badge_points(ld, 0) - total_badge_points(ld, g as int),
            result2 <= u32::MAX,
        decreases lines.len() - g,
    {
        proof {
            assert(3 * g + 2 < ld.len());
        }
        let base = 3 * g;
        let v = badge_value(&lines[base], &lines[base + 1], &lines[base + 2]);
        proof {
            lemma_total_badge_nonneg(ld, g + 1);
            lemma_total_badge_nonneg(ld, g as int);
        }
        result2 = result2 + v;
        g = g + 1;
    }
    proof {
        assert(total_dup_points(ld, lines@.len() as int) == 0);
        assert(g >= ld.len() / 3);
        assert(total_badge_points(ld, g as int) == 0);
    }
    (u64_string(result1 as u64), u64_string(result2 as u64))
}

} // verus!
