use crate::text::{all_digits, chars_of, dec_nat, digits_val, find_char, find_pos, lemma_find_pos};
use crate::text::{lemma_deep_view_chars, line_seqs, parse_u64, split_lines, subvec, usize_string};
use vstd::prelude::*;

verus! {

/// A pair of inclusive ranges, each given by its two bounds.
pub type Pair = ((u32, u32), (u32, u32));

/// Whether `x` lies in the inclusive range `r`.
pub open spec fn in_range(r: (u32, u32), x: u32) -> bool {
    r.0 <= x && x <= r.1
}

/// The two bounds of a piece such as `2-4`, when both are numerals that fit `u32`.
pub open spec fn range_of(t: Seq<char>) -> Option<(u32, u32)> {
    let d = find_pos(t, '-');
    if d >= t.len() {
        None
    } else {
        let a = t.take(d as int);
        let b = t.skip(d + 1 as int);
        if a.len() > 0 && all_digits(a) && digits_val(a) <= u32::MAX && b.len() > 0 && all_digits(
            b,
        ) && digits_val(b) <= u32::MAX {
            Some((digits_val(a) as u32, digits_val(b) as u32))
        } else {
            None
        }
    }
}

/// The two ranges of a line such as `2-4,6-8`.
pub open spec fn pair_of(l: Seq<char>) -> Option<Pair> {
    let c = find_pos(l, ',');
    if c >= l.len() {
        None
    } else {
        let r1 = range_of(l.take(c as int));
        let r2 = range_of(l.skip(c + 1 as int));
        if r1 is Some && r2 is Some {
            Some((r1->Some_0, r2->Some_0))
        } else {
            None
        }
    }
}

/// Whether every line of `s` holds a pair of ranges.
pub open spec fn day4_input_ok(s: Seq<char>) -> bool {
    forall|k: int| 0 <= k < line_seqs(s).len() ==> pair_of(#[trigger] line_seqs(s)[k]) is Some
}

/// The pairs of ranges read from the lines of `s`.
pub open spec fn day4_pairs(s: Seq<char>) -> Seq<Pair> {
    line_seqs(s).map_values(|l: Seq<char>| pair_of(l)->Some_0)
}

/// Read the two bounds of a range written `lo-hi`.
pub fn parse_range(t: &Vec<char>) -> (r: Option<(u32, u32)>)
    ensures
        r == range_of(t@),
{
    proof {
        lemma_find_pos(t@, '-');
    }
    let d = find_char(t, 0, '-');
    if d == t.len() {
        return None;
    }
    let a = subvec(t, 0, d);
    let b = subvec(t, d + 1, t.len());
    proof {
        assert(a@ =~= t@.take(d as int));
        assert(b@ =~= t@.skip(d + 1));
    }
    let av = match parse_u64(&a) {
        Some(n) => n,
        None => {
            return None;
        },
    };
    let bv = match parse_u64(&b) {
        Some(n) => n,
        None => {
            return None;
        },
    };
    if av > u32::MAX as u64 || bv > u32::MAX as u64 {
        return None;
    }
    Some((av as u32, bv as u32))
}

/// Read a line holding two ranges separated by a comma.
fn parse_pair(l: &Vec<char>) -> (r: Option<Pair>)
    ensures
        r == pair_of(l@),
{
    proof {
        lemma_find_pos(l@, ',');
    }
    let c = find_char(l, 0, ',');
    if c == l.len() {
        return None;
    }
    let left = subvec(l, 0, c);
    let right = subvec(l, c + 1, l.len());
    proof {
        assert(left@ =~= l@.take(c as int));
        assert(right@ =~= l@.skip(c + 1));
    }
    let r1 = match parse_range(&left) {
        Some(r1) => r1,
        None => {
            return None;
        },
    };
    let r2 = match parse_range(&right) {
        Some(r2) => r2,
        None => {
            return None;
        },
    };
    Some((r1, r2))
}

/// Read one pair of ranges from every line; `None` exactly when a line does
/// not hold two well-formed ranges.
pub fn parser(contents: &str) -> (r: Option<Vec<Pair>>)
    ensures
        r is Some <==> day4_input_ok(contents@),
        r is Some ==> r->Some_0@ == day4_pairs(contents@),
{
    let chars = chars_of(contents);
    let lines = split_lines(&chars);
    proof {
        lemma_deep_view_chars(&lines);
    }
    let mut result: Vec<Pair> = Vec::new();
    let mut j: usize = 0;
    proof {
        assert(result@ =~= day4_pairs(contents@).take(0));
    }
    while j < lines.len()
        invariant
            j <= lines.len(),
            lines.deep_view() == line_seqs(contents@),
            lines@.len() == line_seqs(contents@).len(),
            forall|i: int|
                0 <= i < lines@.len() ==> #[trigger] lines@[i]@ == line_seqs(contents@)[i],
            forall|k: int| 0 <= k < j ==> pair_of(#[trigger] line_seqs(contents@)[k]) is Some,
            result@ == day4_pairs(contents@).take(j as int),
        decreases lines.len() - j,
    {
        match parse_pair(&lines[j]) {
            Some(p) => {
                result.push(p);
                proof {
                    assert(result@ =~= day4_pairs(contents@).take(j + 1));
                }
            },
            None => {
                proof {
                    assert(pair_of(line_seqs(contents@)[j as int]) is None);
                }
                return None;
            },
        }
        j = j + 1;
    }
    proof {
        assert(result@ =~= day4_pairs(contents@));
    }
    Some(result)
}

/// Whether one range of the pair holds the other whole.
pub fn one_contains_another(ranges: &Pair) -> (r: bool)
    ensures
        r == spec_one_contains_another(*ranges),
{
    let ((a0, a1), (b0, b1)) = *ranges;
    (a0 <= b0 && b0 <= a1 && a0 <= b1 && b1 <= a1) || (b0 <= a0 && a0 <= b1 && b0 <= a1 && a1
        <= b1)
}

/// One range holds both bounds of the other.
pub open spec fn spec_one_contains_another(p: Pair) -> bool {
    (in_range(p.0, p.1.0) && in_range(p.0, p.1.1)) || (in_range(p.1, p.0.0) && in_range(
        p.1,
        p.0.1,
    ))
}

/// Whether the two ranges of the pair share a bound's position.
pub fn overlaps(ranges: &Pair) -> (r: bool)
    ensures
        r == spec_overlaps(*ranges),
{
    let ((a0, a1), (b0, b1)) = *ranges;
    (a0 <= b0 && b0 <= a1) || (a0 <= b1 && b1 <= a1) || (b0 <= a0 && a0 <= b1) || (b0 <= a1 && a1
        <= b1)
}

/// Some bound of one range lies within the other.
pub open spec fn spec_overlaps(p: Pair) -> bool {
    in_range(p.0, p.1.0) || in_range(p.0, p.1.1) || in_range(p.1, p.0.0) || in_range(p.1, p.0.1)
}

/// How many pairs have one range containing the other.
pub open spec fn count_contained(ps: Seq<Pair>) -> int
    decreases ps.len(),
{
    if ps.len() == 0 {
        0
    } else {
        count_contained(ps.drop_last()) + if spec_one_contains_another(ps.last()) {
            1int
        } else {
            0int
        }
    }
}

/// How many pairs overlap.
pub open spec fn count_overlapping(ps: Seq<Pair>) -> int
    decreases ps.len(),
{
    if ps.len() == 0 {
        0
    } else {
        count_overlapping(ps.drop_last()) + if spec_overlaps(ps.last()) {
            1int
        } else {
            0int
        }
    }
}

/// Count the pairs where one range holds the other, and the pairs that
/// overlap at all; `None` exactly when the input does not parse.
pub fn solution(contents: &str) -> (r: Option<(String, String)>)
    ensures
        r is Some <==> day4_input_ok(contents@),
        r is Some ==> ({
            let ps = day4_pairs(contents@);
            &&& r->Some_0.0@ == dec_nat(count_contained(ps))
            &&& r->Some_0.1@ == dec_nat(count_overlapping(ps))
        }),
{
    let vector = match parser(contents) {
        Some(v) => v,
        None => {
            return None;
        },
    };
    let ghost ps = day4_pairs(contents@);
    let mut c1: usize = 0;
    let mut c2: usize = 0;
    let mut j: usize = 0;
    proof {
        assert(ps.take(0) =~= Seq::<Pair>::empty());
    }
    while j < vector.len()
        invariant
            j <= vector.len(),
            vector@ == ps,
            c1 == count_contained(ps.take(j as int)),
            c2 == count_overlapping(ps.take(j as int)),
            c1 <= j,
            c2 <= j,
        decreases vector.len() - j,
    {
        proof {
            assert(ps.take(j + 1).drop_last() =~= ps.take(j as int));
            assert(ps.take(j + 1).last() == ps[j as int]);
        }
        if one_contains_another(&vector[j]) {
            c1 = c1 + 1;
        }
        if overlaps(&vector[j]) {
            c2 = c2 + 1;
        }
        j = j + 1;
    }
    proof {
        assert(ps.take(vector@.len() as int) =~= ps);
    }
    Some((usize_string(c1), usize_string(c2)))
}

} // verus!
