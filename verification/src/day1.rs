use crate::sorting::ascending;
use crate::sorting::sort_u64;
use crate::sums::{lemma_sum_u64_nonneg, lemma_sum_u64_prefix, lemma_sum_u64_step};
use crate::sums::{sum_u32, sum_u64, u32s_to_u64s};
use crate::text::{all_digits, digits_val, line_seqs};
use crate::text::{chars_of, dec_nat, lemma_deep_view_chars, parse_u64, split_lines, u64_string};
use vstd::prelude::*;

verus! {

/// Index of the first empty line, or `lines.len()` if there is none.
pub open spec fn empty_pos(lines: Seq<Seq<char>>) -> nat
    decreases lines.len(),
{
    if lines.len() == 0 {
        0
    } else if lines[0].len() == 0 {
        0
    } else {
        1 + empty_pos(lines.drop_first())
    }
}

proof fn lemma_empty_pos_at(s: Seq<Seq<char>>, m: int)
    requires
        0 <= m <= s.len(),
        forall|k: int| 0 <= k < m ==> #[trigger] s[k].len() > 0,
        m == s.len() || s[m].len() == 0,
    ensures
        empty_pos(s) == m,
    decreases m,
{
    if m > 0 {
        assert(forall|k: int| 0 <= k < m - 1 ==> #[trigger] s.drop_first()[k].len() > 0);
        lemma_empty_pos_at(s.drop_first(), m - 1);
    }
}

/// Runs of lines between empty lines; `n` empty lines give `n + 1` runs,
/// so a run itself may be empty.
pub open spec fn group_split(lines: Seq<Seq<char>>) -> Seq<Seq<Seq<char>>>
    decreases lines.len(),
{
    let e = empty_pos(lines);
    if e >= lines.len() {
        seq![lines]
    } else {
        seq![lines.take(e as int)] + group_split(lines.skip(e + 1 as int))
    }
}

/// One run of numeral lines, each read as a decimal value.
pub open spec fn parse_group(g: Seq<Seq<char>>) -> Seq<u32> {
    g.map_values(|l: Seq<char>| digits_val(l) as u32)
}

/// Every run of the split, parsed.
pub open spec fn parse_groups(gs: Seq<Seq<Seq<char>>>) -> Seq<Seq<u32>> {
    gs.map_values(|g: Seq<Seq<char>>| parse_group(g))
}

/// Whether every line of `s` is empty or a decimal numeral that fits `u32`.
pub open spec fn day1_input_ok(s: Seq<char>) -> bool {
    forall|k: int|
        0 <= k < line_seqs(s).len() ==> {
            let l = #[trigger] line_seqs(s)[k];
            l.len() == 0 || (all_digits(l) && digits_val(l) <= u32::MAX)
        }
}

/// The groups of values read from `s`: lines hold one value each, and an
/// empty line closes a group.
pub open spec fn day1_groups(s: Seq<char>) -> Seq<Seq<u32>> {
    parse_groups(group_split(line_seqs(s)))
}

proof fn lemma_deep_view_u32s(v: &Vec<Vec<u32>>)
    ensures
        v.deep_view().len() == v@.len(),
        forall|i: int| 0 <= i < v@.len() ==> #[trigger] v.deep_view()[i] == v@[i]@,
{
    assert forall|i: int| 0 <= i < v@.len() implies #[trigger] v.deep_view()[i] == v@[i]@ by {
        assert(v@[i].deep_view() =~= v@[i]@);
    }
}

/// Parse groups of values separated by empty lines; `None` exactly when some
/// non-empty line is not a numeral that fits `u32`.
pub fn day1_parser(contents: &str) -> (r: Option<Vec<Vec<u32>>>)
    ensures
        r is Some <==> day1_input_ok(contents@),
        r is Some ==> r->Some_0.deep_view() == day1_groups(contents@),
{
    let chars = chars_of(contents);
    let lines = split_lines(&chars);
    let ghost ld = line_seqs(contents@);
    proof {
        lemma_deep_view_chars(&lines);
    }
    let mut result: Vec<Vec<u32>> = Vec::new();
    let mut cur: Vec<u32> = Vec::new();
    let mut gpos: usize = 0;
    let mut j: usize = 0;
    proof {
        assert(ld.skip(0) =~= ld);
        assert(result.deep_view() + parse_groups(group_split(ld)) =~~= parse_groups(
            group_split(ld),
        ));
        assert(cur@ =~= parse_group(ld.subrange(0, 0)));
    }
    while j < lines.len()
        invariant
            gpos <= j <= lines.len(),
            ld == line_seqs(contents@),
            lines.deep_view() == ld,
            lines@.len() == ld.len(),
            forall|i: int| 0 <= i < lines@.len() ==> #[trigger] lines@[i]@ == ld[i],
            parse_groups(group_split(ld)) == result.deep_view() + parse_groups(
                group_split(ld.skip(gpos as int)),
            ),
            forall|k: int| gpos <= k < j ==> #[trigger] ld[k].len() > 0,
            cur@ == parse_group(ld.subrange(gpos as int, j as int)),
            forall|k: int|
                0 <= k < j ==> (#[trigger] ld[k].len() == 0 || (all_digits(ld[k]) && digits_val(
                    ld[k],
                ) <= u32::MAX)),
        decreases lines.len() - j,
    {
        let ghost tail = ld.skip(gpos as int);
        if lines[j].len() == 0 {
            proof {
                assert(forall|k: int| 0 <= k < j - gpos ==> #[trigger] tail[k].len() > 0);
                lemma_empty_pos_at(tail, j - gpos);
                assert(group_split(tail) == seq![tail.take(j - gpos)] + group_split(
                    tail.skip(j - gpos + 1),
                ));
                assert(tail.take(j - gpos) =~= ld.subrange(gpos as int, j as int));
                assert(tail.skip(j - gpos + 1) =~= ld.skip(j + 1));
                assert(parse_groups(group_split(tail)) =~~= seq![
                    parse_group(ld.subrange(gpos as int, j as int)),
                ] + parse_groups(group_split(ld.skip(j + 1))));
            }
            let ghost old_res = result.deep_view();
            result.push(cur);
            cur = Vec::new();
            proof {
                assert(result.deep_view() =~~= old_res + seq![
                    parse_group(ld.subrange(gpos as int, j as int)),
                ]);
                assert(parse_groups(group_split(ld)) =~~= result.deep_view() + parse_groups(
                    group_split(ld.skip(j + 1)),
                ));
                assert(cur@ =~= parse_group(ld.subrange(j + 1, j + 1)));
            }
            gpos = j + 1;
        } else {
            let n = match parse_u64(&lines[j]) {
                Some(n) => n,
                None => {
                    proof {
                        assert(!day1_input_ok(contents@)) by {
                            let l = line_seqs(contents@)[j as int];
                            assert(l == ld[j as int]);
                            assert(l.len() > 0);
                            assert(!(all_digits(l) && digits_val(l) <= u32::MAX));
                        }
                    }
                    return None;
                },
            };
            if n > u32::MAX as u64 {
                proof {
                    assert(!day1_input_ok(contents@)) by {
                        let l = line_seqs(contents@)[j as int];
                        assert(l == ld[j as int]);
                        assert(l.len() > 0);
                        assert(digits_val(l) > u32::MAX);
                    }
                }
                return None;
            }
            cur.push(n as u32);
            proof {
                assert(cur@ =~= parse_group(ld.subrange(gpos as int, j + 1)));
            }
        }
        j = j + 1;
    }
    proof {
        let tail = ld.skip(gpos as int);
        assert(forall|k: int| 0 <= k < tail.len() ==> #[trigger] tail[k].len() > 0);
        lemma_empty_pos_at(tail, tail.len() as int);
        assert(group_split(tail) == seq![tail]);
        assert(tail =~= ld.subrange(gpos as int, ld.len() as int));
        assert(parse_groups(group_split(tail)) =~~= seq![parse_group(tail)]);
    }
    let ghost old_res = result.deep_view();
    result.push(cur);
    proof {
        assert(result.deep_view() =~~= old_res + seq![
            parse_group(ld.subrange(gpos as int, ld.len() as int)),
        ]);
        assert(result.deep_view() =~~= day1_groups(contents@));
    }
    Some(result)
}

/// The total of each group.
pub open spec fn group_sums(gs: Seq<Seq<u32>>) -> Seq<u64> {
    gs.map_values(|g: Seq<u32>| sum_u32(g) as u64)
}

/// The sum of the three largest values (or of all of them, when there are
/// fewer than three).
pub open spec fn top_three_sum(sums: Seq<u64>) -> int {
    let a = ascending(sums);
    if a.len() <= 3 {
        sum_u64(a)
    } else {
        sum_u64(a.skip(a.len() - 3))
    }
}

/// Whether the group totals of `s` stay within `u32`, as the computation
/// demands.
pub open spec fn day1_sums_ok(s: Seq<char>) -> bool {
    let gs = day1_groups(s);
    &&& forall|i: int| 0 <= i < gs.len() ==> sum_u32(#[trigger] gs[i]) <= u32::MAX
    &&& top_three_sum(group_sums(gs)) <= u32::MAX
}

/// The largest group total, and the sum of the three largest group totals,
/// both as decimal strings. `None` exactly when the input does not parse.
pub fn day1(contents: &str) -> (r: Option<(String, String)>)
    requires
        day1_input_ok(contents@) ==> day1_sums_ok(contents@),
    ensures
        r is Some <==> day1_input_ok(contents@),
        r is Some ==> ({
            let sums = group_sums(day1_groups(contents@));
            &&& r->Some_0.0@ == dec_nat(ascending(sums).last() as int)
            &&& r->Some_0.1@ == dec_nat(top_three_sum(sums))
        }),
{
    let groups = match day1_parser(contents) {
        Some(g) => g,
        None => {
            return None;
        },
    };
    let ghost gd = day1_groups(contents@);
    let ghost sums_spec = group_sums(gd);
    proof {
        lemma_deep_view_u32s(&groups);
    }
    let mut sums: Vec<u64> = Vec::new();
    let mut k: usize = 0;
    proof {
        assert(sums@ =~= sums_spec.take(0));
    }
    while k < groups.len()
        invariant
            k <= groups.len(),
            groups.deep_view() == gd,
            groups@.len() == gd.len(),
            forall|i: int| 0 <= i < groups@.len() ==> #[trigger] groups@[i]@ == gd[i],
            forall|i: int| 0 <= i < gd.len() ==> sum_u32(#[trigger] gd[i]) <= u32::MAX,
            sums_spec == group_sums(gd),
            sums@ == sums_spec.take(k as int),
        decreases groups.len() - k,
    {
        let g = &groups[k];
        let ghost gv = u32s_to_u64s(g@);
        let mut cur: u64 = 0;
        let mut m: usize = 0;
        proof {
            assert(gv.take(0) =~= Seq::<u64>::empty());
        }
        while m < g.len()
            invariant
                m <= g.len(),
                gv == u32s_to_u64s(g@),
                gv.len() == g@.len(),
                forall|i: int| 0 <= i < g@.len() ==> gv[i] == g@[i] as u64,
                sum_u64(gv) <= u32::MAX,
                cur == sum_u64(gv.take(m as int)),
            decreases g.len() - m,
        {
            proof {
                lemma_sum_u64_step(gv, m as int);
                lemma_sum_u64_prefix(gv, m + 1);
                lemma_sum_u64_nonneg(gv.take(m as int));
            }
            cur = cur + (g[m] as u64);
            m = m + 1;
        }
        proof {
            assert(gv.take(g@.len() as int) =~= gv);
            assert(cur == sum_u32(gd[k as int]));
            lemma_sum_u64_nonneg(gv);
            assert(cur as int == sum_u32(gd[k as int]) as u64 as int);
        }
        sums.push(cur);
        proof {
            assert(sums@ =~= sums_spec.take(k + 1));
        }
        k = k + 1;
    }
    proof {
        assert(sums@ =~= sums_spec);
    }
    let sorted = sort_u64(&sums);
    proof {
        crate::sorting::lemma_ascending(sums_spec);
        assert(group_split(line_seqs(contents@)).len() >= 1);
        assert(gd.len() >= 1);
    }
    let max = sorted[sorted.len() - 1];
    let start: usize = if sorted.len() <= 3 {
        0
    } else {
        sorted.len() - 3
    };
    let ghost slice = ascending(sums_spec).skip(start as int);
    let mut top: u64 = 0;
    let mut m: usize = start;
    proof {
        assert(slice.take(0) =~= Seq::<u64>::empty());
        lemma_sum_u64_nonneg(slice);
        assert(sum_u64(slice) == top_three_sum(sums_spec)) by {
            if sorted.len() <= 3 {
                assert(slice =~= ascending(sums_spec));
            }
        }
    }
    while m < sorted.len()
        invariant
            start <= m <= sorted.len(),
            sorted@ == ascending(sums_spec),
            slice == ascending(sums_spec).skip(start as int),
            slice.len() == sorted@.len() - start,
            sum_u64(slice) <= u32::MAX,
            top == sum_u64(slice.take(m - start)),
        decreases sorted.len() - m,
    {
        proof {
            assert(slice[m - start] == sorted@[m as int]);
            lemma_sum_u64_step(slice, m - start);
            lemma_sum_u64_prefix(slice, m - start + 1);
            lemma_sum_u64_nonneg(slice.take(m - start));
        }
        top = top + sorted[m];
        m = m + 1;
    }
    proof {
        assert(slice.take(slice.len() as int) =~= slice);
    }
    Some((u64_string(max), u64_string(top)))
}

} // verus!
