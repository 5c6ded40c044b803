use crate::text::{chars_of, dec_nat, i64_string, lemma_deep_view_chars, line_seqs, split_lines};
use crate::text::{split_whitespace, split_ws, subvec};
use vstd::prelude::*;

verus! {

/// The points a response scores by itself: 1 for `X`, 2 for `Y`, 3 for `Z`.
pub open spec fn strategy_point(c: char) -> Option<int> {
    if c == 'X' {
        Some(1int)
    } else if c == 'Y' {
        Some(2int)
    } else if c == 'Z' {
        Some(3int)
    } else {
        None
    }
}

/// The points a round scores on top of the response: 6 for a win, 3 for a
/// draw, 0 otherwise.
pub open spec fn outcome_bonus(code: Seq<char>) -> int {
    if code == seq!['C', 'X'] || code == seq!['A', 'Y'] || code == seq!['B', 'Z'] {
        6
    } else if code == seq!['A', 'X'] || code == seq!['B', 'Y'] || code == seq!['C', 'Z'] {
        3
    } else {
        0
    }
}

/// The points of a round code: the response points of its last character
/// plus the outcome bonus; `None` when the last character is no response.
pub open spec fn round_points(code: Seq<char>) -> Option<int> {
    if code.len() == 0 {
        None
    } else {
        match strategy_point(code.last()) {
            Some(p) => Some(p + outcome_bonus(code)),
            None => None,
        }
    }
}

/// The first and second whitespace-separated tokens of each line.
pub open spec fn day2_pairs(s: Seq<char>) -> Seq<(Seq<char>, Seq<char>)> {
    line_seqs(s).map_values(|l: Seq<char>| (split_ws(l)[0], split_ws(l)[1]))
}

/// The three win/draw/loss codes for the round outcome asked by `s2`,
/// in the order they are searched: `X` asks for a loss, `Y` for a draw,
/// `Z` for a win.
pub open spec fn outcome_codes(s2: Seq<char>) -> Option<Seq<Seq<char>>> {
    if s2 == seq!['X'] {
        Some(seq![seq!['B', 'X'], seq!['C', 'Y'], seq!['A', 'Z']])
    } else if s2 == seq!['Y'] {
        Some(seq![seq!['A', 'X'], seq!['B', 'Y'], seq!['C', 'Z']])
    } else if s2 == seq!['Z'] {
        Some(seq![seq!['C', 'X'], seq!['A', 'Y'], seq!['B', 'Z']])
    } else {
        None
    }
}

/// The first code in `lst` that starts with `s1`.
pub open spec fn pick_code(lst: Seq<Seq<char>>, s1: Seq<char>) -> Option<Seq<char>>
    decreases lst.len(),
{
    if lst.len() == 0 {
        None
    } else if s1.is_prefix_of(lst[0]) {
        Some(lst[0])
    } else {
        pick_code(lst.drop_first(), s1)
    }
}

/// The code played in the second interpretation: the entry for the asked
/// outcome that starts with the opponent's token.
pub open spec fn second_code(p: (Seq<char>, Seq<char>)) -> Option<Seq<char>> {
    match outcome_codes(p.1) {
        Some(lst) => pick_code(lst, p.0),
        None => None,
    }
}

/// The points of a pair in the first interpretation: the two tokens joined.
pub open spec fn points1(p: (Seq<char>, Seq<char>)) -> Option<int> {
    round_points(p.0 + p.1)
}

/// The points of a pair in the second interpretation.
pub open spec fn points2(p: (Seq<char>, Seq<char>)) -> Option<int> {
    match second_code(p) {
        Some(code) => round_points(code),
        None => None,
    }
}

pub open spec fn pts_or0(o: Option<int>) -> int {
    match o {
        Some(p) => p,
        None => 0,
    }
}

/// The total of the first-interpretation points.
pub open spec fn total1(ps: Seq<(Seq<char>, Seq<char>)>) -> int
    decreases ps.len(),
{
    if ps.len() == 0 {
        0
    } else {
        total1(ps.drop_last()) + pts_or0(points1(ps.last()))
    }
}

/// The total of the second-interpretation points.
pub open spec fn total2(ps: Seq<(Seq<char>, Seq<char>)>) -> int
    decreases ps.len(),
{
    if ps.len() == 0 {
        0
    } else {
        total2(ps.drop_last()) + pts_or0(points2(ps.last()))
    }
}

/// Whether every line has two tokens and both interpretations score.
pub open spec fn day2_input_ok(s: Seq<char>) -> bool {
    &&& forall|k: int| 0 <= k < line_seqs(s).len() ==> split_ws(#[trigger] line_seqs(s)[k]).len()
        >= 2
    &&& forall|k: int|
        0 <= k < day2_pairs(s).len() ==> points1(#[trigger] day2_pairs(s)[k]) is Some && points2(
            day2_pairs(s)[k],
        ) is Some
}

proof fn lemma_round_points_range(code: Seq<char>)
    ensures
        round_points(code) is Some ==> 1 <= round_points(code)->Some_0 <= 9,
{
}

proof fn lemma_total1_bounds(ps: Seq<(Seq<char>, Seq<char>)>, m: int)
    requires
        0 <= m <= ps.len(),
    ensures
        0 <= total1(ps.take(m)) <= total1(ps),
        0 <= total2(ps.take(m)) <= total2(ps),
    decreases ps.len() - m,
{
    if m < ps.len() {
        lemma_total1_bounds(ps, m + 1);
        assert(ps.take(m + 1).drop_last() =~= ps.take(m));
        assert(ps.take(m + 1).last() == ps[m]);
        lemma_round_points_range(ps[m].0 + ps[m].1);
        match second_code(ps[m]) {
            Some(code) => lemma_round_points_range(code),
            None => {},
        }
        lemma_total1_prefix_nonneg(ps.take(m));
    } else {
        assert(ps.take(m) =~= ps);
        lemma_total1_prefix_nonneg(ps);
    }
}

proof fn lemma_total1_prefix_nonneg(ps: Seq<(Seq<char>, Seq<char>)>)
    ensures
        total1(ps) >= 0,
        total2(ps) >= 0,
    decreases ps.len(),
{
    if ps.len() > 0 {
        lemma_total1_prefix_nonneg(ps.drop_last());
        lemma_round_points_range(ps.last().0 + ps.last().1);
        match second_code(ps.last()) {
            Some(code) => lemma_round_points_range(code),
            None => {},
        }
    }
}

/// The first two tokens of each line; `None` exactly when a line has fewer
/// than two.
pub fn parser(contents: &str) -> (r: Option<Vec<(Vec<char>, Vec<char>)>>)
    ensures
        r is Some <==> (forall|k: int|
            0 <= k < line_seqs(contents@).len() ==> split_ws(
                #[trigger] line_seqs(contents@)[k],
            ).len() >= 2),
        r is Some ==> ({
            let ps = day2_pairs(contents@);
            &&& r->Some_0@.len() == ps.len()
            &&& forall|k: int|
                0 <= k < ps.len() ==> (#[trigger] r->Some_0@[k].0@, r->Some_0@[k].1@) == ps[k]
        }),
{
    let chars = chars_of(contents);
    let lines = split_lines(&chars);
    proof {
        lemma_deep_view_chars(&lines);
    }
    let mut result: Vec<(Vec<char>, Vec<char>)> = Vec::new();
    let mut j: usize = 0;
    while j < lines.len()
        invariant
            j <= lines.len(),
            lines.deep_view() == line_seqs(contents@),
            lines@.len() == line_seqs(contents@).len(),
            forall|i: int|
                0 <= i < lines@.len() ==> #[trigger] lines@[i]@ == line_seqs(contents@)[i],
            forall|k: int|
                0 <= k < j ==> split_ws(#[trigger] line_seqs(contents@)[k]).len() >= 2,
            result@.len() == j,
            forall|k: int|
                0 <= k < j ==> (#[trigger] result@[k].0@, result@[k].1@) == day2_pairs(
                    contents@,
                )[k],
        decreases lines.len() - j,
    {
        let toks = split_whitespace(&lines[j]);
        proof {
            lemma_deep_view_chars(&toks);
        }
        if toks.len() < 2 {
            proof {
                assert(split_ws(line_seqs(contents@)[j as int]).len() < 2);
            }
            return None;
        }
        let s1 = subvec(&toks[0], 0, toks[0].len());
        let s2 = subvec(&toks[1], 0, toks[1].len());
        proof {
            assert(s1@ =~= toks@[0]@);
            assert(s2@ =~= toks@[1]@);
            assert(s1@ == split_ws(line_seqs(contents@)[j as int])[0]);
            assert(s2@ == split_ws(line_seqs(contents@)[j as int])[1]);
        }
        result.push((s1, s2));
        j = j + 1;
    }
    Some(result)
}

/// Whether `v` starts the two-character code `ab`.
fn starts_code(v: &Vec<char>, a: char, b: char) -> (r: bool)
    ensures
        r == v@.is_prefix_of(seq![a, b]),
{
    if v.len() == 0 {
        proof {
            assert(v@ =~= seq![a, b].take(0));
        }
        true
    } else if v.len() == 1 {
        proof {
            if v[0] == a {
                assert(v@ =~= seq![a, b].take(1));
            } else {
                assert(v@ != seq![a, b].take(1));
            }
        }
        v[0] == a
    } else if v.len() == 2 {
        proof {
            if v[0] == a && v[1] == b {
                assert(v@ =~= seq![a, b]);
            } else {
                assert(v@ != seq![a, b]);
            }
        }
        v[0] == a && v[1] == b
    } else {
        false
    }
}

/// Whether `v` is exactly the two-character code `ab`.
fn is_code(v: &Vec<char>, a: char, b: char) -> (r: bool)
    ensures
        r == (v@ == seq![a, b]),
{
    proof {
        if v@.len() == 2 && v@[0] == a && v@[1] == b {
            assert(v@ =~= seq![a, b]);
        }
    }
    v.len() == 2 && v[0] == a && v[1] == b
}

/// The points of one round code; `None` when the code does not end in a
/// response character.
pub fn calculate_points(code: &Vec<char>) -> (r: Option<i32>)
    ensures
        match r {
            Some(p) => round_points(code@) == Some(p as int),
            None => round_points(code@) is None,
        },
{
    if code.len() == 0 {
        return None;
    }
    let last = code[code.len() - 1];
    let base: i32 = if last == 'X' {
        1
    } else if last == 'Y' {
        2
    } else if last == 'Z' {
        3
    } else {
        return None;
    };
    let bonus: i32 = if is_code(code, 'C', 'X') || is_code(code, 'A', 'Y') || is_code(
        code,
        'B',
        'Z',
    ) {
        6
    } else if is_code(code, 'A', 'X') || is_code(code, 'B', 'Y') || is_code(code, 'C', 'Z') {
        3
    } else {
        0
    };
    Some(base + bonus)
}

/// Concatenate the two tokens of a pair.
fn join_pair(s1: &Vec<char>, s2: &Vec<char>) -> (r: Vec<char>)
    ensures
        r@ == s1@ + s2@,
{
    let mut r = s1.clone();
    let mut k: usize = 0;
    while k < s2.len()
        invariant
            k <= s2.len(),
            r@ == s1@ + s2@.take(k as int),
        decreases s2.len() - k,
    {
        r.push(s2[k]);
        proof {
            assert(s1@ + s2@.take(k + 1) =~= (s1@ + s2@.take(k as int)).push(s2@[k as int]));
        }
        k = k + 1;
    }
    proof {
        assert(s2@.take(s2@.len() as int) =~= s2@);
    }
    r
}

/// Total both interpretations of the strategy guide: `None` exactly when a
/// line lacks two tokens or a round cannot be scored.
pub fn solution(contents: &str) -> (r: Option<(String, String)>)
    requires
        total1(day2_pairs(contents@)) <= i32::MAX,
        total2(day2_pairs(contents@)) <= i32::MAX,
    ensures
        r is Some <==> day2_input_ok(contents@),
        r is Some ==> ({
            let ps = day2_pairs(contents@);
            &&& r->Some_0.0@ == dec_nat(total1(ps))
            &&& r->Some_0.1@ == dec_nat(total2(ps))
        }),
{
    let ghost ps = day2_pairs(contents@);
    let vector = match parser(contents) {
        Some(v) => v,
        None => {
            proof {
                assert(!day2_input_ok(contents@));
            }
            return None;
        },
    };
    let mut result1: i32 = 0;
    let mut result2: i32 = 0;
    let mut j: usize = 0;
    proof {
        assert(ps.take(0) =~= Seq::<(Seq<char>, Seq<char>)>::empty());
    }
    while j < vector.len()
        invariant
            j <= vector.len(),
            ps == day2_pairs(contents@),
            total1(ps) <= i32::MAX && total2(ps) <= i32::MAX,
            vector@.len() == ps.len(),
            forall|k: int| 0 <= k < ps.len() ==> (#[trigger] vector@[k].0@, vector@[k].1@) == ps[k],
            forall|k: int|
                0 <= k < line_seqs(contents@).len() ==> split_ws(
                    #[trigger] line_seqs(contents@)[k],
                ).len() >= 2,
            forall|k: int|
                0 <= k < j ==> points1(#[trigger] ps[k]) is Some && points2(ps[k]) is Some,
            result1 == total1(ps.take(j as int)),
            result2 == total2(ps.take(j as int)),
        decreases vector.len() - j,
    {
        let (s1, s2) = &vector[j];
        let code = join_pair(s1, s2);
        let p1 = match calculate_points(&code) {
            Some(p) => p,
            None => {
                proof {
                    assert(points1(ps[j as int]) is None);
                    assert(!day2_input_ok(contents@));
                }
                return None;
            },
        };
        let lst: Option<((char, char), (char, char), (char, char))> = if s2.len() == 1 && s2[0]
            == 'X' {
            Some((('B', 'X'), ('C', 'Y'), ('A', 'Z')))
        } else if s2.len() == 1 && s2[0] == 'Y' {
            Some((('A', 'X'), ('B', 'Y'), ('C', 'Z')))
        } else if s2.len() == 1 && s2[0] == 'Z' {
            Some((('C', 'X'), ('A', 'Y'), ('B', 'Z')))
        } else {
            None
        };
        proof {
            assert((vector@[j as int].0@, vector@[j as int].1@) == ps[j as int]);
            assert(s1@ == ps[j as int].0);
            assert(s2@ == ps[j as int].1);
            if s2@.len() == 1 {
                if s2@[0] == 'X' {
                    assert(s2@ =~= seq!['X']);
                } else if s2@[0] == 'Y' {
                    assert(s2@ =~= seq!['Y']);
                } else if s2@[0] == 'Z' {
                    assert(s2@ =~= seq!['Z']);
                }
            }
            assert(s2@ != seq!['X'] || (s2@.len() == 1 && s2@[0] == 'X'));
        }
        let (c0, c1, c2) = match lst {
            Some(t) => t,
            None => {
                proof {
                    assert(outcome_codes(s2@) is None);
                    assert(points2(ps[j as int]) is None);
                    assert(!day2_input_ok(contents@));
                }
                return None;
            },
        };
        let ghost codes = outcome_codes(s2@)->Some_0;
        proof {
            assert(codes == seq![seq![c0.0, c0.1], seq![c1.0, c1.1], seq![c2.0, c2.1]]);
            assert(codes.drop_first() =~= seq![seq![c1.0, c1.1], seq![c2.0, c2.1]]);
            assert(codes.drop_first().drop_first() =~= seq![seq![c2.0, c2.1]]);
            assert(codes.drop_first().drop_first().drop_first() =~= Seq::<Seq<char>>::empty());
        }
        let code2: Vec<char> = if starts_code(s1, c0.0, c0.1) {
            let mut v: Vec<char> = Vec::new();
            v.push(c0.0);
            v.push(c0.1);
            proof {
                assert(v@ =~= seq![c0.0, c0.1]);
                assert(pick_code(codes, s1@) == Some(codes[0]));
            }
            v
        } else if starts_code(s1, c1.0, c1.1) {
            let mut v: Vec<char> = Vec::new();
            v.push(c1.0);
            v.push(c1.1);
            proof {
                assert(v@ =~= seq![c1.0, c1.1]);
                assert(pick_code(codes.drop_first(), s1@) == Some(codes.drop_first()[0]));
                assert(pick_code(codes, s1@) == Some(codes[1]));
            }
            v
        } else if starts_code(s1, c2.0, c2.1) {
            let mut v: Vec<char> = Vec::new();
            v.push(c2.0);
            v.push(c2.1);
            proof {
                assert(v@ =~= seq![c2.0, c2.1]);
                assert(pick_code(codes.drop_first().drop_first(), s1@) == Some(
                    codes.drop_first().drop_first()[0],
                ));
                assert(pick_code(codes.drop_first(), s1@) == Some(codes.drop_first()[1]));
                assert(pick_code(codes, s1@) == Some(codes[2]));
            }
            v
        } else {
            proof {
                assert(pick_code(codes.drop_first().drop_first().drop_first(), s1@) is None);
                assert(pick_code(codes.drop_first().drop_first(), s1@) is None);
                assert(pick_code(codes.drop_first(), s1@) is None);
                assert(pick_code(codes, s1@) is None);
                assert(points2(ps[j as int]) is None);
                assert(!day2_input_ok(contents@));
            }
            return None;
        };
        proof {
            assert(code2@ =~= second_code(ps[j as int])->Some_0);
        }
        let p2 = match calculate_points(&code2) {
            Some(p) => p,
            None => {
                proof {
                    assert(points2(ps[j as int]) is None);
                    assert(!day2_input_ok(contents@));
                }
                return None;
            },
        };
        proof {
            assert(ps.take(j + 1).drop_last() =~= ps.take(j as int));
            assert(ps.take(j + 1).last() == ps[j as int]);
            lemma_total1_bounds(ps, j + 1);
            lemma_round_points_range(code@);
            lemma_round_points_range(code2@);
        }
        result1 = result1 + p1;
        result2 = result2 + p2;
        j = j + 1;
    }
    proof {
        assert(ps.take(vector@.len() as int) =~= ps);
        lemma_total1_prefix_nonneg(ps);
    }
    Some((i64_string(result1 as i64), i64_string(result2 as i64)))
}

} // verus!
