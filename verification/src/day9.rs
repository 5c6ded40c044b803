use crate::text::{all_digits, chars_of, dec_nat, digits_val, lemma_deep_view_chars, line_seqs};
use crate::text::{parse_u64, split_lines, subvec, usize_string};
use vstd::prelude::*;

verus! {

/// A grid position.
pub type Position = (i64, i64);

/// One knot: where it is, and every position it has occupied, each recorded
/// once.
pub struct Knot {
    pub pos: Position,
    pub path_set: Vec<Position>,
}

/// A rope: its knots, head first.
pub struct Rope {
    pub knots: Vec<Knot>,
}

/// A knot as a pair: position and visited positions.
pub type KnotV = (Position, Seq<Position>);

pub open spec fn kview(k: Knot) -> KnotV {
    (k.pos, k.path_set@)
}

pub open spec fn rview(r: Rope) -> Seq<KnotV> {
    r.knots@.map_values(|k: Knot| kview(k))
}

/// No position is recorded twice.
pub open spec fn distinct_positions(s: Seq<Position>) -> bool {
    forall|i: int, j: int| 0 <= i < j < s.len() ==> s[i] != s[j]
}

/// Every knot's visited set is duplicate-free.
pub open spec fn rope_wf(ks: Seq<KnotV>) -> bool {
    forall|i: int| 0 <= i < ks.len() ==> distinct_positions((#[trigger] ks[i]).1)
}

/// All coordinates lie within `b` of the origin.
pub open spec fn rope_bounded(ks: Seq<KnotV>, b: int) -> bool {
    forall|i: int|
        0 <= i < ks.len() ==> -b <= (#[trigger] ks[i]).0.0 <= b && -b <= ks[i].0.1 <= b
}

pub open spec fn sgn(x: int) -> int {
    if x > 0 {
        1
    } else if x < 0 {
        -1
    } else {
        0
    }
}

pub open spec fn iabs(x: int) -> int {
    if x >= 0 {
        x
    } else {
        -x
    }
}

/// Where a tail knot at `t` ends up behind a head at `h`: it steps one unit
/// toward the head (diagonally when needed) only when they are not touching.
pub open spec fn follow(t: Position, h: Position) -> Position {
    let dx = h.0 - t.0;
    let dy = h.1 - t.1;
    if iabs(dy) > 1 || iabs(dx) > 1 {
        ((t.0 + sgn(dx)) as i64, (t.1 + sgn(dy)) as i64)
    } else {
        t
    }
}

/// A position added to the visited set unless already there.
pub open spec fn add_pos(path: Seq<Position>, p: Position) -> Seq<Position> {
    if path.contains(p) {
        path
    } else {
        path.push(p)
    }
}

/// The rope after the knots from index `i` on each follow their predecessor
/// in turn, every one recording where it stands.
pub open spec fn pull_from(ks: Seq<KnotV>, i: int) -> Seq<KnotV>
    decreases ks.len() - i,
{
    if i < 1 || i >= ks.len() {
        ks
    } else {
        let t = follow(ks[i].0, ks[i - 1].0);
        pull_from(ks.update(i, (t, add_pos(ks[i].1, t))), i + 1)
    }
}

/// The head moved one unit in direction `dir`.
pub open spec fn head_step(ks: Seq<KnotV>, dir: char) -> Seq<KnotV> {
    let p = ks[0].0;
    let np: Position = if dir == 'U' {
        (p.0, (p.1 + 1) as i64)
    } else if dir == 'D' {
        (p.0, (p.1 - 1) as i64)
    } else if dir == 'L' {
        ((p.0 - 1) as i64, p.1)
    } else {
        ((p.0 + 1) as i64, p.1)
    };
    ks.update(0, (np, ks[0].1))
}

/// The rope after `n` single steps in direction `dir`, the tail pulled after
/// each step.
pub open spec fn move_spec(ks: Seq<KnotV>, dir: char, n: int) -> Seq<KnotV>
    decreases n,
{
    if n <= 0 {
        ks
    } else {
        move_spec(pull_from(head_step(ks, dir), 1), dir, n - 1)
    }
}

/// Whether `v` holds `p`.
fn contains_pos(v: &Vec<Position>, p: Position) -> (r: bool)
    ensures
        r == v@.contains(p),
{
    let mut k: usize = 0;
    while k < v.len()
        invariant
            k <= v@.len(),
            forall|m: int| 0 <= m < k ==> v@[m] != p,
        decreases v.len() - k,
    {
        if v[k].0 == p.0 && v[k].1 == p.1 {
            proof {
                assert(v@[k as int] == p);
            }
            return true;
        }
        k = k + 1;
    }
    false
}

impl Rope {
    /// A rope of `knots` knots, all at the origin, each having visited only
    /// the origin.
    pub fn start(knots: u32) -> (r: Rope)
        ensures
            rview(r).len() == knots,
            forall|i: int|
                0 <= i < knots ==> #[trigger] rview(r)[i] == (
                    (0i64, 0i64),
                    seq![(0i64, 0i64)],
                ),
            rope_wf(rview(r)),
            rope_bounded(rview(r), 0),
    {
        let mut ks: Vec<Knot> = Vec::new();
        let mut i: u32 = 0;
        while i < knots
            invariant
                i <= knots,
                ks@.len() == i,
                forall|m: int|
                    0 <= m < i ==> #[trigger] kview(ks@[m]) == ((0i64, 0i64), seq![(0i64, 0i64)]),
            decreases knots - i,
        {
            let mut path: Vec<Position> = Vec::new();
            path.push((0, 0));
            let k = Knot { pos: (0, 0), path_set: path };
            proof {
                assert(k.path_set@ =~= seq![(0i64, 0i64)]);
            }
            ks.push(k);
            i = i + 1;
        }
        let r = Rope { knots: ks };
        proof {
            assert(forall|i: int| 0 <= i < knots ==> #[trigger] rview(r)[i] == kview(ks@[i]));
        }
        r
    }

    /// Pull every knot after the head toward its predecessor, in order, each
    /// recording its position.
    pub fn pull_tail(&mut self)
        requires
            rope_bounded(rview(*old(self)), 0x3000_0000_0000_0000),
        ensures
            rview(*final(self)) == pull_from(rview(*old(self)), 1),
            rope_wf(rview(*old(self))) ==> rope_wf(rview(*final(self))),
            forall|b: int|
                rope_bounded(rview(*old(self)), b) ==> rope_bounded(rview(*final(self)), b + 1),
    {
        let ghost ks0 = rview(*self);
        let mut i: usize = 1;
        while i < self.knots.len()
            invariant
                1 <= i,
                i <= self.knots@.len() || i == 1,
                self.knots@.len() == rview(*self).len(),
                pull_from(ks0, 1) == pull_from(rview(*self), i as int),
                rope_wf(ks0) ==> rope_wf(rview(*self)),
                rope_bounded(ks0, 0x3000_0000_0000_0000),
                rope_bounded(rview(*self), 0x3000_0000_0000_0001),
                forall|b: int| rope_bounded(ks0, b) ==> rope_bounded(rview(*self), b + 1),
                rview(*self).len() == ks0.len(),
            decreases self.knots.len() - i,
        {
            let ghost pre = rview(*self);
            let head_pos = self.knots[i - 1].pos;
            let tail_pos = self.knots[i].pos;
            proof {
                assert(pre[i - 1].0 == head_pos && pre[i as int].0 == tail_pos);
            }
            let dx = head_pos.0 - tail_pos.0;
            let dy = head_pos.1 - tail_pos.1;
            let ghost spec_target = follow(tail_pos, head_pos);
            let newpos: Position = if (dy > 1 || dy < -1) || (dx > 1 || dx < -1) {
                let sx: i64 = if dx > 0 {
                    1
                } else if dx < 0 {
                    -1
                } else {
                    0
                };
                let sy: i64 = if dy > 0 {
                    1
                } else if dy < 0 {
                    -1
                } else {
                    0
                };
                (tail_pos.0 + sx, tail_pos.1 + sy)
            } else {
                tail_pos
            };
            proof {
                assert(newpos == spec_target);
            }
            self.knots[i].pos = newpos;
            if !contains_pos(&self.knots[i].path_set, newpos) {
                self.knots[i].path_set.push(newpos);
            }
            proof {
                let cur = rview(*self);
                assert(cur =~~= pre.update(
                    i as int,
                    (spec_target, add_pos(pre[i as int].1, spec_target)),
                ));
                assert(pull_from(pre, i as int) == pull_from(cur, i + 1));
                assert(rope_wf(ks0) ==> rope_wf(cur)) by {
                    if rope_wf(ks0) {
                        assert forall|m: int| 0 <= m < cur.len() implies distinct_positions(
                            (#[trigger] cur[m]).1,
                        ) by {
                            if m == i {
                                assert(distinct_positions(pre[m].1));
                                if !pre[m].1.contains(spec_target) {
                                    assert(forall|q: int|
                                        0 <= q < pre[m].1.len() ==> pre[m].1[q] != spec_target);
                                }
                            }
                        }
                    }
                }
            }
            i = i + 1;
        }
        proof {
            assert(pull_from(rview(*self), i as int) == rview(*self));
        }
    }

    /// Move the head `cmd`'s distance in `cmd`'s direction, one unit at a
    /// time, pulling the rest of the rope after every unit.
    pub fn move_head(&mut self, cmd: &str)
        requires
            day9_cmd_ok(cmd@),
            rview(*old(self)).len() > 0,
            rope_bounded(rview(*old(self)), 0x1000_0000_0000_0000),
            digits_val(cmd@.skip(2)) <= 0x0800_0000_0000_0000,
        ensures
            rview(*final(self)) == move_spec(
                rview(*old(self)),
                cmd@[0],
                digits_val(cmd@.skip(2)),
            ),
            rview(*final(self)).len() == rview(*old(self)).len(),
            rope_wf(rview(*old(self))) ==> rope_wf(rview(*final(self))),
            forall|b: int|
                rope_bounded(rview(*old(self)), b) ==> rope_bounded(
                    rview(*final(self)),
                    b + 2 * digits_val(cmd@.skip(2)),
                ),
    {
        let v = chars_of(cmd);
        self.move_head_chars(&v);
    }

    /// Move the head as `move_head` does, the motion given as characters.
    pub fn move_head_chars(&mut self, cmd: &Vec<char>)
        requires
            day9_cmd_ok(cmd@),
            rview(*old(self)).len() > 0,
            rope_bounded(rview(*old(self)), 0x1000_0000_0000_0000),
            digits_val(cmd@.skip(2)) <= 0x0800_0000_0000_0000,
        ensures
            rview(*final(self)) == move_spec(
                rview(*old(self)),
                cmd@[0],
                digits_val(cmd@.skip(2)),
            ),
            rview(*final(self)).len() == rview(*old(self)).len(),
            rope_wf(rview(*old(self))) ==> rope_wf(rview(*final(self))),
            forall|b: int|
                rope_bounded(rview(*old(self)), b) ==> rope_bounded(
                    rview(*final(self)),
                    b + 2 * digits_val(cmd@.skip(2)),
                ),
    {
        let v = cmd;
        let direction = v[0];
        let rest = subvec(v, 2, v.len());
        proof {
            assert(rest@ =~= cmd@.skip(2));
        }
        let distance = match parse_u64(&rest) {
            Some(n) => n,
            None => {
                proof {
                    assert(false);
                }
                0
            },
        };
        let ghost ks0 = rview(*self);
        let ghost n = digits_val(cmd@.skip(2));
        let mut step: u64 = 0;
        while step < distance
            invariant
                step <= distance,
                distance == n,
                day9_cmd_ok(cmd@),
                direction == cmd@[0],
                rview(*self).len() == ks0.len(),
                ks0.len() > 0,
                move_spec(ks0, direction, n as int) == move_spec(
                    rview(*self),
                    direction,
                    n - step,
                ),
                rope_wf(ks0) ==> rope_wf(rview(*self)),
                forall|b: int| rope_bounded(ks0, b) ==> rope_bounded(rview(*self), b + 2 * step),
                rope_bounded(ks0, 0x1000_0000_0000_0000),
                n <= 0x0800_0000_0000_0000,
            decreases distance - step,
        {
            let ghost pre = rview(*self);
            let p = self.knots[0].pos;
            proof {
                assert(rope_bounded(pre, 0x1000_0000_0000_0000 + 2 * step));
                assert(-0x2000_0000_0000_0000 <= p.0 <= 0x2000_0000_0000_0000);
                assert(-0x2000_0000_0000_0000 <= p.1 <= 0x2000_0000_0000_0000);
            }
            let np: Position = if direction == 'U' {
                (p.0, p.1 + 1)
            } else if direction == 'D' {
                (p.0, p.1 - 1)
            } else if direction == 'L' {
                (p.0 - 1, p.1)
            } else {
                (p.0 + 1, p.1)
            };
            self.knots[0].pos = np;
            proof {
                assert(rview(*self) =~~= head_step(pre, direction));
                assert forall|b: int| rope_bounded(pre, b) implies rope_bounded(
                    rview(*self),
                    b + 1,
                ) by {
                    if rope_bounded(pre, b) {
                        assert forall|m: int|
                            0 <= m < rview(*self).len() implies -(b + 1) <= (#[trigger] rview(
                            *self,
                        )[m]).0.0 <= b + 1 && -(b + 1) <= rview(*self)[m].0.1 <= b + 1 by {
                            assert(-b <= pre[m].0.0 <= b && -b <= pre[m].0.1 <= b);
                        }
                    }
                }
            }
            proof {
                lemma_bounded_mono(
                    rview(*self),
                    0x1000_0000_0000_0000 + 2 * step + 1,
                    0x3000_0000_0000_0000,
                );
            }
            self.pull_tail();
            proof {
                lemma_pull_keeps_len(head_step(pre, direction), 1);
            }
            step = step + 1;
        }
    }

    /// The last knot, if any.
    pub fn tail(&self) -> (r: Option<&Knot>)
        ensures
            r is Some <==> self.knots@.len() > 0,
            r is Some ==> kview(*r->Some_0) == rview(*self).last(),
    {
        if self.knots.len() == 0 {
            None
        } else {
            Some(&self.knots[self.knots.len() - 1])
        }
    }
}

proof fn lemma_pull_keeps_len(ks: Seq<KnotV>, i: int)
    ensures
        pull_from(ks, i).len() == ks.len(),
    decreases ks.len() - i,
{
    if 1 <= i < ks.len() {
        let t = follow(ks[i].0, ks[i - 1].0);
        lemma_pull_keeps_len(ks.update(i, (t, add_pos(ks[i].1, t))), i + 1);
    }
}

/// The difference of two positions.
pub fn delta_pos(pos1: Position, pos2: Position) -> (r: Position)
    requires
        i64::MIN <= pos2.0 - pos1.0 <= i64::MAX,
        i64::MIN <= pos2.1 - pos1.1 <= i64::MAX,
    ensures
        r == ((pos2.0 - pos1.0) as i64, (pos2.1 - pos1.1) as i64),
{
    (pos2.0 - pos1.0, pos2.1 - pos1.1)
}

/// Whether one motion line is well-formed: a direction letter, a space, and
/// a distance that fits `i32`.
pub open spec fn day9_cmd_ok(l: Seq<char>) -> bool {
    &&& l.len() >= 3
    &&& (l[0] == 'U' || l[0] == 'D' || l[0] == 'L' || l[0] == 'R')
    &&& all_digits(l.skip(2))
    &&& digits_val(l.skip(2)) <= i32::MAX
}

/// Whether every line of the input is a well-formed motion.
pub open spec fn day9_ok(s: Seq<char>) -> bool {
    forall|k: int| 0 <= k < line_seqs(s).len() ==> day9_cmd_ok(#[trigger] line_seqs(s)[k])
}

/// The total distance over the lines from `j` on.
pub open spec fn total_distance(ls: Seq<Seq<char>>, j: int) -> int
    decreases ls.len() - j,
{
    if j < 0 || j >= ls.len() {
        0
    } else {
        digits_val(ls[j].skip(2)) + total_distance(ls, j + 1)
    }
}

/// The rope after every motion line from `j` on.
pub open spec fn run_cmds(ks: Seq<KnotV>, ls: Seq<Seq<char>>, j: int) -> Seq<KnotV>
    decreases ls.len() - j,
{
    if j < 0 || j >= ls.len() {
        ks
    } else {
        run_cmds(move_spec(ks, ls[j][0], digits_val(ls[j].skip(2))), ls, j + 1)
    }
}

/// The rope every knot starts with: `n` knots at the origin.
pub open spec fn start_rope(n: int) -> Seq<KnotV> {
    Seq::new(n as nat, |i: int| (((0i64, 0i64), seq![(0i64, 0i64)])))
}

proof fn lemma_total_distance_nonneg(ls: Seq<Seq<char>>, j: int)
    requires
        forall|k: int| 0 <= k < ls.len() ==> day9_cmd_ok(#[trigger] ls[k]),
    ensures
        total_distance(ls, j) >= 0,
    decreases ls.len() - j,
{
    if 0 <= j < ls.len() {
        lemma_total_distance_nonneg(ls, j + 1);
        crate::text::lemma_digits_val_nonneg(ls[j].skip(2));
    }
}

/// Run the motions over a two-knot rope and a ten-knot rope and report how
/// many positions each tail visited; `None` exactly when a line is not a
/// well-formed motion.
pub fn solution(contents: &str) -> (r: Option<(String, String)>)
    requires
        day9_ok(contents@) ==> total_distance(line_seqs(contents@), 0) <= 0x0800_0000_0000_0000,
    ensures
        r is Some <==> day9_ok(contents@),
        r is Some ==> ({
            let ld = line_seqs(contents@);
            &&& r->Some_0.0@ == dec_nat(run_cmds(start_rope(2), ld, 0).last().1.len() as int)
            &&& r->Some_0.1@ == dec_nat(run_cmds(start_rope(10), ld, 0).last().1.len() as int)
        }),
{
    let ghost ld = line_seqs(contents@);
    let chars = chars_of(contents);
    let lines = split_lines(&chars);
    proof {
        lemma_deep_view_chars(&lines);
    }
    let mut j: usize = 0;
    while j < lines.len()
        invariant
            j <= lines@.len(),
            ld == line_seqs(contents@),
            lines@.len() == ld.len(),
            forall|i: int| 0 <= i < lines@.len() ==> #[trigger] lines@[i]@ == ld[i],
            forall|k: int| 0 <= k < j ==> day9_cmd_ok(#[trigger] ld[k]),
        decreases lines.len() - j,
    {
        let l = &lines[j];
        if l.len() < 3 {
            return None;
        }
        let d = l[0];
        if !(d == 'U' || d == 'D' || d == 'L' || d == 'R') {
            return None;
        }
        let rest = subvec(l, 2, l.len());
        proof {
            assert(rest@ =~= ld[j as int].skip(2));
        }
        match parse_u64(&rest) {
            Some(n) => {
                if n > i32::MAX as u64 {
                    return None;
                }
            },
            None => {
                return None;
            },
        }
        j = j + 1;
    }
    let mut rope = Rope::start(2);
    let mut rope_with_ten_knots = Rope::start(10);
    proof {
        assert(rview(rope) =~= start_rope(2));
        assert(rview(rope_with_ten_knots) =~= start_rope(10));
        lemma_total_distance_nonneg(ld, 0);
    }
    let mut k: usize = 0;
    while k < lines.len()
        invariant
            k <= lines@.len(),
            ld == line_seqs(contents@),
            lines@.len() == ld.len(),
            forall|i: int| 0 <= i < lines@.len() ==> #[trigger] lines@[i]@ == ld[i],
            forall|i: int| 0 <= i < ld.len() ==> day9_cmd_ok(#[trigger] ld[i]),
            total_distance(ld, 0) <= 0x1000_0000_0000_0000,
            total_distance(ld, 0) <= 0x0800_0000_0000_0000,
            run_cmds(start_rope(2), ld, 0) == run_cmds(rview(rope), ld, k as int),
            run_cmds(start_rope(10), ld, 0) == run_cmds(rview(rope_with_ten_knots), ld, k as int),
            rview(rope).len() == 2,
            rview(rope_with_ten_knots).len() == 10,
            rope_wf(rview(rope)),
            rope_wf(rview(rope_with_ten_knots)),
            rope_bounded(
                rview(rope),
                2 * (total_distance(ld, 0) - total_distance(ld, k as int)),
            ),
            rope_bounded(
                rview(rope_with_ten_knots),
                2 * (total_distance(ld, 0) - total_distance(ld, k as int)),
            ),
        decreases lines.len() - k,
    {
        let ghost pre2 = rview(rope);
        let ghost pre10 = rview(rope_with_ten_knots);
        proof {
            lemma_total_distance_nonneg(ld, k as int);
            lemma_total_distance_nonneg(ld, k + 1);
            crate::text::lemma_digits_val_nonneg(ld[k as int].skip(2));
            assert(digits_val(ld[k as int].skip(2)) <= total_distance(ld, k as int));
            assert(total_distance(ld, k as int) <= total_distance(ld, 0)) by {
                lemma_total_distance_split(ld, k as int);
            }
            assert(rope_bounded(pre2, 0x1000_0000_0000_0000)) by {
                lemma_bounded_mono(
                    pre2,
                    2 * (total_distance(ld, 0) - total_distance(ld, k as int)),
                    0x1000_0000_0000_0000,
                );
            }
            assert(rope_bounded(pre10, 0x1000_0000_0000_0000)) by {
                lemma_bounded_mono(
                    pre10,
                    2 * (total_distance(ld, 0) - total_distance(ld, k as int)),
                    0x1000_0000_0000_0000,
                );
            }
        }
        rope.move_head_chars(&lines[k]);
        rope_with_ten_knots.move_head_chars(&lines[k]);
        proof {
            assert(run_cmds(start_rope(2), ld, 0) == run_cmds(rview(rope), ld, k + 1));
            assert(run_cmds(start_rope(10), ld, 0) == run_cmds(
                rview(rope_with_ten_knots),
                ld,
                k + 1,
            ));
        }
        k = k + 1;
    }
    let result1 = rope.tail().unwrap().path_set.len();
    let result2 = rope_with_ten_knots.tail().unwrap().path_set.len();
    Some((usize_string(result1), usize_string(result2)))
}

/// The total from position `k` never exceeds the total from the start.
proof fn lemma_total_distance_split(ls: Seq<Seq<char>>, k: int)
    requires
        forall|m: int| 0 <= m < ls.len() ==> day9_cmd_ok(#[trigger] ls[m]),
        0 <= k <= ls.len(),
    ensures
        total_distance(ls, k) <= total_distance(ls, 0),
    decreases k,
{
    if k > 0 {
        lemma_total_distance_split(ls, k - 1);
        crate::text::lemma_digits_val_nonneg(ls[k - 1].skip(2));
    }
}

proof fn lemma_bounded_mono(ks: Seq<KnotV>, a: int, b: int)
    requires
        rope_bounded(ks, a),
        a <= b,
    ensures
        rope_bounded(ks, b),
{
}

} // verus!
