use crate::text::{all_digits, chars_of, chars_to_string, digits_val, is_digit};
use crate::text::{lemma_deep_view_chars, line_seqs, parse_u64, split_lines, subvec};
use vstd::prelude::*;

verus! {

/// A move: how many crates, the source stack, the target stack.
pub type Operation = (usize, usize, usize);

/// Stacks extended with empty stacks until there are at least `n`.
pub open spec fn pad_stacks(cs: Seq<Seq<char>>, n: int) -> Seq<Seq<char>>
    decreases n - cs.len(),
{
    if cs.len() >= n {
        cs
    } else {
        pad_stacks(cs.push(Seq::empty()), n)
    }
}

/// One crate letter added to stack `idx`, extending the stacks as needed.
pub open spec fn add_crate(cs: Seq<Seq<char>>, idx: int, c: char) -> Seq<Seq<char>> {
    let p = pad_stacks(cs, idx + 1);
    p.update(idx, p[idx].push(c))
}

/// The stacks after reading a picture line from position `i` on: each
/// character that follows a `[` lands on the stack its column names.
pub open spec fn apply_crate_line(l: Seq<char>, cs: Seq<Seq<char>>, i: int) -> Seq<Seq<char>>
    decreases l.len() - i,
{
    if i < 0 || i >= l.len() {
        cs
    } else if i >= 1 && l[i - 1] == '[' {
        apply_crate_line(l, add_crate(cs, (i + 3) / 4, l[i]), i + 1)
    } else {
        apply_crate_line(l, cs, i + 1)
    }
}

/// The stacks built by reading the picture lines bottom line first.
pub open spec fn crates_built(ls: Seq<Seq<char>>) -> Seq<Seq<char>>
    decreases ls.len(),
{
    if ls.len() == 0 {
        Seq::empty()
    } else {
        apply_crate_line(ls[0], crates_built(ls.drop_first()), 0)
    }
}

proof fn lemma_pad_stacks_len(cs: Seq<Seq<char>>, n: int)
    ensures
        pad_stacks(cs, n).len() >= n,
        pad_stacks(cs, n).len() >= cs.len(),
        forall|k: int| 0 <= k < cs.len() ==> #[trigger] pad_stacks(cs, n)[k] == cs[k],
        forall|k: int| cs.len() <= k < pad_stacks(cs, n).len() ==> #[trigger] pad_stacks(cs, n)[k]
            =~= Seq::<char>::empty(),
    decreases n - cs.len(),
{
    if cs.len() < n {
        lemma_pad_stacks_len(cs.push(Seq::empty()), n);
    }
}

/// Read one line of the crate picture into the stacks: each letter after a
/// `[` is pushed on the stack named by its column.
pub fn parse_crate_line(l: &str, crates: &mut Vec<Vec<char>>)
    ensures
        final(crates).deep_view() == apply_crate_line(l@, old(crates).deep_view(), 0),
{
    let v = chars_of(l);
    let ghost cs0 = crates.deep_view();
    let mut is_crate_item = false;
    let mut i: usize = 0;
    while i < v.len()
        invariant
            i <= v.len(),
            v@ == l@,
            is_crate_item == (i >= 1 && l@[i - 1] == '['),
            apply_crate_line(l@, cs0, 0) == apply_crate_line(l@, crates.deep_view(), i as int),
        decreases v.len() - i,
    {
        let c = v[i];
        if is_crate_item {
            let crate_idx = (i - 1) / 4 + 1;
            proof {
                assert(crate_idx == (i + 3) / 4);
                lemma_pad_stacks_len(crates.deep_view(), crate_idx + 1);
            }
            let ghost before_pad = crates.deep_view();
            while crates.len() < crate_idx + 1
                invariant
                    crate_idx <= usize::MAX / 4 + 1,
                    pad_stacks(before_pad, crate_idx + 1) == pad_stacks(
                        crates.deep_view(),
                        crate_idx + 1,
                    ),
                    crates.deep_view().len() >= before_pad.len(),
                decreases crate_idx + 1 - crates.len(),
            {
                let ghost pre = crates.deep_view();
                crates.push(Vec::new());
                proof {
                    assert(crates.deep_view() =~~= pre.push(Seq::empty()));
                }
            }
            proof {
                lemma_pad_stacks_len(crates.deep_view(), crate_idx + 1);
                assert(crates.deep_view() =~~= pad_stacks(before_pad, crate_idx + 1));
            }
            let ghost padded = crates.deep_view();
            crates[crate_idx].push(c);
            proof {
                assert(crates.deep_view() =~~= padded.update(
                    crate_idx as int,
                    padded[crate_idx as int].push(c),
                ));
                assert(crates.deep_view() =~~= add_crate(before_pad, crate_idx as int, c));
            }
        }
        is_crate_item = c == '[';
        i = i + 1;
    }
}

/// Index of the first non-digit character, or `s.len()` if all are digits.
pub open spec fn nondigit_pos(s: Seq<char>) -> nat
    decreases s.len(),
{
    if s.len() == 0 {
        0
    } else if !is_digit(s[0]) {
        0
    } else {
        1 + nondigit_pos(s.drop_first())
    }
}

proof fn lemma_nondigit_pos(s: Seq<char>)
    ensures
        nondigit_pos(s) <= s.len(),
        nondigit_pos(s) < s.len() ==> !is_digit(s[nondigit_pos(s) as int]),
        forall|k: int| 0 <= k < nondigit_pos(s) ==> is_digit(s[k]),
    decreases s.len(),
{
    if s.len() > 0 && is_digit(s[0]) {
        lemma_nondigit_pos(s.drop_first());
        assert forall|k: int| 0 <= k < nondigit_pos(s) implies is_digit(s[k]) by {
            if k > 0 {
                assert(is_digit(s.drop_first()[k - 1]));
            }
        }
    }
}

/// The maximal runs of consecutive digits in `s`, in order.
pub open spec fn digit_runs(s: Seq<char>) -> Seq<Seq<char>>
    decreases s.len(),
{
    if s.len() == 0 {
        Seq::empty()
    } else if !is_digit(s[0]) {
        digit_runs(s.drop_first())
    } else {
        let t = nondigit_pos(s);
        if t >= s.len() {
            seq![s]
        } else {
            seq![s.take(t as int)] + digit_runs(s.skip(t as int))
        }
    }
}

/// Whether `c` is a decimal digit.
fn digit_char(c: char) -> (r: bool)
    ensures
        r == is_digit(c),
{
    let u = c as u32;
    48 <= u && u <= 57
}

/// The maximal digit runs of `v`, in order.
pub fn find_digit_runs(v: &Vec<char>) -> (r: Vec<Vec<char>>)
    ensures
        r.deep_view() == digit_runs(v@),
{
    let mut r: Vec<Vec<char>> = Vec::new();
    let mut pos: usize = 0;
    proof {
        assert(v@.skip(0) =~= v@);
        assert(r.deep_view() + digit_runs(v@.skip(0)) =~~= digit_runs(v@));
    }
    while pos < v.len()
        invariant
            pos <= v.len(),
            digit_runs(v@) == r.deep_view() + digit_runs(v@.skip(pos as int)),
        decreases v.len() - pos,
    {
        let ghost tail = v@.skip(pos as int);
        if !digit_char(v[pos]) {
            proof {
                assert(digit_runs(tail) == digit_runs(tail.drop_first()));
                assert(tail.drop_first() =~= v@.skip(pos + 1));
            }
            pos = pos + 1;
        } else {
            let mut e: usize = pos;
            while e < v.len() && digit_char(v[e])
                invariant
                    pos <= e <= v.len(),
                    tail == v@.skip(pos as int),
                    forall|k: int| pos <= k < e ==> is_digit(#[trigger] v@[k]),
                    nondigit_pos(tail) >= e - pos,
                decreases v.len() - e,
            {
                e = e + 1;
                proof {
                    lemma_nondigit_pos(tail);
                    assert(forall|k: int|
                        0 <= k < e - pos ==> tail[k] == v@[pos + k] && is_digit(tail[k]));
                    if nondigit_pos(tail) < e - pos {
                        assert(!is_digit(tail[nondigit_pos(tail) as int]));
                    }
                }
            }
            proof {
                lemma_nondigit_pos(tail);
                if e < v.len() {
                    assert(tail[e - pos] == v@[e as int]);
                    assert(!is_digit(tail[e - pos]));
                }
                assert(nondigit_pos(tail) == e - pos);
                assert(tail.take(e - pos) =~= v@.subrange(pos as int, e as int));
            }
            let piece = subvec(v, pos, e);
            let ghost old_r = r.deep_view();
            r.push(piece);
            proof {
                assert(r.deep_view() =~~= old_r + seq![piece@]);
                if e == v.len() {
                    assert(tail.take(e - pos) =~= tail);
                    assert(digit_runs(tail) == seq![tail]);
                    assert(v@.skip(e as int) =~= Seq::<char>::empty());
                    assert(digit_runs(v@) =~~= r.deep_view() + digit_runs(v@.skip(e as int)));
                } else {
                    assert(digit_runs(tail) == seq![tail.take(e - pos)] + digit_runs(
                        tail.skip(e - pos),
                    ));
                    assert(tail.skip(e - pos) =~= v@.skip(e as int));
                    assert(digit_runs(v@) =~~= (old_r + seq![piece@]) + digit_runs(
                        v@.skip(e as int),
                    ));
                }
            }
            pos = e;
        }
    }
    proof {
        assert(v@.skip(pos as int) =~= Seq::<char>::empty());
        assert(digit_runs(v@) =~~= r.deep_view());
    }
    r
}

/// Whether every digit run of `l` fits `usize` and there are at least three.
pub open spec fn op_line_ok(l: Seq<char>) -> bool {
    &&& digit_runs(l).len() >= 3
    &&& forall|k: int|
        0 <= k < digit_runs(l).len() ==> digits_val(#[trigger] digit_runs(l)[k]) <= usize::MAX
}

/// The move named by an operation line: its first three numbers.
pub open spec fn op_of(l: Seq<char>) -> Operation {
    (
        digits_val(digit_runs(l)[0]) as usize,
        digits_val(digit_runs(l)[1]) as usize,
        digits_val(digit_runs(l)[2]) as usize,
    )
}

/// Read the three numbers of a move line; `None` exactly when the line has
/// fewer than three numbers or one does not fit `usize`.
pub fn get_operation(l: &str) -> (r: Option<Operation>)
    ensures
        r is Some <==> op_line_ok(l@),
        r is Some ==> r->Some_0 == op_of(l@),
{
    let v = chars_of(l);
    op_from_chars(&v)
}

/// Every digit run is a non-empty string of digits.
proof fn lemma_digit_run_digits(s: Seq<char>, k: int)
    requires
        0 <= k < digit_runs(s).len(),
    ensures
        digit_runs(s)[k].len() > 0,
        all_digits(digit_runs(s)[k]),
    decreases s.len(),
{
    if s.len() > 0 {
        if !is_digit(s[0]) {
            lemma_digit_run_digits(s.drop_first(), k);
        } else {
            let t = nondigit_pos(s);
            lemma_nondigit_pos(s);
            if t >= s.len() {
                assert(forall|m: int| 0 <= m < s.len() ==> is_digit(s[m]));
            } else {
                if k == 0 {
                    assert(forall|m: int| 0 <= m < t ==> is_digit(#[trigger] s.take(t as int)[m]));
                } else {
                    lemma_digit_run_digits(s.skip(t as int), k - 1);
                }
            }
        }
    }
}

/// Index of the last empty line, or 0 when there is none.
pub open spec fn last_empty_line(lines: Seq<Seq<char>>) -> int
    decreases lines.len(),
{
    if lines.len() == 0 {
        0
    } else if lines.last().len() == 0 {
        lines.len() - 1
    } else {
        last_empty_line(lines.drop_last())
    }
}

proof fn lemma_last_empty_range(ls: Seq<Seq<char>>)
    ensures
        0 <= last_empty_line(ls),
        last_empty_line(ls) == 0 || last_empty_line(ls) < ls.len(),
        last_empty_line(ls) > 0 ==> ls[last_empty_line(ls)].len() == 0,
    decreases ls.len(),
{
    if ls.len() > 0 && ls.last().len() != 0 {
        lemma_last_empty_range(ls.drop_last());
        if last_empty_line(ls.drop_last()) > 0 {
            assert(ls.drop_last()[last_empty_line(ls)] == ls[last_empty_line(ls)]);
        }
    }
}

/// Index of the last empty line of `input`, or 0 when there is none.
pub fn find_start_of_operations(input: &str) -> (r: usize)
    ensures
        r == last_empty_line(line_seqs(input@)),
{
    let chars = chars_of(input);
    let lines = split_lines(&chars);
    let ghost ld = line_seqs(input@);
    proof {
        lemma_deep_view_chars(&lines);
    }
    let mut index: usize = 0;
    let mut j: usize = 0;
    proof {
        lemma_last_empty_take(ld, 0, 0);
    }
    while j < lines.len()
        invariant
            j <= lines.len(),
            ld == line_seqs(input@),
            lines@.len() == ld.len(),
            forall|i: int| 0 <= i < lines@.len() ==> #[trigger] lines@[i]@ == ld[i],
            index == last_empty_line(ld.take(j as int)),
            index <= j,
        decreases lines.len() - j,
    {
        if lines[j].len() == 0 {
            index = j;
        }
        proof {
            assert(ld.take(j + 1).drop_last() =~= ld.take(j as int));
            assert(ld.take(j + 1).last() == ld[j as int]);
        }
        j = j + 1;
    }
    proof {
        assert(ld.take(ld.len() as int) =~= ld);
    }
    index
}

proof fn lemma_last_empty_take(ld: Seq<Seq<char>>, j: int, dummy: int)
    ensures
        last_empty_line(ld.take(0)) == 0,
{
    assert(ld.take(0) =~= Seq::<Seq<char>>::empty());
}

/// The stacks after one crate moves from `from` to `to`; nothing moves when
/// `from` is empty.
pub open spec fn move_one(cs: Seq<Seq<char>>, from: int, to: int) -> Seq<Seq<char>> {
    if cs[from].len() == 0 {
        cs
    } else {
        let x = cs[from].last();
        let cs1 = cs.update(from, cs[from].drop_last());
        cs1.update(to, cs1[to].push(x))
    }
}

/// The stacks after `n` crates move one at a time from `from` to `to`.
pub open spec fn run_op(n: int, from: int, to: int, cs: Seq<Seq<char>>) -> Seq<Seq<char>>
    decreases n,
{
    if n <= 0 {
        cs
    } else {
        run_op(n - 1, from, to, move_one(cs, from, to))
    }
}

proof fn lemma_run_op_len(n: int, from: int, to: int, cs: Seq<Seq<char>>)
    requires
        0 <= from < cs.len(),
        0 <= to < cs.len(),
    ensures
        run_op(n, from, to, cs).len() == cs.len(),
    decreases n,
{
    if n > 0 {
        lemma_run_op_len(n - 1, from, to, move_one(cs, from, to));
    }
}

/// Move `op.0` crates one at a time from stack `op.1` to stack `op.2`; a
/// crate taken off an exhausted stack is simply skipped.
pub fn run_operation(op: Operation, crates: &mut Vec<Vec<char>>)
    requires
        op.1 < old(crates)@.len(),
        op.2 < old(crates)@.len(),
    ensures
        final(crates).deep_view() == run_op(
            op.0 as int,
            op.1 as int,
            op.2 as int,
            old(crates).deep_view(),
        ),
        final(crates)@.len() == old(crates)@.len(),
{
    let ghost cs0 = crates.deep_view();
    let mut k: usize = 0;
    while k < op.0
        invariant
            k <= op.0,
            op.1 < crates@.len(),
            op.2 < crates@.len(),
            crates@.len() == crates.deep_view().len(),
            run_op(op.0 as int, op.1 as int, op.2 as int, cs0) == run_op(
                op.0 - k,
                op.1 as int,
                op.2 as int,
                crates.deep_view(),
            ),
            crates@.len() == old(crates)@.len(),
        decreases op.0 - k,
    {
        let ghost pre = crates.deep_view();
        let krate = crates[op.1].pop();
        let ghost popped = crates.deep_view();
        match krate {
            Some(ok) => {
                crates[op.2].push(ok);
                proof {
                    assert(pre[op.1 as int].len() > 0);
                    assert(popped =~~= pre.update(op.1 as int, pre[op.1 as int].drop_last()));
                    assert(crates.deep_view() =~~= popped.update(
                        op.2 as int,
                        popped[op.2 as int].push(pre[op.1 as int].last()),
                    ));
                    assert(crates.deep_view() =~~= move_one(pre, op.1 as int, op.2 as int));
                }
            },
            None => {
                proof {
                    assert(pre[op.1 as int].len() == 0);
                    assert(crates.deep_view() =~~= pre);
                    assert(crates.deep_view() =~~= move_one(pre, op.1 as int, op.2 as int));
                }
            },
        }
        k = k + 1;
    }
}

/// The stacks after the top `op.0` crates of stack `op.1` move to stack
/// `op.2` in one lift, keeping their order.
pub open spec fn updated_move(cs: Seq<Seq<char>>, op: Operation) -> Seq<Seq<char>> {
    let src = cs[op.1 as int];
    let idx = src.len() - op.0;
    cs.update(op.2 as int, cs[op.2 as int] + src.skip(idx as int)).update(
        op.1 as int,
        src.take(idx as int),
    )
}

/// Move the top `op.0` crates of stack `op.1` onto stack `op.2` in one lift.
pub fn run_operation_updated(op: Operation, crates: &mut Vec<Vec<char>>)
    requires
        op.1 < old(crates)@.len(),
        op.2 < old(crates)@.len(),
        op.0 <= old(crates)@[op.1 as int]@.len(),
    ensures
        final(crates).deep_view() == updated_move(old(crates).deep_view(), op),
        final(crates)@.len() == old(crates)@.len(),
{
    let ghost cs0 = crates.deep_view();
    proof {
        lemma_deep_view_chars(crates);
    }
    let src_len = crates[op.1].len();
    let idx = src_len - op.0;
    let moved = subvec(&crates[op.1], idx, src_len);
    let mut m: usize = 0;
    proof {
        assert(crates.deep_view() =~~= cs0.update(
            op.2 as int,
            cs0[op.2 as int] + moved@.take(0),
        ));
    }
    while m < moved.len()
        invariant
            m <= moved@.len(),
            op.1 < crates@.len(),
            op.2 < crates@.len(),
            crates@.len() == cs0.len(),
            crates.deep_view() == cs0.update(op.2 as int, cs0[op.2 as int] + moved@.take(m as int)),
        decreases moved.len() - m,
    {
        let ghost pre = crates.deep_view();
        let c = moved[m];
        crates[op.2].push(c);
        proof {
            assert(crates.deep_view() =~~= pre.update(
                op.2 as int,
                pre[op.2 as int].push(moved@[m as int]),
            ));
            assert(cs0[op.2 as int] + moved@.take(m + 1) =~= (cs0[op.2 as int] + moved@.take(
                m as int,
            )).push(moved@[m as int]));
            assert(crates.deep_view() =~~= cs0.update(
                op.2 as int,
                cs0[op.2 as int] + moved@.take(m + 1),
            ));
        }
        m = m + 1;
    }
    proof {
        assert(moved@.take(moved@.len() as int) =~= moved@);
    }
    let ghost mid = crates.deep_view();
    crates[op.1].truncate(idx);
    proof {
        assert(mid[op.1 as int].take(idx as int) =~= cs0[op.1 as int].take(idx as int));
        assert(crates.deep_view() =~~= mid.update(op.1 as int, cs0[op.1 as int].take(idx as int)));
        assert(moved@ == cs0[op.1 as int].skip(idx as int));
        assert(crates.deep_view() =~~= updated_move(cs0, op));
    }
}

/// Whether the input has its picture/moves separator and well-formed moves:
/// the last empty line is not the first line, and every line after it names
/// three numbers.
pub open spec fn day5_input_ok(s: Seq<char>) -> bool {
    let ls = line_seqs(s);
    let idx = last_empty_line(ls);
    &&& idx >= 1
    &&& forall|k: int| idx + 1 <= k < ls.len() ==> op_line_ok(#[trigger] ls[k])
}

/// The starting stacks of `s`: the picture lines, read bottom first.
pub open spec fn day5_crates(s: Seq<char>) -> Seq<Seq<char>> {
    let ls = line_seqs(s);
    crates_built(ls.take(last_empty_line(ls) - 1))
}

/// The moves of `s`: the lines after the separator.
pub open spec fn day5_ops(s: Seq<char>) -> Seq<Operation> {
    let ls = line_seqs(s);
    ls.skip(last_empty_line(ls) + 1).map_values(|l: Seq<char>| op_of(l))
}

/// Read the starting stacks and the list of moves; `None` exactly when the
/// separator line is missing or a move line is malformed.
pub fn parser(contents: &str) -> (r: Option<(Vec<Vec<char>>, Vec<Operation>)>)
    ensures
        r is Some <==> day5_input_ok(contents@),
        r is Some ==> r->Some_0.0.deep_view() == day5_crates(contents@),
        r is Some ==> r->Some_0.1@ == day5_ops(contents@),
{
    let chars = chars_of(contents);
    let lines = split_lines(&chars);
    let ghost ld = line_seqs(contents@);
    proof {
        lemma_deep_view_chars(&lines);
    }
    let idx = find_start_of_operations(contents);
    if idx == 0 {
        return None;
    }
    proof {
        lemma_last_empty_range(ld);
    }
    let ghost picture = ld.take(idx - 1);
    let mut crates: Vec<Vec<char>> = Vec::new();
    let mut j: usize = idx - 1;
    proof {
        assert(picture.skip(j as int) =~= Seq::<Seq<char>>::empty());
        assert(crates.deep_view() =~~= crates_built(picture.skip(j as int)));
    }
    while j > 0
        invariant
            j <= idx - 1,
            idx - 1 <= lines@.len(),
            ld == line_seqs(contents@),
            lines@.len() == ld.len(),
            forall|i: int| 0 <= i < lines@.len() ==> #[trigger] lines@[i]@ == ld[i],
            picture == ld.take(idx - 1),
            crates.deep_view() == crates_built(picture.skip(j as int)),
        decreases j,
    {
        j = j - 1;
        crate_line_into(&lines[j], &mut crates);
        proof {
            let t = picture.skip(j as int);
            assert(t[0] == ld[j as int]);
            assert(t.drop_first() =~= picture.skip(j + 1));
            assert(crates.deep_view() == crates_built(t));
        }
    }
    proof {
        assert(picture.skip(0) =~= picture);
    }
    let mut operations: Vec<Operation> = Vec::new();
    let nlines = lines.len();
    proof {
        lemma_last_empty_range(ld);
        assert(idx < nlines);
    }
    let mut k: usize = idx + 1;
    let ghost ops_spec = day5_ops(contents@);
    while k < lines.len()
        invariant
            idx + 1 <= k <= lines@.len(),
            idx == last_empty_line(ld),
            ld == line_seqs(contents@),
            lines@.len() == ld.len(),
            forall|i: int| 0 <= i < lines@.len() ==> #[trigger] lines@[i]@ == ld[i],
            ops_spec == day5_ops(contents@),
            ops_spec.len() == ld.len() - idx - 1,
            forall|i: int| idx + 1 <= i < k ==> op_line_ok(#[trigger] ld[i]),
            operations@.len() == k - idx - 1,
            forall|i: int|
                0 <= i < operations@.len() ==> operations@[i] == #[trigger] ops_spec[i],
        decreases lines.len() - k,
    {
        match op_from_chars(&lines[k]) {
            Some(op) => {
                proof {
                    assert(ops_spec[k - idx - 1] == op_of(ld[k as int]));
                }
                operations.push(op);
            },
            None => {
                proof {
                    assert(!op_line_ok(ld[k as int]));
                }
                return None;
            },
        }
        k = k + 1;
    }
    proof {
        assert(operations@ =~= ops_spec);
    }
    Some((crates, operations))
}

/// Read one line of the crate picture into the stacks.
fn crate_line_into(l: &Vec<char>, crates: &mut Vec<Vec<char>>)
    ensures
        final(crates).deep_view() == apply_crate_line(l@, old(crates).deep_view(), 0),
{
    let ghost cs0 = crates.deep_view();
    let mut is_crate_item = false;
    let mut i: usize = 0;
    while i < l.len()
        invariant
            i <= l.len(),
            is_crate_item == (i >= 1 && l@[i - 1] == '['),
            apply_crate_line(l@, cs0, 0) == apply_crate_line(l@, crates.deep_view(), i as int),
        decreases l.len() - i,
    {
        let c = l[i];
        if is_crate_item {
            let crate_idx = (i - 1) / 4 + 1;
            proof {
                assert(crate_idx == (i + 3) / 4);
                lemma_pad_stacks_len(crates.deep_view(), crate_idx + 1);
            }
            let ghost before_pad = crates.deep_view();
            while crates.len() < crate_idx + 1
                invariant
                    crate_idx <= usize::MAX / 4 + 1,
                    pad_stacks(before_pad, crate_idx + 1) == pad_stacks(
                        crates.deep_view(),
                        crate_idx + 1,
                    ),
                    crates.deep_view().len() >= before_pad.len(),
                decreases crate_idx + 1 - crates.len(),
            {
                let ghost pre = crates.deep_view();
                crates.push(Vec::new());
                proof {
                    assert(crates.deep_view() =~~= pre.push(Seq::empty()));
                }
            }
            proof {
                lemma_pad_stacks_len(crates.deep_view(), crate_idx + 1);
                assert(crates.deep_view() =~~= pad_stacks(before_pad, crate_idx + 1));
            }
            let ghost padded = crates.deep_view();
            crates[crate_idx].push(c);
            proof {
                assert(crates.deep_view() =~~= padded.update(
                    crate_idx as int,
                    padded[crate_idx as int].push(c),
                ));
                assert(crates.deep_view() =~~= add_crate(before_pad, crate_idx as int, c));
            }
        }
        is_crate_item = c == '[';
        i = i + 1;
    }
}

/// Read the three numbers of a move line.
fn op_from_chars(l: &Vec<char>) -> (r: Option<Operation>)
    ensures
        r is Some <==> op_line_ok(l@),
        r is Some ==> r->Some_0 == op_of(l@),
{
    let runs = find_digit_runs(l);
    proof {
        lemma_deep_view_chars(&runs);
    }
    let mut ops: Vec<usize> = Vec::new();
    let mut k: usize = 0;
    while k < runs.len()
        invariant
            k <= runs.len(),
            runs.deep_view() == digit_runs(l@),
            runs@.len() == digit_runs(l@).len(),
            forall|i: int| 0 <= i < runs@.len() ==> #[trigger] runs@[i]@ == digit_runs(l@)[i],
            forall|i: int| 0 <= i < k ==> digits_val(#[trigger] digit_runs(l@)[i]) <= usize::MAX,
            ops@.len() == k,
            forall|i: int| 0 <= i < k ==> ops@[i] == digits_val(#[trigger] digit_runs(l@)[i]),
        decreases runs.len() - k,
    {
        let n = match parse_u64(&runs[k]) {
            Some(n) => n,
            None => {
                proof {
                    let run = digit_runs(l@)[k as int];
                    lemma_digit_run_digits(l@, k as int);
                    assert(digits_val(run) > u64::MAX);
                }
                return None;
            },
        };
        if n > usize::MAX as u64 {
            return None;
        }
        ops.push(n as usize);
        k = k + 1;
    }
    if ops.len() < 3 {
        return None;
    }
    Some((ops[0], ops[1], ops[2]))
}

/// Whether every move can run on the stacks when applied one crate at a time.
pub open spec fn plain_ops_ok(ops: Seq<Operation>, cs: Seq<Seq<char>>) -> bool
    decreases ops.len(),
{
    ops.len() == 0 || {
        &&& ops[0].1 < cs.len()
        &&& ops[0].2 < cs.len()
        &&& plain_ops_ok(
            ops.drop_first(),
            run_op(ops[0].0 as int, ops[0].1 as int, ops[0].2 as int, cs),
        )
    }
}

/// The stacks after every move runs one crate at a time.
pub open spec fn run_all(ops: Seq<Operation>, cs: Seq<Seq<char>>) -> Seq<Seq<char>>
    decreases ops.len(),
{
    if ops.len() == 0 {
        cs
    } else {
        run_all(ops.drop_first(), run_op(ops[0].0 as int, ops[0].1 as int, ops[0].2 as int, cs))
    }
}

/// Whether every move can run on the stacks when applied as one lift.
pub open spec fn updated_ops_ok(ops: Seq<Operation>, cs: Seq<Seq<char>>) -> bool
    decreases ops.len(),
{
    ops.len() == 0 || {
        &&& ops[0].1 < cs.len()
        &&& ops[0].2 < cs.len()
        &&& ops[0].0 <= cs[ops[0].1 as int].len()
        &&& updated_ops_ok(ops.drop_first(), updated_move(cs, ops[0]))
    }
}

/// The stacks after every move runs as one lift.
pub open spec fn run_all_updated(ops: Seq<Operation>, cs: Seq<Seq<char>>) -> Seq<Seq<char>>
    decreases ops.len(),
{
    if ops.len() == 0 {
        cs
    } else {
        run_all_updated(ops.drop_first(), updated_move(cs, ops[0]))
    }
}

/// A copy of the stacks.
fn clone_stacks(v: &Vec<Vec<char>>) -> (r: Vec<Vec<char>>)
    ensures
        r.deep_view() == v.deep_view(),
        r@.len() == v@.len(),
{
    proof {
        lemma_deep_view_chars(v);
    }
    let mut r: Vec<Vec<char>> = Vec::new();
    let mut k: usize = 0;
    while k < v.len()
        invariant
            k <= v@.len(),
            r.deep_view() == v.deep_view().take(k as int),
            r@.len() == k,
        decreases v.len() - k,
    {
        let ghost pre = r.deep_view();
        let s = subvec(&v[k], 0, v[k].len());
        proof {
            lemma_deep_view_chars(v);
            assert(s@ =~= v.deep_view()[k as int]);
        }
        r.push(s);
        proof {
            assert(r.deep_view() =~~= v.deep_view().take(k + 1));
        }
        k = k + 1;
    }
    proof {
        assert(v.deep_view().take(v@.len() as int) =~= v.deep_view());
        assert(r.deep_view() =~~= v.deep_view());
    }
    r
}

/// Run the moves both ways over the starting stacks and read off the two
/// answers; `None` exactly when the input does not parse.
pub fn solution(contents: &str) -> (r: Option<(String, String)>)
    requires
        day5_input_ok(contents@) ==> plain_ops_ok(day5_ops(contents@), day5_crates(contents@)),
        day5_input_ok(contents@) ==> updated_ops_ok(day5_ops(contents@), day5_crates(contents@)),
    ensures
        r is Some <==> day5_input_ok(contents@),
        r is Some ==> r->Some_0.0@ == answer_of(
            run_all(day5_ops(contents@), day5_crates(contents@)),
        ),
        r is Some ==> r->Some_0.1@ == answer_of(
            run_all_updated(day5_ops(contents@), day5_crates(contents@)),
        ),
{
    let (crates, operations) = match parser(contents) {
        Some(p) => p,
        None => {
            return None;
        },
    };
    let ghost cs0 = day5_crates(contents@);
    let ghost ops = day5_ops(contents@);
    let mut crates_one = clone_stacks(&crates);
    let mut crates_two = clone_stacks(&crates);
    let mut k: usize = 0;
    proof {
        assert(ops.skip(0) =~= ops);
    }
    while k < operations.len()
        invariant
            k <= operations@.len(),
            operations@ == ops,
            run_all(ops, cs0) == run_all(ops.skip(k as int), crates_one.deep_view()),
            run_all_updated(ops, cs0) == run_all_updated(ops.skip(k as int), crates_two.deep_view()),
            plain_ops_ok(ops.skip(k as int), crates_one.deep_view()),
            updated_ops_ok(ops.skip(k as int), crates_two.deep_view()),
            crates_one@.len() == crates_one.deep_view().len(),
            crates_two@.len() == crates_two.deep_view().len(),
        decreases operations.len() - k,
    {
        let op = operations[k];
        let ghost t = ops.skip(k as int);
        proof {
            assert(t[0] == ops[k as int]);
            assert(t.drop_first() =~= ops.skip(k + 1));
            lemma_deep_view_chars(&crates_one);
            lemma_deep_view_chars(&crates_two);
        }
        run_operation(op, &mut crates_one);
        run_operation_updated(op, &mut crates_two);
        k = k + 1;
    }
    proof {
        assert(ops.skip(ops.len() as int) =~= Seq::<Operation>::empty());
    }
    let result1 = parse_answer(&crates_one);
    let result2 = parse_answer(&crates_two);
    Some((result1, result2))
}

/// The word read off the stacks: the top crate of each, left to right;
/// an empty stack contributes nothing.
pub open spec fn answer_of(cs: Seq<Seq<char>>) -> Seq<char>
    decreases cs.len(),
{
    if cs.len() == 0 {
        Seq::empty()
    } else {
        (if cs[0].len() > 0 {
            seq![cs[0].last()]
        } else {
            Seq::empty()
        }) + answer_of(cs.drop_first())
    }
}

/// The word read off the stacks, as a `String`.
pub fn parse_answer(crates: &Vec<Vec<char>>) -> (r: String)
    ensures
        r@ == answer_of(crates.deep_view()),
{
    let ghost cs = crates.deep_view();
    proof {
        lemma_deep_view_chars(crates);
    }
    let mut out: Vec<char> = Vec::new();
    let mut k: usize = 0;
    proof {
        assert(cs.skip(0) =~= cs);
        assert(out@ + answer_of(cs.skip(0)) =~= answer_of(cs));
    }
    while k < crates.len()
        invariant
            k <= crates@.len(),
            cs == crates.deep_view(),
            crates@.len() == cs.len(),
            forall|i: int| 0 <= i < crates@.len() ==> #[trigger] crates@[i]@ == cs[i],
            answer_of(cs) == out@ + answer_of(cs.skip(k as int)),
        decreases crates.len() - k,
    {
        let ghost tail = cs.skip(k as int);
        proof {
            assert(tail[0] == cs[k as int]);
            assert(tail.drop_first() =~= cs.skip(k + 1));
        }
        let stack = &crates[k];
        if stack.len() > 0 {
            out.push(stack[stack.len() - 1]);
        }
        proof {
            assert(answer_of(cs) =~= out@ + answer_of(cs.skip(k + 1)));
        }
        k = k + 1;
    }
    proof {
        assert(cs.skip(cs.len() as int) =~= Seq::<Seq<char>>::empty());
        assert(out@ =~= answer_of(cs));
    }
    chars_to_string(&out)
}

} // verus!
