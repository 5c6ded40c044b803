use crate::sorting::{ascending, lemma_ascending, sort_u64};
use crate::text::{all_digits, chars_of, chars_to_string, dec_int, digits_val, find_pos, i64_string};
use crate::text::{find_char, int_val, is_numeral, lemma_deep_view_chars, lemma_find_pos, line_seqs};
use crate::text::{parse_i64, split_lines, subvec};
use vstd::prelude::*;

verus! {

/// One instruction: how many cycles it takes and how it changes the register.
pub type Operation = (usize, i32);

/// Cycle counts paired with the register value from that cycle on.
pub type SignalWave = Vec<(usize, i32)>;

/// The instruction of one line: `noop` takes one cycle and changes nothing;
/// anything else takes two cycles and adds the number after its first space.
pub open spec fn op_of_line(l: Seq<char>) -> Option<(int, int)> {
    if l == seq!['n', 'o', 'o', 'p'] {
        Some((1int, 0int))
    } else {
        let p = find_pos(l, ' ');
        if p >= l.len() {
            None
        } else {
            let num = l.skip(p + 1 as int);
            if is_numeral(num) && i32::MIN <= int_val(num) <= i32::MAX {
                Some((2int, int_val(num)))
            } else {
                None
            }
        }
    }
}

/// Whether every line is an instruction.
pub open spec fn day10_ok(s: Seq<char>) -> bool {
    forall|k: int| 0 <= k < line_seqs(s).len() ==> op_of_line(#[trigger] line_seqs(s)[k]) is Some
}

/// The instructions of `s`.
pub open spec fn day10_ops(s: Seq<char>) -> Seq<(int, int)> {
    line_seqs(s).map_values(|l: Seq<char>| op_of_line(l)->Some_0)
}

/// The signal wave of a program: it starts at cycle 1 with value 1, and each
/// instruction appends its completion cycle and the new register value.
pub open spec fn wave_of(ops: Seq<(int, int)>) -> Seq<(int, int)>
    decreases ops.len(),
{
    if ops.len() == 0 {
        seq![(1int, 1int)]
    } else {
        let w = wave_of(ops.drop_last());
        w.push((w.last().0 + ops.last().0, w.last().1 + ops.last().1))
    }
}

/// Whether the wave stays within the machine's integer bounds.
pub open spec fn wave_fits(ops: Seq<(int, int)>) -> bool {
    forall|k: int|
        0 <= k < wave_of(ops).len() ==> 0 <= (#[trigger] wave_of(ops)[k]).0 <= usize::MAX
            && i32::MIN <= wave_of(ops)[k].1 <= i32::MAX
}

proof fn lemma_wave_len(ops: Seq<(int, int)>)
    ensures
        wave_of(ops).len() == ops.len() + 1,
    decreases ops.len(),
{
    if ops.len() > 0 {
        lemma_wave_len(ops.drop_last());
    }
}

/// A program: its instructions and their signal wave.
pub struct Register {
    pub operations: Vec<Operation>,
    pub signal_wave: SignalWave,
}

/// Concrete pairs widened to abstract integers.
pub open spec fn ops_view(v: Seq<(usize, i32)>) -> Seq<(int, int)> {
    v.map_values(|p: (usize, i32)| (p.0 as int, p.1 as int))
}

impl Register {
    /// Parse a program and compute its signal wave; `None` exactly when some
    /// line is not an instruction.
    pub fn parse(ops: &str) -> (r: Option<Register>)
        requires
            day10_ok(ops@) ==> wave_fits(day10_ops(ops@)),
        ensures
            r is Some <==> day10_ok(ops@),
            r is Some ==> ops_view(r->Some_0.operations@) == day10_ops(ops@),
            r is Some ==> ops_view(r->Some_0.signal_wave@) == wave_of(day10_ops(ops@)),
    {
        let ghost od = day10_ops(ops@);
        let chars = chars_of(ops);
        let lines = split_lines(&chars);
        proof {
            lemma_deep_view_chars(&lines);
            reveal_strlit("noop");
        }
        let noop = chars_of("noop");
        proof {
            assert(noop@ =~= seq!['n', 'o', 'o', 'p']);
        }
        let mut operations: Vec<Operation> = Vec::new();
        let mut j: usize = 0;
        while j < lines.len()
            invariant
                j <= lines@.len(),
                od == day10_ops(ops@),
                lines@.len() == line_seqs(ops@).len(),
                forall|i: int| 0 <= i < lines@.len() ==> #[trigger] lines@[i]@ == line_seqs(ops@)[i],
                noop@ == seq!['n', 'o', 'o', 'p'],
                od.len() == lines@.len(),
                forall|k: int| 0 <= k < j ==> op_of_line(#[trigger] line_seqs(ops@)[k]) is Some,
                operations@.len() == j,
                forall|k: int|
                    0 <= k < j ==> ((#[trigger] operations@[k]).0 as int, operations@[k].1 as int)
                        == od[k],
            decreases lines.len() - j,
        {
            let l = &lines[j];
            let op: Operation = if crate::text::eq_chars(l, &noop) {
                (1, 0)
            } else {
                proof {
                    lemma_find_pos(l@, ' ');
                }
                let p = find_char(l, 0, ' ');
                if p == l.len() {
                    return None;
                }
                let num = subvec(l, p + 1, l.len());
                proof {
                    assert(num@ =~= l@.skip(p + 1));
                }
                let n = match parse_i64(&num) {
                    Some(n) => n,
                    None => {
                        return None;
                    },
                };
                if n < i32::MIN as i64 || n > i32::MAX as i64 {
                    return None;
                }
                (2, n as i32)
            };
            operations.push(op);
            j = j + 1;
        }
        let register = Register { operations, signal_wave: Vec::new() };
        proof {
            assert(ops_view(register.operations@) =~= od);
        }
        let wave = register.get_signal_wave();
        let register = Register { operations: register.operations, signal_wave: wave };
        Some(register)
    }

    /// The signal wave of this program's instructions.
    pub fn get_signal_wave(&self) -> (r: SignalWave)
        requires
            wave_fits(ops_view(self.operations@)),
        ensures
            ops_view(r@) == wave_of(ops_view(self.operations@)),
    {
        let ghost od = ops_view(self.operations@);
        let mut signal_wave: SignalWave = Vec::new();
        signal_wave.push((1, 1));
        proof {
            lemma_wave_len(od.take(0));
            assert(od.take(0) =~= Seq::<(int, int)>::empty());
            assert(ops_view(signal_wave@) =~= wave_of(od.take(0)));
        }
        let mut idx: usize = 0;
        while idx < self.operations.len()
            invariant
                idx <= self.operations@.len(),
                od == ops_view(self.operations@),
                od.len() == self.operations@.len(),
                forall|k: int|
                    0 <= k < od.len() ==> ((#[trigger] self.operations@[k]).0 as int,
                    self.operations@[k].1 as int) == od[k],
                wave_fits(od),
                signal_wave@.len() == idx + 1,
                ops_view(signal_wave@) == wave_of(od.take(idx as int)),
                forall|k: int|
                    0 <= k < signal_wave@.len() ==> ((#[trigger] signal_wave@[k]).0 as int,
                    signal_wave@[k].1 as int) == wave_of(od.take(idx as int))[k],
            decreases self.operations.len() - idx,
        {
            let (op_cycles, op) = self.operations[idx];
            let (cycles, strength) = signal_wave[idx];
            proof {
                lemma_wave_prefix(od, idx + 1);
                lemma_wave_prefix(od, idx as int);
                lemma_wave_len(od.take(idx as int));
                lemma_wave_len(od.take(idx + 1));
                assert(od.take(idx + 1).drop_last() =~= od.take(idx as int));
                assert(wave_of(od.take(idx + 1)) == wave_of(od.take(idx as int)).push(
                    (
                        wave_of(od.take(idx as int)).last().0 + od[idx as int].0,
                        wave_of(od.take(idx as int)).last().1 + od[idx as int].1,
                    ),
                ));
                assert(wave_of(od)[idx + 1] == wave_of(od.take(idx + 1)).last());
                assert(wave_of(od)[idx as int] == wave_of(od.take(idx as int)).last());
            }
            signal_wave.push((cycles + op_cycles, strength + op));
            proof {
                assert(ops_view(signal_wave@) =~= wave_of(od.take(idx + 1)));
            }
            idx = idx + 1;
        }
        proof {
            assert(od.take(od.len() as int) =~= od);
        }
        signal_wave
    }
}

/// The x values sampled at the requested cycles, walking the wave once: at
/// wave entry `j`, if its cycle passes the next requested cycle, report the
/// previous entry's value and move to the next request.
pub open spec fn x_at(wave: Seq<(int, int)>, sc: Seq<int>, j: int, i: int) -> Seq<(int, int)>
    decreases wave.len() - j,
{
    if j < 0 || j >= wave.len() || i < 0 || i >= sc.len() {
        Seq::empty()
    } else if wave[j].0 > sc[i] {
        seq![(sc[i], wave[j - 1].1)] + x_at(wave, sc, j + 1, i + 1)
    } else {
        x_at(wave, sc, j + 1, i)
    }
}

/// `usize` values widened to `u64`.
pub open spec fn cycles_u64(cs: Seq<usize>) -> Seq<u64> {
    cs.map_values(|c: usize| c as u64)
}

/// `u64` values widened to `int`.
pub open spec fn to_ints(s: Seq<u64>) -> Seq<int> {
    s.map_values(|x: u64| x as int)
}

/// Every value of the sorted sequence is bounded when the originals are.
proof fn lemma_sorted_elems(cs: Seq<u64>, bound: int)
    requires
        forall|k: int| 0 <= k < cs.len() ==> #[trigger] cs[k] <= bound,
    ensures
        forall|k: int| 0 <= k < ascending(cs).len() ==> #[trigger] ascending(cs)[k] <= bound,
{
    lemma_ascending(cs);
    cs.to_multiset_ensures();
    ascending(cs).to_multiset_ensures();
    assert forall|k: int| 0 <= k < ascending(cs).len() implies #[trigger] ascending(cs)[k]
        <= bound by {
        let x = ascending(cs)[k];
        assert(ascending(cs).to_multiset().count(x) > 0);
        assert(cs.to_multiset().count(x) > 0);
        assert(cs.contains(x));
        let w = choose|w: int| 0 <= w < cs.len() && cs[w] == x;
        assert(cs[w] <= bound);
    }
}

impl Register {
    /// The register value at each requested cycle, the requests taken in
    /// ascending order, each answered by the wave entry it falls under;
    /// requests past the end of the wave are dropped.
    pub fn get_x_at_cycles(&self, cycles: Vec<usize>) -> (r: Vec<(usize, i32)>)
        requires
            forall|k: int| 0 <= k < cycles@.len() ==> (#[trigger] cycles@[k]) >= 1,
            self.signal_wave@.len() > 0,
            self.signal_wave@[0].0 == 1,
        ensures
            ops_view(r@) == x_at(
                ops_view(self.signal_wave@),
                to_ints(ascending(cycles_u64(cycles@))),
                0,
                0,
            ),
    {
        let ghost wv = ops_view(self.signal_wave@);
        let mut cs: Vec<u64> = Vec::new();
        let mut k: usize = 0;
        while k < cycles.len()
            invariant
                k <= cycles@.len(),
                cs@ == cycles_u64(cycles@).take(k as int),
            decreases cycles.len() - k,
        {
            cs.push(cycles[k] as u64);
            proof {
                assert(cs@ =~= cycles_u64(cycles@).take(k + 1));
            }
            k = k + 1;
        }
        proof {
            assert(cs@ =~= cycles_u64(cycles@));
            lemma_sorted_elems(cs@, usize::MAX as int);
            lemma_ascending(cs@);
            assert forall|m: int| 0 <= m < ascending(cs@).len() implies #[trigger] ascending(
                cs@,
            )[m] >= 1 by {
                lemma_sorted_low(cs@, 1);
            }
        }
        let sorted_cycles = sort_u64(&cs);
        let ghost sc = to_ints(ascending(cycles_u64(cycles@)));
        let mut i: usize = 0;
        let mut result: Vec<(usize, i32)> = Vec::new();
        let mut j: usize = 0;
        proof {
            assert(ops_view(result@) =~= x_at(wv, sc, 0, 0).take(0));
            assert(x_at(wv, sc, 0, 0) == ops_view(result@) + x_at(wv, sc, 0, 0));
        }
        while j < self.signal_wave.len()
            invariant
                j <= self.signal_wave@.len(),
                i <= sc.len(),
                wv == ops_view(self.signal_wave@),
                wv.len() == self.signal_wave@.len(),
                forall|m: int|
                    0 <= m < wv.len() ==> ((#[trigger] self.signal_wave@[m]).0 as int,
                    self.signal_wave@[m].1 as int) == wv[m],
                sorted_cycles@ == ascending(cycles_u64(cycles@)),
                sc == to_ints(ascending(cycles_u64(cycles@))),
                sc.len() == sorted_cycles@.len(),
                forall|m: int| 0 <= m < sc.len() ==> #[trigger] sc[m] == sorted_cycles@[m],
                forall|m: int| 0 <= m < sc.len() ==> #[trigger] sc[m] >= 1,
                wv[0].0 == 1,
                x_at(wv, sc, 0, 0) == ops_view(result@) + x_at(wv, sc, j as int, i as int),
            decreases self.signal_wave.len() - j,
        {
            if i >= sorted_cycles.len() {
                proof {
                    assert(x_at(wv, sc, j as int, i as int) =~= Seq::<(int, int)>::empty());
                    assert(ops_view(result@) =~= x_at(wv, sc, 0, 0));
                }
                return result;
            }
            let curr_cycle = self.signal_wave[j].0;
            if curr_cycle as u64 > sorted_cycles[i] {
                proof {
                    assert(wv[j as int].0 > sc[i as int]);
                    assert(j >= 1) by {
                        if j == 0 {
                            assert(wv[0].0 == 1 && sc[i as int] >= 1);
                        }
                    }
                }
                let ghost pre = ops_view(result@);
                result.push((sorted_cycles[i] as usize, self.signal_wave[j - 1].1));
                proof {
                    assert(ops_view(result@) =~= pre + seq![(sc[i as int], wv[j - 1].1)]);
                    assert(x_at(wv, sc, j as int, i as int) == seq![(sc[i as int], wv[j - 1].1)]
                        + x_at(wv, sc, j + 1, i + 1));
                    assert(x_at(wv, sc, 0, 0) =~= ops_view(result@) + x_at(wv, sc, j + 1, i + 1));
                }
                i = i + 1;
            } else {
                proof {
                    assert(x_at(wv, sc, j as int, i as int) == x_at(wv, sc, j + 1, i as int));
                }
            }
            j = j + 1;
        }
        proof {
            assert(x_at(wv, sc, j as int, i as int) =~= Seq::<(int, int)>::empty());
            assert(ops_view(result@) =~= x_at(wv, sc, 0, 0));
        }
        result
    }
}

/// Key/value pairs extended with key `len + 1` and value `x` until there are
/// more than `cycle` of them.
pub open spec fn fill_pairs(v: Seq<(int, int)>, cycle: int, x: int) -> Seq<(int, int)>
    decreases cycle + 2 - v.len(),
{
    if v.len() > cycle {
        v
    } else {
        fill_pairs(v.push((v.len() + 1 as int, x)), cycle, x)
    }
}

/// The register value per cycle: each wave entry fills the table up to its
/// cycle (inclusive) with its value; keys run 1, 2, 3, ...
pub open spec fn xpc_from(wave: Seq<(int, int)>, j: int, v: Seq<(int, int)>) -> Seq<(int, int)>
    decreases wave.len() - j,
{
    if j < 0 || j >= wave.len() {
        v
    } else {
        xpc_from(wave, j + 1, fill_pairs(v, wave[j].0, wave[j].1))
    }
}

proof fn lemma_fill_pairs(v: Seq<(int, int)>, cycle: int, x: int)
    requires
        forall|k: int| 0 <= k < v.len() ==> (#[trigger] v[k]).0 == k + 1,
    ensures
        fill_pairs(v, cycle, x).len() >= v.len(),
        fill_pairs(v, cycle, x).len() > cycle,
        forall|k: int|
            0 <= k < fill_pairs(v, cycle, x).len() ==> (#[trigger] fill_pairs(v, cycle, x)[k]).0
                == k + 1,
    decreases cycle + 2 - v.len(),
{
    if v.len() <= cycle {
        lemma_fill_pairs(v.push((v.len() + 1 as int, x)), cycle, x);
    }
}

proof fn lemma_xpc_keys(wave: Seq<(int, int)>, j: int, v: Seq<(int, int)>)
    requires
        forall|k: int| 0 <= k < v.len() ==> (#[trigger] v[k]).0 == k + 1,
        forall|k: int| 0 <= k < wave.len() ==> (#[trigger] wave[k]).0 >= 0,
    ensures
        xpc_from(wave, j, v).len() >= v.len(),
        forall|k: int|
            0 <= k < xpc_from(wave, j, v).len() ==> (#[trigger] xpc_from(wave, j, v)[k]).0 == k
                + 1,
    decreases wave.len() - j,
{
    if 0 <= j < wave.len() {
        lemma_fill_pairs(v, wave[j].0, wave[j].1);
        lemma_xpc_keys(wave, j + 1, fill_pairs(v, wave[j].0, wave[j].1));
    }
}

impl Register {
    /// The register value for each cycle, as key/value pairs with keys
    /// 1, 2, 3, ... in order; each wave entry fills the table up to one past
    /// its own cycle.
    pub fn get_x_per_cycle(&self) -> (r: Vec<(usize, i32)>)
        requires
            forall|k: int|
                0 <= k < self.signal_wave@.len() ==> (#[trigger] self.signal_wave@[k]).0
                    <= usize::MAX - 1,
        ensures
            ops_view(r@) == xpc_from(ops_view(self.signal_wave@), 0, Seq::empty()),
            forall|k: int| 0 <= k < r@.len() ==> (#[trigger] r@[k]).0 == k + 1,
    {
        let ghost wv = ops_view(self.signal_wave@);
        let mut v: Vec<(usize, i32)> = Vec::new();
        let mut j: usize = 0;
        proof {
            assert(ops_view(v@) =~= Seq::<(int, int)>::empty());
        }
        while j < self.signal_wave.len()
            invariant
                j <= self.signal_wave@.len(),
                wv == ops_view(self.signal_wave@),
                wv.len() == self.signal_wave@.len(),
                forall|m: int|
                    0 <= m < wv.len() ==> ((#[trigger] self.signal_wave@[m]).0 as int,
                    self.signal_wave@[m].1 as int) == wv[m],
                forall|m: int| 0 <= m < wv.len() ==> (#[trigger] wv[m]).0 <= usize::MAX - 1,
                forall|k: int| 0 <= k < v@.len() ==> (#[trigger] v@[k]).0 == k + 1,
                xpc_from(wv, 0, Seq::empty()) == xpc_from(wv, j as int, ops_view(v@)),
            decreases self.signal_wave.len() - j,
        {
            let (cycle, x) = self.signal_wave[j];
            let ghost start_v = ops_view(v@);
            proof {
                assert forall|k: int| 0 <= k < ops_view(v@).len() implies (#[trigger] ops_view(
                    v@,
                )[k]).0 == k + 1 by {
                    assert(v@[k].0 == k + 1);
                }
            }
            while v.len() <= cycle
                invariant
                    cycle <= usize::MAX - 1,
                    forall|k: int| 0 <= k < v@.len() ==> (#[trigger] v@[k]).0 == k + 1,
                    fill_pairs(start_v, cycle as int, x as int) == fill_pairs(
                        ops_view(v@),
                        cycle as int,
                        x as int,
                    ),
                decreases cycle + 1 - v.len(),
            {
                let ghost pre = ops_view(v@);
                let key = v.len() + 1;
                v.push((key, x));
                proof {
                    assert(ops_view(v@) =~= pre.push((key as int, x as int)));
                    assert(fill_pairs(pre, cycle as int, x as int) == fill_pairs(
                        ops_view(v@),
                        cycle as int,
                        x as int,
                    ));
                }
            }
            proof {
                assert(fill_pairs(ops_view(v@), cycle as int, x as int) == ops_view(v@));
                assert(ops_view(v@) == fill_pairs(start_v, cycle as int, x as int));
                assert(xpc_from(wv, j as int, start_v) == xpc_from(wv, j + 1, ops_view(v@)));
            }
            j = j + 1;
        }
        proof {
            assert(xpc_from(wv, j as int, ops_view(v@)) == ops_view(v@));
            assert forall|k: int| 0 <= k < v@.len() implies (#[trigger] v@[k]).0 == k + 1 by {}
        }
        v
    }
}

/// The pixel drawn at `cycle` with the sprite centred at `x`: lit when the
/// beam position `cycle % 40` falls on the three-wide sprite.
pub open spec fn pixel_at(x: int, cycle: int) -> char {
    let crt = cycle % 40;
    if x >= 0 && crt >= x && crt <= x + 2 {
        '#'
    } else {
        '.'
    }
}

/// The screen text from `cycle` up to (excluding) `maxc - 1`: one pixel per
/// cycle, and a line break after each full row past the first cycle.
pub open spec fn screen_from(xp: Seq<(int, int)>, cycle: int, maxc: int) -> Seq<char>
    decreases maxc - 1 - cycle,
{
    if cycle < 1 || cycle >= maxc - 1 {
        Seq::empty()
    } else {
        (seq![pixel_at(xp[cycle - 1].1, cycle)] + if cycle > 1 && cycle % 40 == 0 {
            seq!['\n']
        } else {
            Seq::empty()
        }) + screen_from(xp, cycle + 1, maxc)
    }
}

/// Whether the per-cycle values avoid the two sprite positions whose pixel
/// arithmetic the machine cannot form.
pub open spec fn screen_vals_ok(xp: Seq<(int, int)>) -> bool {
    forall|k: int| 0 <= k < xp.len() ==> (#[trigger] xp[k]).1 != -1 && xp[k].1 != -2
}

impl Register {
    /// Draw the screen: each cycle lights its pixel when the beam falls on
    /// the sprite, rows broken every forty cycles.
    pub fn draw_screen(&self) -> (r: String)
        requires
            forall|k: int|
                0 <= k < self.signal_wave@.len() ==> (#[trigger] self.signal_wave@[k]).0
                    <= usize::MAX - 1,
            xpc_from(ops_view(self.signal_wave@), 0, Seq::empty()).len() >= 1,
            screen_vals_ok(xpc_from(ops_view(self.signal_wave@), 0, Seq::empty())),
        ensures
            r@ == screen_from(
                xpc_from(ops_view(self.signal_wave@), 0, Seq::empty()),
                1,
                xpc_from(ops_view(self.signal_wave@), 0, Seq::empty()).len() as int,
            ),
    {
        let ghost xp = xpc_from(ops_view(self.signal_wave@), 0, Seq::empty());
        let sprite_positions = self.get_x_per_cycle();
        let max_cycle = sprite_positions.len();
        let mut result: Vec<char> = Vec::new();
        let mut cycle: usize = 1;
        proof {
            assert(result@ + screen_from(xp, 1, max_cycle as int) =~= screen_from(
                xp,
                1,
                max_cycle as int,
            ));
        }
        while cycle < max_cycle - 1
            invariant
                1 <= cycle,
                cycle <= max_cycle || cycle == 1,
                max_cycle >= 1,
                max_cycle == xp.len(),
                max_cycle == sprite_positions@.len(),
                ops_view(sprite_positions@) == xp,
                forall|k: int|
                    0 <= k < sprite_positions@.len() ==> ((#[trigger] sprite_positions@[k]).0
                        as int, sprite_positions@[k].1 as int) == xp[k],
                screen_vals_ok(xp),
                screen_from(xp, 1, max_cycle as int) == result@ + screen_from(
                    xp,
                    cycle as int,
                    max_cycle as int,
                ),
            decreases max_cycle - cycle,
        {
            let x = sprite_positions[cycle - 1].1;
            let crt_pos = cycle % 40;
            let lit: bool = if x >= 0 {
                let sprite = x as usize;
                crt_pos >= sprite && crt_pos <= sprite + 2
            } else {
                false
            };
            proof {
                assert((if lit {
                    '#'
                } else {
                    '.'
                }) == pixel_at(xp[cycle - 1].1, cycle as int));
            }
            if lit {
                result.push('#');
            } else {
                result.push('.');
            }
            if cycle > 1 && crt_pos == 0 {
                result.push('\n');
            }
            proof {
                assert(screen_from(xp, 1, max_cycle as int) =~= result@ + screen_from(
                    xp,
                    cycle + 1,
                    max_cycle as int,
                ));
            }
            cycle = cycle + 1;
        }
        proof {
            assert(screen_from(xp, cycle as int, max_cycle as int) =~= Seq::<char>::empty());
            assert(result@ =~= screen_from(xp, 1, max_cycle as int));
        }
        chars_to_string(&result)
    }
}

/// Every value of the sorted sequence keeps the originals' lower bound.
proof fn lemma_sorted_low(cs: Seq<u64>, low: int)
    requires
        forall|k: int| 0 <= k < cs.len() ==> (#[trigger] cs[k]) >= low,
    ensures
        forall|k: int| 0 <= k < ascending(cs).len() ==> (#[trigger] ascending(cs)[k]) >= low,
{
    lemma_ascending(cs);
    cs.to_multiset_ensures();
    ascending(cs).to_multiset_ensures();
    assert forall|k: int| 0 <= k < ascending(cs).len() implies (#[trigger] ascending(cs)[k])
        >= low by {
        let x = ascending(cs)[k];
        assert(ascending(cs).to_multiset().count(x) > 0);
        assert(cs.to_multiset().count(x) > 0);
        assert(cs.contains(x));
        let w = choose|w: int| 0 <= w < cs.len() && cs[w] == x;
        assert(cs[w] >= low);
    }
}

/// The reporting cycles: every fortieth cycle from 20 up to (excluding)
/// `maxc`.
pub open spec fn report_cycles(c: int, maxc: int) -> Seq<u64>
    decreases maxc - c,
{
    if c < 0 || c >= maxc {
        Seq::empty()
    } else {
        seq![c as u64] + report_cycles(
            if c + 40 <= maxc {
                c + 40
            } else {
                maxc
            },
            maxc,
        )
    }
}

/// The sum of cycle times value over the sampled entries from `j` on.
pub open spec fn strength_sum(entries: Seq<(int, int)>, j: int) -> int
    decreases entries.len() - j,
{
    if j < 0 || j >= entries.len() {
        0
    } else {
        entries[j].0 * entries[j].1 + strength_sum(entries, j + 1)
    }
}

/// The sampled entries whose strengths part one sums.
pub open spec fn day10_samples(s: Seq<char>) -> Seq<(int, int)> {
    let wave = wave_of(day10_ops(s));
    x_at(wave, to_ints(ascending(report_cycles(20, wave.last().0))), 0, 0)
}

/// The per-cycle table of `s`.
pub open spec fn day10_xpc(s: Seq<char>) -> Seq<(int, int)> {
    xpc_from(wave_of(day10_ops(s)), 0, Seq::empty())
}

/// What the computation needs of the machine's bounds.
pub open spec fn day10_limits(s: Seq<char>) -> bool {
    let wave = wave_of(day10_ops(s));
    let entries = day10_samples(s);
    &&& wave_fits(day10_ops(s))
    &&& forall|k: int| 0 <= k < wave.len() ==> 0 <= (#[trigger] wave[k]).0 <= i32::MAX
    &&& i32::MAX < usize::MAX - 41
    &&& forall|k: int|
        0 <= k < entries.len() ==> i32::MIN <= (#[trigger] entries[k]).0 * entries[k].1
            <= i32::MAX
    &&& forall|k: int| 0 <= k < entries.len() ==> 0 <= (#[trigger] entries[k]).0 <= i32::MAX
    &&& forall|m: int|
        0 <= m <= entries.len() ==> i32::MIN <= strength_sum(entries, 0) - #[trigger] strength_sum(
            entries,
            m,
        ) <= i32::MAX
    &&& day10_xpc(s).len() >= 1
    &&& screen_vals_ok(day10_xpc(s))
}

proof fn lemma_report_cycles_low(c: int, maxc: int)
    requires
        c >= 1,
        maxc <= u64::MAX,
    ensures
        forall|k: int|
            0 <= k < report_cycles(c, maxc).len() ==> (#[trigger] report_cycles(c, maxc)[k]) >= 1
                && report_cycles(c, maxc)[k] < maxc,
    decreases maxc - c,
{
    if 0 <= c < maxc {
        let next: int = if c + 40 <= maxc {
            c + 40
        } else {
            maxc
        };
        lemma_report_cycles_low(next, maxc);
        assert forall|k: int|
            0 <= k < report_cycles(c, maxc).len() implies (#[trigger] report_cycles(c, maxc)[k])
            >= 1 && report_cycles(c, maxc)[k] < maxc by {
            if k > 0 {
                assert(report_cycles(c, maxc)[k] == report_cycles(next, maxc)[k - 1]);
            }
        }
    }
}

/// Sum the signal strengths at the reporting cycles, and draw the screen
/// after a leading line break; `None` exactly when a line is not an
/// instruction.
pub fn solution(contents: &str) -> (r: Option<(String, String)>)
    requires
        day10_ok(contents@) ==> day10_limits(contents@),
    ensures
        r is Some <==> day10_ok(contents@),
        r is Some ==> r->Some_0.0@ == dec_int(strength_sum(day10_samples(contents@), 0)),
        r is Some ==> r->Some_0.1@ == seq!['\n'] + screen_from(
            day10_xpc(contents@),
            1,
            day10_xpc(contents@).len() as int,
        ),
{
    let register = match Register::parse(contents) {
        Some(rg) => rg,
        None => {
            return None;
        },
    };
    let ghost od = day10_ops(contents@);
    let ghost wave = wave_of(od);
    proof {
        lemma_wave_len(od);
        lemma_wave_prefix(od, 0);
        assert(od.take(0) =~= Seq::<(int, int)>::empty());
        lemma_wave_len(od.take(0));
        assert(wave_of(od.take(0))[0] == wave[0]);
        assert(wave[0] == (1int, 1int));
        assert(register.signal_wave@.len() == wave.len());
        assert forall|k: int|
            0 <= k < wave.len() implies ((#[trigger] register.signal_wave@[k]).0 as int,
        register.signal_wave@[k].1 as int) == wave[k] by {
            assert(ops_view(register.signal_wave@)[k] == wave[k]);
        }
    }
    let max_cycle = register.signal_wave[register.signal_wave.len() - 1].0;
    proof {
        assert(max_cycle as int == wave.last().0);
        assert(wave[wave.len() - 1].0 <= i32::MAX);
    }
    let mut cycles: Vec<usize> = Vec::new();
    let mut c: usize = 20;
    proof {
        assert(cycles_u64(cycles@) + report_cycles(20, max_cycle as int) =~= report_cycles(
            20,
            max_cycle as int,
        ));
    }
    while c < max_cycle
        invariant
            20 <= c,
            max_cycle <= i32::MAX,
            report_cycles(20, max_cycle as int) == cycles_u64(cycles@) + report_cycles(
                c as int,
                max_cycle as int,
            ),
            forall|k: int| 0 <= k < cycles@.len() ==> (#[trigger] cycles@[k]) >= 1,
        decreases max_cycle + 40 - c,
    {
        let ghost pre = cycles_u64(cycles@);
        cycles.push(c);
        proof {
            assert(cycles_u64(cycles@) =~= pre.push(c as u64));
            let clamped: int = if c + 40 <= max_cycle {
                c + 40
            } else {
                max_cycle as int
            };
            assert(report_cycles(c as int, max_cycle as int) == seq![c as u64] + report_cycles(
                clamped,
                max_cycle as int,
            ));
            assert(report_cycles(clamped, max_cycle as int) =~= report_cycles(
                c + 40,
                max_cycle as int,
            ));
            assert(report_cycles(20, max_cycle as int) =~= cycles_u64(cycles@) + report_cycles(
                c + 40,
                max_cycle as int,
            ));
        }
        c = c + 40;
    }
    proof {
        assert(report_cycles(c as int, max_cycle as int) =~= Seq::<u64>::empty());
        assert(cycles_u64(cycles@) =~= report_cycles(20, max_cycle as int));
    }
    let x_at_cycles = register.get_x_at_cycles(cycles);
    let ghost entries = day10_samples(contents@);
    proof {
        assert(ops_view(x_at_cycles@) == entries);
    }
    let mut result1: i32 = 0;
    let mut j: usize = 0;
    while j < x_at_cycles.len()
        invariant
            j <= x_at_cycles@.len(),
            entries == day10_samples(contents@),
            ops_view(x_at_cycles@) == entries,
            entries.len() == x_at_cycles@.len(),
            forall|k: int|
                0 <= k < entries.len() ==> ((#[trigger] x_at_cycles@[k]).0 as int,
                x_at_cycles@[k].1 as int) == entries[k],
            forall|k: int|
                0 <= k < entries.len() ==> i32::MIN <= (#[trigger] entries[k]).0 * entries[k].1
                    <= i32::MAX,
            forall|m: int|
                0 <= m <= entries.len() ==> i32::MIN <= strength_sum(entries, 0)
                    - #[trigger] strength_sum(entries, m) <= i32::MAX,
            forall|k: int| 0 <= k < entries.len() ==> 0 <= (#[trigger] entries[k]).0 <= i32::MAX,
            result1 == strength_sum(entries, 0) - strength_sum(entries, j as int),
        decreases x_at_cycles.len() - j,
    {
        let (cyc, sig) = x_at_cycles[j];
        proof {
            assert(strength_sum(entries, j as int) == entries[j as int].0 * entries[j as int].1
                + strength_sum(entries, j + 1));
            assert((cyc as int) * (sig as int) == entries[j as int].0 * entries[j as int].1);
        }
        result1 = result1 + (cyc as i32) * sig;
        j = j + 1;
    }
    let screen = register.draw_screen();
    let mut out: Vec<char> = Vec::new();
    out.push('\n');
    let screen_chars = chars_of(screen.as_str());
    let mut m: usize = 0;
    while m < screen_chars.len()
        invariant
            m <= screen_chars@.len(),
            out@ == seq!['\n'] + screen_chars@.take(m as int),
        decreases screen_chars.len() - m,
    {
        out.push(screen_chars[m]);
        proof {
            assert(out@ =~= seq!['\n'] + screen_chars@.take(m + 1));
        }
        m = m + 1;
    }
    proof {
        assert(screen_chars@.take(screen_chars@.len() as int) =~= screen_chars@);
    }
    Some((i64_string(result1 as i64), chars_to_string(&out)))
}

/// Every prefix of the wave is a prefix of the whole wave.
proof fn lemma_wave_prefix(ops: Seq<(int, int)>, m: int)
    requires
        0 <= m <= ops.len(),
    ensures
        wave_of(ops.take(m)).is_prefix_of(wave_of(ops)),
        forall|k: int|
            0 <= k < wave_of(ops.take(m)).len() ==> #[trigger] wave_of(ops.take(m))[k] == wave_of(
                ops,
            )[k],
    decreases ops.len() - m,
{
    lemma_wave_len(ops);
    lemma_wave_len(ops.take(m));
    if m < ops.len() {
        lemma_wave_prefix(ops, m + 1);
        lemma_wave_len(ops.take(m + 1));
        assert(ops.take(m + 1).drop_last() =~= ops.take(m));
        assert(wave_of(ops.take(m + 1)).drop_last() == wave_of(ops.take(m)));
        assert(wave_of(ops.take(m)).is_prefix_of(wave_of(ops.take(m + 1))));
        assert(wave_of(ops.take(m)).is_prefix_of(wave_of(ops))) by {
            assert(wave_of(ops.take(m)) =~= wave_of(ops).take(m + 1));
        }
    } else {
        assert(ops.take(m) =~= ops);
    }
}

} // verus!
