use crate::text::{chars_of, is_digit, lemma_deep_view_chars, line_seqs, split_by_sub, split_sub};
use crate::text::{split_lines, trim, trim_ws};
use vstd::prelude::*;

verus! {

broadcast use vstd::std_specs::vec::axiom_vec_index_decreases, vstd::seq::axiom_seq_index_decreases;

/// One element of a packet: a number, or a list of elements.
#[derive(PartialEq, Eq, Debug)]
pub enum PacketData {
    Num(u8),
    List(Vec<PacketData>),
}

/// The abstract form of a packet element.
pub enum PData {
    Num(u8),
    List(Seq<PData>),
}

/// The abstract form of a packet element.
pub open spec fn pview(p: PacketData) -> PData
    decreases p,
    via pview_decreases
{
    match p {
        PacketData::Num(n) => PData::Num(n),
        PacketData::List(v) => PData::List(pviews(v@)),
    }
}

/// The abstract forms of a run of elements.
pub open spec fn pviews(s: Seq<PacketData>) -> Seq<PData>
    decreases s,
{
    if s.len() == 0 {
        Seq::empty()
    } else {
        pviews(s.drop_last()).push(pview(s.last()))
    }
}

#[via_fn]
proof fn pview_decreases(p: PacketData) {
    match p {
        PacketData::Num(n) => {
        },
        PacketData::List(v) => {
            assert(decreases_to!(p => v));
            assert(decreases_to!(v => v@));
        },
    }
}

/// The abstract forms index as the elements do.
pub proof fn lemma_pviews(s: Seq<PacketData>)
    ensures
        pviews(s).len() == s.len(),
        forall|k: int| 0 <= k < s.len() ==> #[trigger] pviews(s)[k] == pview(s[k]),
    decreases s,
{
    if s.len() > 0 {
        lemma_pviews(s.drop_last());
    }
}

/// One parsed element and the position just after it, or `None` when the
/// text at `i` is not an element (or the work budget runs out).
pub open spec fn parse_value(s: Seq<char>, i: int, fuel: nat) -> Option<(PData, int)>
    decreases fuel,
{
    if fuel == 0 || i < 0 || i >= s.len() {
        None
    } else if s[i] == '[' {
        match parse_elems(s, i + 1, (fuel - 1) as nat) {
            Some((elems, j)) => {
                if j < s.len() && s[j] == ']' {
                    Some((PData::List(elems), j + 1))
                } else {
                    None
                }
            },
            None => None,
        }
    } else if is_digit(s[i]) {
        let e = digits_end(s, i);
        if digits_num(s, i, e) <= u8::MAX {
            Some((PData::Num(digits_num(s, i, e) as u8), e))
        } else {
            None
        }
    } else {
        None
    }
}

/// The comma-separated elements starting at `i`, and the position of the
/// closing bracket that follows them.
pub open spec fn parse_elems(s: Seq<char>, i: int, fuel: nat) -> Option<(Seq<PData>, int)>
    decreases fuel,
{
    if fuel == 0 || i < 0 || i > s.len() {
        None
    } else if i < s.len() && s[i] == ']' {
        Some((Seq::empty(), i))
    } else {
        match parse_value(s, i, (fuel - 1) as nat) {
            Some((v, j)) => {
                if j < s.len() && s[j] == ',' {
                    match parse_elems(s, j + 1, (fuel - 1) as nat) {
                        Some((rest, k)) => {
                            if j + 1 < s.len() && s[j + 1] == ']' {
                                None
                            } else {
                                Some((seq![v] + rest, k))
                            }
                        },
                        None => None,
                    }
                } else {
                    Some((seq![v], j))
                }
            },
            None => None,
        }
    }
}

/// The end of the digit run starting at `i`.
pub open spec fn digits_end(s: Seq<char>, i: int) -> int
    decreases s.len() - i,
{
    if i < 0 || i >= s.len() {
        i
    } else if is_digit(s[i]) {
        digits_end(s, i + 1)
    } else {
        i
    }
}

/// The value of the digits from `i` up to `e`.
pub open spec fn digits_num(s: Seq<char>, i: int, e: int) -> int
    decreases e - i,
{
    if i >= e {
        0
    } else {
        digits_num(s, i, e - 1) * 10 + (s[e - 1] as u32 - 48)
    }
}

/// The elements of a whole packet line: the list between its outer
/// brackets; an empty sequence when the line is not a single packet.
pub open spec fn packet_of(s: Seq<char>) -> Seq<PData> {
    match parse_value(s, 0, (s.len() + 1) as nat) {
        Some((v, j)) => match v {
            PData::List(elems) => {
                if j == s.len() {
                    elems
                } else {
                    Seq::empty()
                }
            },
            PData::Num(n) => Seq::empty(),
        },
        None => Seq::empty(),
    }
}

proof fn lemma_digits_num_nonneg(s: Seq<char>, i: int, e: int)
    requires
        forall|k: int| i <= k < e ==> is_digit(#[trigger] s[k]),
    ensures
        0 <= digits_num(s, i, e),
    decreases e - i,
{
    if i < e {
        lemma_digits_num_nonneg(s, i, e - 1);
    }
}

proof fn lemma_digits_num_grows(s: Seq<char>, i: int, e1: int, e2: int)
    requires
        i <= e1 <= e2,
        forall|k: int| i <= k < e2 ==> is_digit(#[trigger] s[k]),
    ensures
        0 <= digits_num(s, i, e1) <= digits_num(s, i, e2),
    decreases e2 - e1,
{
    lemma_digits_num_nonneg(s, i, e1);
    if e1 < e2 {
        lemma_digits_num_grows(s, i, e1, e2 - 1);
        lemma_digits_num_nonneg(s, i, e2 - 1);
        assert(digits_num(s, i, e2) == digits_num(s, i, e2 - 1) * 10 + (s[e2 - 1] as u32 - 48));
    }
}

/// Whether `c` is a decimal digit.
fn ascii_digit(c: char) -> (r: bool)
    ensures
        r == is_digit(c),
{
    let u = c as u32;
    48 <= u && u <= 57
}

/// One element read at `i`, with the position after it.
fn value_at(s: &Vec<char>, i: usize, fuel: usize) -> (r: Option<(PacketData, usize)>)
    ensures
        match r {
            Some(p) => parse_value(s@, i as int, fuel as nat) == Some(
                (pview(p.0), p.1 as int),
            ) && p.1 <= s@.len(),
            None => parse_value(s@, i as int, fuel as nat) is None,
        },
    decreases fuel,
{
    if fuel == 0 || i >= s.len() {
        return None;
    }
    if s[i] == '[' {
        let inner = elems_at(s, i + 1, fuel - 1);
        match inner {
            Some((elems, j)) => {
                if j < s.len() && s[j] == ']' {
                    Some((PacketData::List(elems), j + 1))
                } else {
                    None
                }
            },
            None => None,
        }
    } else {
        let u = s[i] as u32;
        if u < 48 || u > 57 {
            return None;
        }
        let mut e: usize = i;
        let mut cur: u64 = 0;
        while e < s.len() && ascii_digit(s[e])
            invariant
                i <= e <= s@.len(),
                forall|k: int| i <= k < e ==> is_digit(#[trigger] s@[k]),
                digits_end(s@, i as int) == digits_end(s@, e as int),
                (cur <= 255 && cur == digits_num(s@, i as int, e as int)) || (cur == 256
                    && digits_num(s@, i as int, e as int) > 255),
            decreases s@.len() - e,
        {
            proof {
                lemma_digits_num_grows(s@, i as int, i as int, e as int);
            }
            let d = (s[e] as u32 - 48) as u64;
            cur = if cur > 255 {
                256
            } else {
                let c2 = cur * 10 + d;
                if c2 > 255 {
                    256
                } else {
                    c2
                }
            };
            e = e + 1;
            proof {
                assert(digits_num(s@, i as int, e as int) == digits_num(
                    s@,
                    i as int,
                    e - 1,
                ) * 10 + (s@[e - 1] as u32 - 48));
                if cur == 256 {
                    lemma_digits_num_grows(s@, i as int, i as int, e - 1);
                }
            }
        }
        proof {
            assert(digits_end(s@, e as int) == e);
            assert(digits_end(s@, i as int) == e);
        }
        if cur > 255 {
            return None;
        }
        Some((PacketData::Num(cur as u8), e))
    }
}

/// A comma-separated element list read at `i`, with the position of the
/// closing bracket after it.
fn elems_at(s: &Vec<char>, i: usize, fuel: usize) -> (r: Option<(Vec<PacketData>, usize)>)
    ensures
        match r {
            Some(p) => parse_elems(s@, i as int, fuel as nat) == Some(
                (pviews(p.0@), p.1 as int),
            ) && p.1 <= s@.len(),
            None => parse_elems(s@, i as int, fuel as nat) is None,
        },
    decreases fuel,
{
    if fuel == 0 || i > s.len() {
        return None;
    }
    if i < s.len() && s[i] == ']' {
        let out: Vec<PacketData> = Vec::new();
        proof {
            assert(pviews(out@) =~= Seq::<PData>::empty());
        }
        return Some((out, i));
    }
    let (v, j) = match value_at(s, i, fuel - 1) {
        Some(p) => p,
        None => {
            return None;
        },
    };
    if j < s.len() && s[j] == ',' {
        if j + 1 < s.len() && s[j + 1] == ']' {
            return None;
        }
        let (rest0, k) = match elems_at(s, j + 1, fuel - 1) {
            Some(p) => p,
            None => {
                return None;
            },
        };
        let mut rest = rest0;
        let ghost target = seq![pview(v)] + pviews(rest@);
        let mut out: Vec<PacketData> = Vec::new();
        out.push(v);
        proof {
            lemma_pviews(out@);
            lemma_pviews(rest@);
            assert(pviews(out@) =~= seq![pviews(out@)[0]]);
            assert(pviews(out@) + pviews(rest@) =~= target);
        }
        while rest.len() > 0
            invariant
                pviews(out@) + pviews(rest@) =~= target,
            decreases rest.len(),
        {
            let ghost pre_out = out@;
            let ghost pre_rest = rest@;
            let x = rest.remove(0);
            out.push(x);
            proof {
                lemma_pviews(pre_out);
                lemma_pviews(pre_rest);
                lemma_pviews(out@);
                lemma_pviews(rest@);
                assert(rest@ =~= pre_rest.drop_first());
                assert(pviews(out@) =~= pviews(pre_out).push(pview(x)));
                assert(pviews(rest@) =~= pviews(pre_rest).drop_first());
                assert(pviews(pre_rest)[0] == pview(x));
                assert(pviews(out@) + pviews(rest@) =~= pviews(pre_out) + pviews(pre_rest));
            }
        }
        proof {
            lemma_pviews(rest@);
            assert(pviews(rest@) =~= Seq::<PData>::empty());
            assert(pviews(out@) =~= target);
        }
        Some((out, k))
    } else {
        let mut out: Vec<PacketData> = Vec::new();
        out.push(v);
        proof {
            lemma_pviews(out@);
            assert(pviews(out@) =~= seq![pview(v)]);
        }
        Some((out, j))
    }
}

/// The elements of one packet line; empty when the line is not a single
/// well-formed packet.
fn packet_from_chars(v: &Vec<char>) -> (r: Vec<PacketData>)
    requires
        v@.len() < usize::MAX,
    ensures
        pviews(r@) == packet_of(v@),
{
    let fuel = v.len() + 1;
    match value_at(v, 0, fuel) {
        Some((p, j)) => match p {
            PacketData::List(elems) => {
                if j == v.len() {
                    elems
                } else {
                    let out: Vec<PacketData> = Vec::new();
                    proof {
                        assert(pviews(out@) =~= Seq::<PData>::empty());
                    }
                    out
                }
            },
            PacketData::Num(_) => {
                let out: Vec<PacketData> = Vec::new();
                proof {
                    assert(pviews(out@) =~= Seq::<PData>::empty());
                }
                out
            },
        },
        None => {
            let out: Vec<PacketData> = Vec::new();
            proof {
                assert(pviews(out@) =~= Seq::<PData>::empty());
            }
            out
        },
    }
}

/// The elements of one packet line; empty when the line is not a single
/// well-formed packet.
pub fn parse_packet_data(s: &str) -> (r: Vec<PacketData>)
    requires
        s@.len() < usize::MAX,
    ensures
        pviews(r@) == packet_of(s@),
{
    let v = chars_of(s);
    packet_from_chars(&v)
}

pub open spec fn blank_sep() -> Seq<char> {
    seq!['\n', '\n']
}

/// The blank-line-separated chunks of the trimmed input.
pub open spec fn day13_chunks(s: Seq<char>) -> Seq<Seq<char>> {
    split_sub(trim_ws(s), blank_sep())
}

/// Whether every chunk has at least two lines.
pub open spec fn day13_ok(s: Seq<char>) -> bool {
    forall|k: int| 0 <= k < day13_chunks(s).len() ==> line_seqs(#[trigger] day13_chunks(s)[k]).len()
        >= 2
}

/// The packet pair of one chunk: its first two lines, each parsed.
pub open spec fn chunk_pair(c: Seq<char>) -> (Seq<PData>, Seq<PData>) {
    (packet_of(line_seqs(c)[0]), packet_of(line_seqs(c)[1]))
}

/// Read the blank-line-separated packet pairs; `None` exactly when a chunk
/// lacks two lines.
pub fn parser(input: &str) -> (r: Option<Vec<(Vec<PacketData>, Vec<PacketData>)>>)
    requires
        input@.len() < usize::MAX,
    ensures
        r is Some <==> day13_ok(input@),
        r is Some ==> ({
            let cs = day13_chunks(input@);
            &&& r->Some_0@.len() == cs.len()
            &&& forall|k: int|
                0 <= k < cs.len() ==> (pviews(#[trigger] r->Some_0@[k].0@), pviews(
                    r->Some_0@[k].1@,
                )) == chunk_pair(cs[k])
        }),
{
    let chars = chars_of(input);
    let trimmed = trim(&chars);
    proof {
        reveal_strlit("\n\n");
    }
    let sepv = chars_of("\n\n");
    proof {
        assert(sepv@ =~= blank_sep());
        crate::text::lemma_trim_len(input@);
    }
    let chunks = split_by_sub(&trimmed, &sepv);
    let ghost cs = day13_chunks(input@);
    proof {
        lemma_deep_view_chars(&chunks);
        crate::text::lemma_split_sub_lens(trim_ws(input@), blank_sep());
        assert forall|i: int| 0 <= i < chunks@.len() implies (#[trigger] chunks@[i]@).len()
            < usize::MAX by {
            assert(chunks@[i]@ == cs[i]);
            assert(cs[i].len() <= trim_ws(input@).len());
        }
    }
    let mut result: Vec<(Vec<PacketData>, Vec<PacketData>)> = Vec::new();
    let mut k: usize = 0;
    while k < chunks.len()
        invariant
            k <= chunks@.len(),
            cs == day13_chunks(input@),
            chunks@.len() == cs.len(),
            forall|i: int| 0 <= i < chunks@.len() ==> #[trigger] chunks@[i]@ == cs[i],
            forall|i: int| 0 <= i < chunks@.len() ==> (#[trigger] chunks@[i]@).len() < usize::MAX,
            forall|i: int| 0 <= i < k ==> line_seqs(#[trigger] cs[i]).len() >= 2,
            result@.len() == k,
            forall|i: int|
                0 <= i < k ==> (pviews(#[trigger] result@[i].0@), pviews(result@[i].1@))
                    == chunk_pair(cs[i]),
        decreases chunks.len() - k,
    {
        let pair_lines = split_lines(&chunks[k]);
        proof {
            lemma_deep_view_chars(&pair_lines);
            crate::text::lemma_line_lens(cs[k as int]);
        }
        if pair_lines.len() < 2 {
            return None;
        }
        proof {
            assert(pair_lines@[0]@ == line_seqs(cs[k as int])[0]);
            assert(pair_lines@[1]@ == line_seqs(cs[k as int])[1]);
            assert(line_seqs(cs[k as int])[0].len() <= cs[k as int].len());
            assert(line_seqs(cs[k as int])[1].len() <= cs[k as int].len());
            assert(cs[k as int].len() < usize::MAX);
        }
        let left = packet_from_chars(&pair_lines[0]);
        let right = packet_from_chars(&pair_lines[1]);
        result.push((left, right));
        k = k + 1;
    }
    Some(result)
}

/// The two answers of this module's puzzle: not yet computed, both reported
/// as zero.
pub fn solution(contents: &str) -> (r: (String, String))
    ensures
        r.0@ == crate::text::dec_nat(0),
        r.1@ == crate::text::dec_nat(0),
{
    let result1 = crate::text::u64_string(0);
    let result2 = crate::text::u64_string(0);
    (result1, result2)
}

} // verus!
