use vstd::prelude::*;

verus! {

/// The sum of the values in `s`.
pub open spec fn sum_u64(s: Seq<u64>) -> int
    decreases s.len(),
{
    if s.len() == 0 {
        0
    } else {
        sum_u64(s.drop_last()) + s.last()
    }
}

pub proof fn lemma_sum_u64_step(s: Seq<u64>, m: int)
    requires
        0 <= m < s.len(),
    ensures
        sum_u64(s.take(m + 1)) == sum_u64(s.take(m)) + s[m],
{
    assert(s.take(m + 1).drop_last() =~= s.take(m));
}

pub proof fn lemma_sum_u64_nonneg(s: Seq<u64>)
    ensures
        sum_u64(s) >= 0,
    decreases s.len(),
{
    if s.len() > 0 {
        lemma_sum_u64_nonneg(s.drop_last());
    }
}

/// A prefix never sums to more than the whole.
pub proof fn lemma_sum_u64_prefix(s: Seq<u64>, m: int)
    requires
        0 <= m <= s.len(),
    ensures
        sum_u64(s.take(m)) <= sum_u64(s),
    decreases s.len() - m,
{
    if m < s.len() {
        lemma_sum_u64_prefix(s, m + 1);
        lemma_sum_u64_step(s, m);
    } else {
        assert(s.take(m) =~= s);
    }
}

/// The widening of `u32` values to `u64`.
pub open spec fn u32s_to_u64s(s: Seq<u32>) -> Seq<u64> {
    s.map_values(|x: u32| x as u64)
}

/// The sum of the values in `s`.
pub open spec fn sum_u32(s: Seq<u32>) -> int {
    sum_u64(u32s_to_u64s(s))
}

} // verus!
