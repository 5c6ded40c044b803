use vstd::prelude::*;
use vstd::multiset::Multiset;
use vstd::relations::{sorted_by, total_ordering};
use vstd::seq_lib::group_to_multiset_ensures;
use vstd::seq_lib::lemma_multiset_commutative;
use vstd::seq_lib::to_multiset_build;
use vstd::seq_lib::lemma_sorted_unique;

verus! {

/// The ordering by which `u64` values are sorted.
pub open spec fn u64_leq() -> spec_fn(u64, u64) -> bool {
    |a: u64, b: u64| a <= b
}

/// The elements of `s` in ascending order.
pub open spec fn ascending(s: Seq<u64>) -> Seq<u64> {
    s.sort_by(u64_leq())
}

pub proof fn lemma_u64_leq_total()
    ensures
        total_ordering(u64_leq()),
{
    assert forall|a: u64, b: u64| !(#[trigger] u64_leq()(a, b)) implies u64_leq()(b, a) by {}
}

pub proof fn lemma_ascending(s: Seq<u64>)
    ensures
        sorted_by(ascending(s), u64_leq()),
        ascending(s).to_multiset() == s.to_multiset(),
        ascending(s).len() == s.len(),
{
    lemma_u64_leq_total();
    s.lemma_sort_by_ensures(u64_leq());
    s.to_multiset_ensures();
    ascending(s).to_multiset_ensures();
}

/// Sort the values ascending.
pub fn sort_u64(v: &Vec<u64>) -> (r: Vec<u64>)
    ensures
        r@ == ascending(v@),
{
    broadcast use group_to_multiset_ensures;

    let mut r: Vec<u64> = Vec::new();
    let mut i: usize = 0;
    proof {
        assert(v@.take(0) =~= Seq::<u64>::empty());
        assert(r@.to_multiset() =~= v@.take(0).to_multiset());
    }
    while i < v.len()
        invariant
            i <= v.len(),
            sorted_by(r@, u64_leq()),
            r@.to_multiset() == v@.take(i as int).to_multiset(),
            r@.len() == i,
        decreases v.len() - i,
    {
        let x = v[i];
        let mut j: usize = 0;
        while j < r.len() && r[j] <= x
            invariant
                j <= r.len(),
                forall|k: int| 0 <= k < j ==> r@[k] <= x,
            decreases r.len() - j,
        {
            j = j + 1;
        }
        let ghost old_r = r@;
        r.insert(j, x);
        proof {
            assert(r@ =~= old_r.take(j as int).push(x) + old_r.skip(j as int));
            to_multiset_build(old_r.take(j as int), x);
            to_multiset_build(v@.take(i as int), x);
            lemma_multiset_commutative(old_r.take(j as int).push(x), old_r.skip(j as int));
            assert(old_r.take(j as int).push(x).to_multiset() =~= old_r.take(
                j as int,
            ).to_multiset().insert(x));
            assert(old_r =~= old_r.take(j as int) + old_r.skip(j as int));
            lemma_multiset_commutative(old_r.take(j as int), old_r.skip(j as int));
            assert(r@.to_multiset() =~= old_r.to_multiset().insert(x));
            assert(v@.take(i + 1) =~= v@.take(i as int).push(x));
            assert(v@.take(i as int).push(x).to_multiset() =~= v@.take(
                i as int,
            ).to_multiset().insert(x));
            assert(v@.take(i + 1).to_multiset() =~= v@.take(i as int).to_multiset().insert(x));
            assert(sorted_by(r@, u64_leq())) by {
                let jj = j as int;
                assert forall|m: int, n: int| 0 <= m < n < r@.len() implies u64_leq()(
                    r@[m],
                    r@[n],
                ) by {
                    assert(forall|k: int| 0 <= k < jj ==> #[trigger] r@[k] == old_r[k]);
                    assert(r@[jj] == x);
                    assert(forall|k: int| jj < k < r@.len() ==> #[trigger] r@[k] == old_r[k - 1]);
                    if n < jj {
                        assert(u64_leq()(old_r[m], old_r[n]));
                    } else if m < jj && n == jj {
                        assert(old_r[m] <= x);
                    } else if m < jj && n > jj {
                        assert(u64_leq()(old_r[m], old_r[n - 1]));
                    } else if m == jj && n > jj {
                        assert(x <= old_r[jj]);
                        if n - 1 > jj {
                            assert(u64_leq()(old_r[jj], old_r[n - 1]));
                        }
                    } else {
                        assert(u64_leq()(old_r[m - 1], old_r[n - 1]));
                    }
                }
            }
        }
        i = i + 1;
    }
    proof {
        assert(v@.take(v@.len() as int) =~= v@);
        lemma_u64_leq_total();
        v@.lemma_sort_by_ensures(u64_leq());
        lemma_sorted_unique(r@, ascending(v@), u64_leq());
        assert(r@ =~= ascending(v@));
    }
    r
}

} // verus!
