//! Descending sort of roll values, used by the keep/drop selection.

use vstd::prelude::*;
use vstd::relations::{sorted_by, total_ordering};
use vstd::seq_lib::lemma_sorted_unique;

verus! {

/// The order in which kept rolls are arranged: larger values first.
pub open spec fn desc_leq() -> spec_fn(u32, u32) -> bool {
    |x: u32, y: u32| x >= y
}

/// The sequence is in weakly descending order.
pub open spec fn sorted_desc(s: Seq<u32>) -> bool {
    forall|i: int, j: int| 0 <= i < j < s.len() ==> s[i] >= s[j]
}

/// `s` rearranged into weakly descending order.
pub open spec fn sort_desc(s: Seq<u32>) -> Seq<u32> {
    s.sort_by(desc_leq())
}

/// "Larger values first" is a total order on `u32`.
pub proof fn lemma_desc_leq_total_ordering()
    ensures
        total_ordering(desc_leq()),
{
}

/// `sorted_desc` says of a sequence exactly what `sorted_by` says of it
/// under the "larger values first" order.
pub proof fn lemma_sorted_desc_iff(s: Seq<u32>)
    ensures
        sorted_desc(s) <==> sorted_by(s, desc_leq()),
{
    let leq = desc_leq();
    if sorted_desc(s) {
        assert forall|i: int, j: int| 0 <= i < j < s.len() implies #[trigger] leq(s[i], s[j]) by {
            assert(s[i] >= s[j]);
        }
    }
    if sorted_by(s, leq) {
        assert forall|i: int, j: int| 0 <= i < j < s.len() implies s[i] >= s[j] by {
            assert(leq(s[i], s[j]));
        }
    }
}

/// The descending sort of a sequence is sorted and has exactly the
/// original elements, each with its original multiplicity.
pub proof fn lemma_sort_desc_ensures(s: Seq<u32>)
    ensures
        sorted_desc(sort_desc(s)),
        sort_desc(s).to_multiset() == s.to_multiset(),
        sort_desc(s).len() == s.len(),
{
    broadcast use vstd::seq_lib::to_multiset_len;

    lemma_desc_leq_total_ordering();
    s.lemma_sort_by_ensures(desc_leq());
    lemma_sorted_desc_iff(sort_desc(s));
    assert(sort_desc(s).to_multiset().len() == s.to_multiset().len());
}

/// A weakly descending sequence with the same elements as `s`, each with the
/// same multiplicity, is the descending sort of `s`.
pub proof fn lemma_sorted_desc_unique(s: Seq<u32>, r: Seq<u32>)
    requires
        sorted_desc(r),
        r.to_multiset() == s.to_multiset(),
    ensures
        r == sort_desc(s),
{
    lemma_desc_leq_total_ordering();
    lemma_sort_desc_ensures(s);
    lemma_sorted_desc_iff(r);
    lemma_sorted_desc_iff(sort_desc(s));
    lemma_sorted_unique(r, sort_desc(s), desc_leq());
}

/// A copy of `v` in weakly descending order (insertion sort).
pub fn sort_desc_exec(v: &Vec<u32>) -> (r: Vec<u32>)
    ensures
        r@ == sort_desc(v@),
{
    let mut r: Vec<u32> = Vec::new();
    let mut i: usize = 0;
    proof {
        assert(v@.take(0) =~= r@);
    }
    while i < v.len()
        invariant
            i <= v.len(),
            sorted_desc(r@),
            r@.to_multiset() == v@.take(i as int).to_multiset(),
            r@.len() == i,
        decreases v.len() - i,
    {
        let x = v[i];
        let mut p: usize = 0;
        while p < r.len() && r[p] > x
            invariant
                p <= r.len(),
                forall|q: int| 0 <= q < p ==> r@[q] > x,
            decreases r.len() - p,
        {
            p = p + 1;
        }
        let ghost old_r = r@;
        r.insert(p, x);
        proof {
            broadcast use vstd::seq_lib::to_multiset_build;
            broadcast use vstd::seq_lib::to_multiset_insert;

            assert(r@ == old_r.insert(p as int, x));
            assert(forall|q: int| p <= q < old_r.len() ==> x >= old_r[q]);
            assert forall|a: int, b: int| 0 <= a < b < r@.len() implies r@[a] >= r@[b] by {
                assert(forall|q: int| 0 <= q < p ==> r@[q] == old_r[q]);
                assert(forall|q: int| p < q < r@.len() ==> r@[q] == old_r[q - 1]);
            }
            assert(old_r.insert(p as int, x).to_multiset() == old_r.to_multiset().insert(x));
            assert(v@.take(i + 1) =~= v@.take(i as int).push(v@[i as int]));
            assert(v@.take(i as int).push(v@[i as int]).to_multiset() == v@.take(
                i as int,
            ).to_multiset().insert(v@[i as int]));
            assert(r@.to_multiset() =~= v@.take(i + 1).to_multiset());
        }
        i = i + 1;
    }
    proof {
        assert(v@.take(v@.len() as int) =~= v@);
        lemma_sorted_desc_unique(v@, r@);
    }
    r
}

} // verus!
