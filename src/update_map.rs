//! Sources of pending writes that a leaf folds in by batch.

use vstd::prelude::*;
use std::collections::BTreeMap;

verus! {

broadcast use vstd::std_specs::btree::group_btree_axioms, vstd::laws_cmp::group_laws_cmp;

/// The pending writes of `m` whose index lies in `[start, end)`, in
/// ascending order of index.
pub open spec fn pending_in_range<T>(m: Map<usize, T>, start: nat, end: nat) -> Seq<(usize, T)>
    decreases end - start,
{
    if start >= end || start > usize::MAX {
        seq![]
    } else {
        let rest = pending_in_range(m, start + 1, end);
        if m.contains_key(start as usize) {
            seq![(start as usize, m[start as usize])] + rest
        } else {
            rest
        }
    }
}

/// A map from absolute index to the value that is to be written there.
pub trait UpdateMap<T> {
    /// The pending writes, by absolute index.
    spec fn pending(&self) -> Map<usize, T>;

    /// The pending writes in `[start, end)`, in ascending order of index.
    fn entries_in_range(&self, start: usize, end: usize) -> (r: Vec<(usize, T)>)
        ensures
            r@ == pending_in_range(self.pending(), start as nat, end as nat),
    ;
}

impl<T: Copy> UpdateMap<T> for BTreeMap<usize, T> {
    open spec fn pending(&self) -> Map<usize, T> {
        self@
    }

    fn entries_in_range(&self, start: usize, end: usize) -> (r: Vec<(usize, T)>) {
        let ghost m = self@;
        let mut r: Vec<(usize, T)> = Vec::new();
        let mut k: usize = start;
        while k < end
            invariant
                start <= k,
                start < end ==> k <= end,
                m == self@,
                r@ + pending_in_range(m, k as nat, end as nat) == pending_in_range(
                    m,
                    start as nat,
                    end as nat,
                ),
            decreases end - k,
        {
            let ghost before = r@;
            match self.get(&k) {
                Some(v) => {
                    r.push((k, *v));
                },
                None => {},
            }
            proof {
                let rest = pending_in_range(m, (k + 1) as nat, end as nat);
                if m.contains_key(k) {
                    assert(r@ + rest =~= before + pending_in_range(m, k as nat, end as nat));
                } else {
                    assert(r@ + rest =~= before + pending_in_range(m, k as nat, end as nat));
                }
            }
            k = k + 1;
        }
        assert(r@ =~= r@ + pending_in_range(m, k as nat, end as nat));
        r
    }
}

} // verus!
