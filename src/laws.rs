//! Facts about packed leaves that span several operations.

use vstd::prelude::*;
use crate::value::{Value, chunk_len, value_len};
use crate::packed_leaf::{LeafView, slot, repeated, lemma_layout, lemma_slot_in_chunk, lemma_insert_wf};

verus! {

/// After a value is written into slot `i` of a leaf, slot `i` holds that
/// value's bytes, and the only value with those bytes is the one written.
pub proof fn lemma_get_after_insert<T: Value>(v: LeafView, i: nat, x: T)
    requires
        v.wf::<T>(),
        i < v.length,
    ensures
        i < v.insert(i, x.spec_bytes()).length,
        slot(v.insert(i, x.spec_bytes()).bytes, i as int, value_len::<T>() as int) == x.spec_bytes(),
        forall|y: T|
            #[trigger] y.spec_bytes() == slot(
                v.insert(i, x.spec_bytes()).bytes,
                i as int,
                value_len::<T>() as int,
            ) ==> y == x,
{
    lemma_layout::<T>();
    lemma_slot_in_chunk::<T>(i);
    T::lemma_bytes_len(x);
    let vl = value_len::<T>();
    assert((i + 1) * vl == i * vl + vl) by (nonlinear_arith);
    assert(slot(v.insert(i, x.spec_bytes()).bytes, i as int, vl as int) =~= x.spec_bytes());
    assert forall|y: T| #[trigger] y.spec_bytes() == x.spec_bytes() implies y == x by {
        T::lemma_bytes_injective(y, x);
    }
}

/// The leaf after pushing each value of `xs` in turn.
pub open spec fn pushed<T: Value>(v: LeafView, xs: Seq<T>) -> LeafView
    decreases xs.len(),
{
    if xs.len() == 0 {
        v
    } else {
        let p = pushed(v, xs.drop_last());
        p.insert(p.length, xs.last().spec_bytes())
    }
}

/// Pushing `packing_factor` values onto an empty leaf succeeds each time
/// (the leaf is below its capacity before every push) and leaves it full,
/// so one more push is refused.
pub proof fn lemma_push_fills<T: Value>(xs: Seq<T>)
    requires
        xs.len() == T::spec_packing_factor(),
    ensures
        forall|i: int|
            0 <= i < xs.len() ==> {
                &&& (#[trigger] pushed(LeafView::empty(), xs.take(i))).wf::<T>()
                &&& pushed(LeafView::empty(), xs.take(i)).length == i
                &&& i < T::spec_packing_factor()
            },
        pushed(LeafView::empty(), xs).wf::<T>(),
        pushed(LeafView::empty(), xs).length == T::spec_packing_factor(),
{
    lemma_layout::<T>();
    assert forall|i: int| 0 <= i <= xs.len() implies {
        &&& (#[trigger] pushed(LeafView::empty(), xs.take(i))).wf::<T>()
        &&& pushed(LeafView::empty(), xs.take(i)).length == i
    } by {
        lemma_pushed_prefix(xs, i);
    }
    assert(xs.take(xs.len() as int) =~= xs);
}

proof fn lemma_pushed_prefix<T: Value>(xs: Seq<T>, i: int)
    requires
        0 <= i <= xs.len() <= T::spec_packing_factor(),
    ensures
        pushed(LeafView::empty(), xs.take(i)).wf::<T>(),
        pushed(LeafView::empty(), xs.take(i)).length == i,
    decreases i,
{
    lemma_layout::<T>();
    if i == 0 {
        assert(xs.take(0) =~= Seq::<T>::empty());
        assert forall|k: int| 0 <= k < chunk_len() implies LeafView::empty().bytes[k] == 0 by {}
    } else {
        lemma_pushed_prefix(xs, i - 1);
        assert(xs.take(i).drop_last() =~= xs.take(i - 1));
        let p = pushed(LeafView::empty(), xs.take(i - 1));
        T::lemma_bytes_len(xs[i - 1]);
        lemma_insert_wf::<T>(p, p.length, xs[i - 1].spec_bytes());
    }
}

/// A leaf made by `repeat(x, n)` reads back `x` in each of its first `n`
/// slots, and its chunk is zero after them.
pub proof fn lemma_repeat_reads_back<T: Value>(x: T, n: nat)
    requires
        n <= T::spec_packing_factor(),
    ensures
        forall|i: int|
            0 <= i < n ==> #[trigger] slot(repeated(x.spec_bytes(), n), i, value_len::<T>() as int)
                == x.spec_bytes(),
        forall|k: int|
            n * value_len::<T>() <= k < chunk_len() ==> #[trigger] repeated(x.spec_bytes(), n)[k]
                == 0,
{
    lemma_layout::<T>();
    T::lemma_bytes_len(x);
    let b = x.spec_bytes();
    let vl = value_len::<T>() as int;
    assert forall|i: int| 0 <= i < n implies #[trigger] slot(repeated(b, n), i, vl) == b by {
        assert((i + 1) * vl == i * vl + vl) by (nonlinear_arith);
        assert((i + 1) * vl <= n * vl) by (nonlinear_arith)
            requires
                i + 1 <= n,
                0 <= vl,
        ;
        assert(n * vl <= T::spec_packing_factor() * vl) by (nonlinear_arith)
            requires
                n <= T::spec_packing_factor(),
                0 <= vl,
        ;
        assert forall|j: int| 0 <= j < vl implies #[trigger] ((i * vl + j) % vl) == j by {
            vstd::arithmetic::div_mod::lemma_fundamental_div_mod_converse(i * vl + j, vl, i, j);
        }
        assert forall|j: int| 0 <= j < vl implies #[trigger] slot(repeated(b, n), i, vl)[j]
            == b[j] by {
            assert((i * vl + j) % vl == j);
        }
        assert(slot(repeated(b, n), i, vl) =~= b);
    }
}

} // verus!
