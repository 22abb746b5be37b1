//! A leaf that packs up to `packing_factor` values into one chunk.

use vstd::prelude::*;
use core::marker::PhantomData;
use crate::error::Error;
use crate::value::{Value, chunk_len, value_len, bytes_per_chunk};
use crate::update_map::{UpdateMap, pending_in_range};

verus! {

/// `bytes` with `b` written over it from offset `start` on.
pub open spec fn slot_write(bytes: Seq<u8>, start: int, b: Seq<u8>) -> Seq<u8> {
    Seq::new(
        bytes.len(),
        |k: int|
            if start <= k < start + b.len() {
                b[k - start]
            } else {
                bytes[k]
            },
    )
}

/// The bytes of slot `i` when each slot is `len` bytes long.
pub open spec fn slot(bytes: Seq<u8>, i: int, len: int) -> Seq<u8> {
    bytes.subrange(i * len, (i + 1) * len)
}

/// A chunk of zeros.
pub open spec fn zero_chunk() -> Seq<u8> {
    Seq::new(chunk_len(), |k: int| 0u8)
}

/// A chunk whose first `n` slots each hold `b`, and zeros after them.
pub open spec fn repeated(b: Seq<u8>, n: nat) -> Seq<u8> {
    Seq::new(
        chunk_len(),
        |k: int|
            if k < n * b.len() {
                b[k % (b.len() as int)]
            } else {
                0u8
            },
    )
}

/// What a leaf holds: its chunk and how many values are in it.
pub struct LeafView {
    pub bytes: Seq<u8>,
    pub length: nat,
}

impl LeafView {
    pub open spec fn empty() -> LeafView {
        LeafView { bytes: zero_chunk(), length: 0 }
    }

    /// Writes the value bytes `b` into slot `index` (slots are `b.len()` bytes
    /// long); a write at the first free slot adds a value.
    pub open spec fn insert(self, index: nat, b: Seq<u8>) -> LeafView {
        LeafView {
            bytes: slot_write(self.bytes, (index * b.len()) as int, b),
            length: if index == self.length {
                self.length + 1
            } else {
                self.length
            },
        }
    }

    /// The chunk is whole, at most `packing_factor` values are in it, and
    /// every byte past the last value is zero.
    pub open spec fn wf<T: Value>(self) -> bool {
        &&& self.bytes.len() == chunk_len()
        &&& self.length <= T::spec_packing_factor()
        &&& forall|k: int|
            self.length * value_len::<T>() <= k < chunk_len() ==> self.bytes[k] == 0
    }
}

/// Copies `b` into `buf` from offset `start` on.
fn write_slot(buf: &mut [u8; 32], start: usize, b: &[u8])
    requires
        start + b@.len() <= 32,
    ensures
        final(buf)@ == slot_write(old(buf)@, start as int, b@),
{
    let n: usize = b.len();
    let mut j: usize = 0;
    while j < n
        invariant
            n == b@.len(),
            start + n <= 32,
            j <= n,
            buf@ == slot_write(old(buf)@, start as int, b@.take(j as int)),
        decreases n - j,
    {
        buf[start + j] = b[j];
        j = j + 1;
        assert(buf@ =~= slot_write(old(buf)@, start as int, b@.take(j as int)));
    }
    assert(b@.take(n as int) =~= b@);
}

/// `value_len` slots of `T` tile the chunk exactly.
pub proof fn lemma_layout<T: Value>()
    ensures
        1 <= T::spec_packing_factor() <= chunk_len(),
        1 <= value_len::<T>() <= chunk_len(),
        T::spec_packing_factor() * value_len::<T>() == chunk_len(),
{
    T::lemma_layout();
    let pf = T::spec_packing_factor() as int;
    vstd::arithmetic::div_mod::lemma_fundamental_div_mod(32, pf);
    let q = value_len::<T>() as int;
    assert(pf * q == 32);
    assert(1 <= q <= 32) by (nonlinear_arith)
        requires
            pf * q == 32,
            1 <= pf,
    ;
}

/// A slot index lies in the chunk exactly when it is below the packing factor.
pub proof fn lemma_slot_in_chunk<T: Value>(index: nat)
    ensures
        index * value_len::<T>() < chunk_len() <==> index < T::spec_packing_factor(),
        index < T::spec_packing_factor() ==> index * value_len::<T>() + value_len::<T>()
            <= chunk_len(),
{
    lemma_layout::<T>();
    let pf = T::spec_packing_factor();
    let vl = value_len::<T>();
    assert((index + 1) * vl == index * vl + vl) by (nonlinear_arith);
    if index < pf {
        assert((index + 1) * vl <= pf * vl) by (nonlinear_arith)
            requires
                index + 1 <= pf,
        ;
    } else {
        assert(index * vl >= pf * vl) by (nonlinear_arith)
            requires
                index >= pf,
        ;
    }
}

/// Writing one value at or below the length keeps a leaf well formed.
pub proof fn lemma_insert_wf<T: Value>(v: LeafView, index: nat, b: Seq<u8>)
    requires
        v.wf::<T>(),
        index <= v.length,
        index < T::spec_packing_factor(),
        b.len() == value_len::<T>(),
    ensures
        v.insert(index, b).wf::<T>(),
        v.insert(index, b).length == if index == v.length {
            v.length + 1
        } else {
            v.length
        },
{
    lemma_layout::<T>();
    let vl = value_len::<T>();
    let w = v.insert(index, b);
    assert(w.length <= T::spec_packing_factor());
    assert((index + 1) * vl <= w.length * vl) by (nonlinear_arith)
        requires
            index + 1 <= w.length,
    ;
    assert(v.length * vl <= w.length * vl) by (nonlinear_arith)
        requires
            v.length <= w.length,
    ;
    assert((index + 1) * vl == index * vl + vl) by (nonlinear_arith);
}

/// The slot of this leaf that absolute index `index` falls on.
pub open spec fn local_index<T: Value>(index: usize) -> nat {
    (index as nat % T::spec_packing_factor()) as nat
}

/// The leaf after each write of `ws` in turn, each into the slot that its
/// index falls on.
pub open spec fn apply_writes<T: Value>(v: LeafView, ws: Seq<(usize, T)>) -> LeafView
    decreases ws.len(),
{
    if ws.len() == 0 {
        v
    } else {
        apply_writes(v, ws.drop_last()).insert(local_index::<T>(ws.last().0), ws.last().1.spec_bytes())
    }
}

/// The pending writes of `m` that fall in the leaf whose first slot is at
/// absolute index `prefix`, in ascending order of index.
pub open spec fn leaf_writes<T: Value>(m: Map<usize, T>, prefix: usize) -> Seq<(usize, T)> {
    pending_in_range(m, prefix as nat, (prefix + T::spec_packing_factor()) as nat)
}

/// Each write of `ws` lands at or below the first free slot at its turn.
pub open spec fn writes_in_order<T: Value>(v: LeafView, ws: Seq<(usize, T)>) -> bool
    decreases ws.len(),
{
    ws.len() == 0 || {
        &&& writes_in_order(v, ws.drop_last())
        &&& local_index::<T>(ws.last().0) <= apply_writes(v, ws.drop_last()).length
    }
}

pub proof fn lemma_in_order_take<T: Value>(v: LeafView, ws: Seq<(usize, T)>, j: int)
    requires
        writes_in_order(v, ws),
        0 <= j <= ws.len(),
    ensures
        writes_in_order(v, ws.take(j)),
    decreases ws.len(),
{
    if j == ws.len() {
        assert(ws.take(j) =~= ws);
    } else {
        assert(ws.drop_last().take(j) =~= ws.take(j));
        lemma_in_order_take(v, ws.drop_last(), j);
    }
}

pub proof fn lemma_apply_writes_wf<T: Value>(v: LeafView, ws: Seq<(usize, T)>)
    requires
        v.wf::<T>(),
        writes_in_order(v, ws),
    ensures
        apply_writes(v, ws).wf::<T>(),
    decreases ws.len(),
{
    if ws.len() > 0 {
        lemma_apply_writes_wf(v, ws.drop_last());
        lemma_layout::<T>();
        T::lemma_bytes_len(ws.last().1);
        lemma_insert_wf::<T>(
            apply_writes(v, ws.drop_last()),
            local_index::<T>(ws.last().0),
            ws.last().1.spec_bytes(),
        );
    }
}

/// Folding a batch of in-order writes into a leaf is the same as making
/// them one by one with `insert_at_index`, in order: each of those calls is
/// in bounds and at or below the first free slot, and each gives the next
/// leaf of the batch.
pub proof fn lemma_update_is_chained_inserts<T: Value>(v: LeafView, ws: Seq<(usize, T)>)
    requires
        v.wf::<T>(),
        writes_in_order(v, ws),
    ensures
        forall|i: int|
            0 <= i < ws.len() ==> {
                let before = #[trigger] apply_writes(v, ws.take(i));
                let index = local_index::<T>(ws[i].0);
                &&& before.wf::<T>()
                &&& index * value_len::<T>() < chunk_len()
                &&& index <= before.length
                &&& apply_writes(v, ws.take(i + 1)) == before.insert(index, ws[i].1.spec_bytes())
            },
{
    assert forall|i: int| 0 <= i < ws.len() implies {
        let before = #[trigger] apply_writes(v, ws.take(i));
        let index = local_index::<T>(ws[i].0);
        &&& before.wf::<T>()
        &&& index * value_len::<T>() < chunk_len()
        &&& index <= before.length
        &&& apply_writes(v, ws.take(i + 1)) == before.insert(index, ws[i].1.spec_bytes())
    } by {
        lemma_layout::<T>();
        lemma_in_order_take(v, ws, i + 1);
        assert(ws.take(i + 1).drop_last() =~= ws.take(i));
        lemma_in_order_take(v, ws, i);
        lemma_apply_writes_wf(v, ws.take(i));
        lemma_slot_in_chunk::<T>(local_index::<T>(ws[i].0));
    }
}

/// Up to `packing_factor` values of `T`, packed into one chunk.
#[derive(Debug, PartialEq, Eq, Hash)]
pub struct PackedLeaf<T: Value> {
    /// The chunk: both the packed values and the leaf's hash.
    pub hash: [u8; 32],
    /// How many values the chunk holds.
    pub length: u8,
    pub _phantom: PhantomData<T>,
}

impl<T: Value> View for PackedLeaf<T> {
    type V = LeafView;

    open spec fn view(&self) -> LeafView {
        LeafView { bytes: self.hash@, length: self.length as nat }
    }
}

impl<T: Value> Clone for PackedLeaf<T> {
    fn clone(&self) -> (r: Self)
        ensures
            r == *self,
    {
        PackedLeaf { hash: self.hash, length: self.length, _phantom: PhantomData }
    }
}

impl<T: Value> PackedLeaf<T> {
    pub open spec fn wf(&self) -> bool {
        self@.wf::<T>()
    }

    pub fn length(&self) -> (r: usize)
        ensures
            r == self.length,
    {
        self.length as usize
    }

    fn value_len() -> (r: usize)
        ensures
            r as nat == value_len::<T>(),
    {
        proof {
            lemma_layout::<T>();
        }
        bytes_per_chunk() / T::packing_factor()
    }

    /// Writes `value` into slot `index`. A write at the first free slot adds
    /// a value; one below it replaces a value. A slot that lies outside the
    /// chunk is refused.
    pub fn insert_mut(&mut self, index: usize, value: T) -> (r: Result<(), Error>)
        requires
            old(self).wf(),
            index * value_len::<T>() <= usize::MAX,
            index * value_len::<T>() < chunk_len() ==> index <= old(self).length,
        ensures
            final(self).wf(),
            index * value_len::<T>() >= chunk_len() ==> {
                &&& r == (Err::<(), Error>(
                    Error::PackedLeafOutOfBounds {
                        sub_index: (index * value_len::<T>()) as usize,
                        len: old(self).length as usize,
                    },
                ))
                &&& *final(self) == *old(self)
            },
            index * value_len::<T>() < chunk_len() ==> {
                &&& r is Ok
                &&& final(self)@ == old(self)@.insert(index as nat, value.spec_bytes())
            },
    {
        let value_len = Self::value_len();
        let sub_index = index * value_len;
        if sub_index >= bytes_per_chunk() {
            return Err(Error::PackedLeafOutOfBounds { sub_index, len: self.length() });
        }
        proof {
            lemma_layout::<T>();
            lemma_slot_in_chunk::<T>(index as nat);
            T::lemma_bytes_len(value);
            lemma_insert_wf::<T>(old(self)@, index as nat, value.spec_bytes());
        }
        let bytes = value.packed_bytes();
        write_slot(&mut self.hash, sub_index, bytes.as_slice());
        if index == self.length() {
            self.length = self.length + 1;
        }
        Ok(())
    }

    /// The value in slot `index`, read back from its bytes; `None` past the
    /// last value.
    pub fn get(&self, index: usize) -> (r: Option<T>)
        requires
            self.wf(),
        ensures
            index >= self.length ==> r is None,
            index < self.length ==> {
                &&& r is Some
                &&& r->Some_0.spec_bytes() == slot(self@.bytes, index as int, value_len::<T>() as int)
            },
    {
        if index >= self.length() {
            return None;
        }
        let value_len = Self::value_len();
        proof {
            lemma_layout::<T>();
            lemma_slot_in_chunk::<T>(index as nat);
            assert(index * value_len <= self.length * value_len) by (nonlinear_arith)
                requires
                    index <= self.length,
            ;
        }
        let sub_index = index * value_len;
        let mut bytes: Vec<u8> = Vec::new();
        let mut j: usize = 0;
        while j < value_len
            invariant
                j <= value_len,
                sub_index + value_len <= 32,
                bytes@ == self.hash@.subrange(sub_index as int, (sub_index + j) as int),
            decreases value_len - j,
        {
            bytes.push(self.hash[sub_index + j]);
            j = j + 1;
            assert(bytes@ =~= self.hash@.subrange(sub_index as int, (sub_index + j) as int));
        }
        proof {
            assert((index + 1) * value_len == sub_index + value_len) by (nonlinear_arith)
                requires
                    sub_index == index * value_len,
            ;
        }
        Some(T::from_packed_bytes(bytes.as_slice()))
    }

    /// The leaf's hash: its chunk as it stands.
    pub fn tree_hash(&self) -> (r: [u8; 32])
        ensures
            r@ == self@.bytes,
    {
        self.hash
    }

    /// A leaf with no values: an all-zero chunk.
    pub fn empty() -> (r: Self)
        ensures
            r.wf(),
            r@ == LeafView::empty(),
    {
        proof {
            lemma_layout::<T>();
        }
        let r = PackedLeaf { hash: [0u8; 32], length: 0, _phantom: PhantomData };
        assert(r@.bytes =~= zero_chunk());
        r
    }

    /// A leaf that holds `value` alone.
    pub fn single(value: T) -> (r: Self)
        ensures
            r.wf(),
            r@ == LeafView::empty().insert(0, value.spec_bytes()),
    {
        let mut leaf = Self::empty();
        proof {
            lemma_slot_in_chunk::<T>(0);
            T::lemma_bytes_len(value);
            lemma_insert_wf::<T>(leaf@, 0, value.spec_bytes());
        }
        let bytes = value.packed_bytes();
        write_slot(&mut leaf.hash, 0, bytes.as_slice());
        leaf.length = 1;
        leaf
    }

    /// A leaf that holds `n` copies of `value`.
    pub fn repeat(value: T, n: usize) -> (r: Self)
        requires
            n <= T::spec_packing_factor(),
        ensures
            r.wf(),
            r@ == (LeafView { bytes: repeated(value.spec_bytes(), n as nat), length: n as nat }),
    {
        let mut leaf = Self::empty();
        let slot_len = Self::value_len();
        let bytes = value.packed_bytes();
        let ghost b = value.spec_bytes();
        proof {
            lemma_layout::<T>();
            T::lemma_bytes_len(value);
            assert(leaf.hash@ =~= repeated(b, 0));
        }
        let mut i: usize = 0;
        while i < n
            invariant
                i <= n <= T::spec_packing_factor() <= 32,
                slot_len == value_len::<T>() == b.len(),
                1 <= slot_len,
                bytes@ == b,
                T::spec_packing_factor() * slot_len == 32,
                leaf.length == 0,
                leaf.hash@ == repeated(b, i as nat),
            decreases n - i,
        {
            proof {
                lemma_slot_in_chunk::<T>(i as nat);
            }
            let start = i * slot_len;
            write_slot(&mut leaf.hash, start, bytes.as_slice());
            proof {
                assert((i + 1) * slot_len == start + slot_len) by (nonlinear_arith)
                    requires
                        start == i * slot_len,
                ;
                assert forall|k: int| start <= k < start + slot_len implies #[trigger] (k
                    % (slot_len as int)) == k - start by {
                    vstd::arithmetic::div_mod::lemma_fundamental_div_mod_converse(
                        k,
                        slot_len as int,
                        i as int,
                        k - start,
                    );
                }
            }
            i = i + 1;
            assert(leaf.hash@ =~= repeated(b, i as nat));
        }
        leaf.length = n as u8;
        leaf
    }

    /// A copy of this leaf with `value` written into slot `index`; this leaf
    /// is left as it is.
    pub fn insert_at_index(&self, index: usize, value: T) -> (r: Result<Self, Error>)
        requires
            self.wf(),
            index * value_len::<T>() <= usize::MAX,
            index * value_len::<T>() < chunk_len() ==> index <= self.length,
        ensures
            index * value_len::<T>() >= chunk_len() ==> r == (Err::<Self, Error>(
                Error::PackedLeafOutOfBounds {
                    sub_index: (index * value_len::<T>()) as usize,
                    len: self.length as usize,
                },
            )),
            index * value_len::<T>() < chunk_len() ==> {
                &&& r is Ok
                &&& r->Ok_0.wf()
                &&& r->Ok_0@ == self@.insert(index as nat, value.spec_bytes())
            },
    {
        let mut updated = self.clone();
        match updated.insert_mut(index, value) {
            Ok(()) => Ok(updated),
            Err(e) => Err(e),
        }
    }

    /// Adds `value` after the last one, unless the leaf is full.
    pub fn push(&mut self, value: T) -> (r: Result<(), Error>)
        requires
            old(self).wf(),
        ensures
            final(self).wf(),
            old(self).length >= T::spec_packing_factor() ==> {
                &&& r == (Err::<(), Error>(Error::PackedLeafFull { len: old(self).length as usize }))
                &&& *final(self) == *old(self)
            },
            old(self).length < T::spec_packing_factor() ==> {
                &&& r is Ok
                &&& final(self)@ == old(self)@.insert(old(self).length as nat, value.spec_bytes())
            },
    {
        if self.length() >= T::packing_factor() {
            return Err(Error::PackedLeafFull { len: self.length() });
        }
        proof {
            lemma_layout::<T>();
            lemma_slot_in_chunk::<T>(self.length as nat);
        }
        self.insert_mut(self.length(), value)
    }

    /// A copy of this leaf with every pending write of `updates` that falls
    /// in its slots, `[prefix, prefix + packing_factor)`, written in
    /// ascending order of index. `_hash` is the caller's view of the leaf's
    /// hash and is not read.
    pub fn update<U: UpdateMap<T>>(&self, prefix: usize, _hash: [u8; 32], updates: &U) -> (r: Result<
        Self,
        Error,
    >)
        requires
            self.wf(),
            prefix + T::spec_packing_factor() <= usize::MAX,
            writes_in_order(
                self@,
                leaf_writes::<T>(updates.pending(), prefix),
            ),
        ensures
            r is Ok,
            r->Ok_0.wf(),
            r->Ok_0@ == apply_writes(
                self@,
                leaf_writes::<T>(updates.pending(), prefix),
            ),
    {
        let packing_factor = T::packing_factor();
        let start = prefix;
        let end = prefix + packing_factor;
        let writes = updates.entries_in_range(start, end);
        let ghost ws = writes@;
        proof {
            lemma_layout::<T>();
            lemma_update_is_chained_inserts(self@, ws);
            assert(ws.take(0) =~= Seq::<(usize, T)>::empty());
        }
        let mut updated = self.clone();
        let mut i: usize = 0;
        while i < writes.len()
            invariant
                i <= ws.len(),
                ws == writes@,
                packing_factor == T::spec_packing_factor(),
                1 <= packing_factor <= 32,
                updated.wf(),
                updated@ == apply_writes(self@, ws.take(i as int)),
                forall|j: int|
                    0 <= j < ws.len() ==> {
                        let before = #[trigger] apply_writes(self@, ws.take(j));
                        let index = local_index::<T>(ws[j].0);
                        &&& before.wf::<T>()
                        &&& index * value_len::<T>() < chunk_len()
                        &&& index <= before.length
                        &&& apply_writes(self@, ws.take(j + 1)) == before.insert(
                            index,
                            ws[j].1.spec_bytes(),
                        )
                    },
            decreases ws.len() - i,
        {
            let (index, value) = writes[i];
            let local = index % packing_factor;
            match updated.insert_mut(local, value) {
                Ok(()) => {},
                Err(e) => {
                    return Err(e);
                },
            }
            i = i + 1;
        }
        assert(ws.take(ws.len() as int) =~= ws);
        Ok(updated)
    }
}

} // verus!
