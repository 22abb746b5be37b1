//! Values that can be packed several to a chunk, and their byte encoding.

use vstd::prelude::*;
use tree_hash::TreeHash;

verus! {

/// Number of bytes in one chunk of the hash tree.
pub open spec fn chunk_len() -> nat {
    32
}

/// The `n` little-endian bytes of `v` (higher bytes of `v` are dropped).
pub open spec fn le_bytes(v: nat, n: nat) -> Seq<u8>
    decreases n,
{
    if n == 0 {
        seq![]
    } else {
        seq![(v % 256) as u8] + le_bytes(v / 256, (n - 1) as nat)
    }
}

/// The number whose little-endian bytes are `b`.
pub open spec fn le_value(b: Seq<u8>) -> nat
    decreases b.len(),
{
    if b.len() == 0 {
        0
    } else {
        b[0] as nat + 256 * le_value(b.drop_first())
    }
}

pub open spec fn pow256(n: nat) -> nat
    decreases n,
{
    if n == 0 {
        1
    } else {
        256 * pow256((n - 1) as nat)
    }
}

pub proof fn lemma_le_bytes_len(v: nat, n: nat)
    ensures
        le_bytes(v, n).len() == n,
    decreases n,
{
    if n > 0 {
        lemma_le_bytes_len(v / 256, (n - 1) as nat);
    }
}

pub proof fn lemma_pow256_mono(a: nat, b: nat)
    requires
        a <= b,
    ensures
        pow256(a) <= pow256(b),
    decreases b,
{
    if a < b {
        lemma_pow256_mono(a, (b - 1) as nat);
    }
}

pub proof fn lemma_le_value_bound(b: Seq<u8>)
    ensures
        le_value(b) < pow256(b.len()),
    decreases b.len(),
{
    if b.len() > 0 {
        let r = b.drop_first();
        lemma_le_value_bound(r);
        let x = b[0] as nat;
        let q = le_value(r);
        let p = pow256(r.len());
        assert(x + 256 * q < 256 * p) by (nonlinear_arith)
            requires
                x < 256,
                q < p,
        ;
    }
}

/// Reading bytes as a little-endian number and writing it back gives the bytes.
pub proof fn lemma_le_round_trip(b: Seq<u8>)
    ensures
        le_bytes(le_value(b), b.len()) == b,
    decreases b.len(),
{
    if b.len() > 0 {
        let r = b.drop_first();
        lemma_le_round_trip(r);
        let v = le_value(b);
        vstd::arithmetic::div_mod::lemma_fundamental_div_mod_converse(
            v as int,
            256,
            le_value(r) as int,
            b[0] as int,
        );
        assert(le_bytes(v, b.len()) =~= b);
    }
}

/// Writing a number below `256^n` as `n` little-endian bytes and reading
/// them back gives the number.
pub proof fn lemma_le_value_of_bytes(v: nat, n: nat)
    requires
        v < pow256(n),
    ensures
        le_value(le_bytes(v, n)) == v,
    decreases n,
{
    if n > 0 {
        let q = v / 256;
        let p = pow256((n - 1) as nat);
        vstd::arithmetic::div_mod::lemma_fundamental_div_mod(v as int, 256);
        assert(q < p) by (nonlinear_arith)
            requires
                v < 256 * p,
                v == 256 * q + v % 256,
                0 <= v % 256,
        ;
        lemma_le_value_of_bytes(q, (n - 1) as nat);
        let b = le_bytes(v, n);
        assert(b.drop_first() =~= le_bytes(q, (n - 1) as nat));
    }
}

/// Decodes up to eight little-endian bytes.
pub fn decode_le(b: &[u8]) -> (r: u64)
    requires
        b@.len() <= 8,
    ensures
        r as nat == le_value(b@),
{
    let n: usize = b.len();
    let mut acc: u64 = 0;
    let mut i: usize = n;
    while i > 0
        invariant
            n == b@.len() <= 8,
            i <= n,
            acc as nat == le_value(b@.subrange(i as int, n as int)),
            (acc as nat) < pow256((n - i) as nat),
        decreases i,
    {
        i = i - 1;
        let ghost rest = b@.subrange(i + 1, n as int);
        assert(b@.subrange(i as int, n as int).drop_first() =~= rest);
        proof {
            lemma_pow256_mono((n - i) as nat, 8);
            reveal_with_fuel(pow256, 9);
            assert(pow256(8) == 0x1_0000_0000_0000_0000nat);
            let p = pow256((n - i - 1) as nat);
            let x = b@[i as int] as nat;
            assert(acc * 256 + x < 256 * p) by (nonlinear_arith)
                requires
                    x < 256,
                    acc < p,
            ;
        }
        acc = acc * 256 + b[i] as u64;
    }
    assert(b@.subrange(0, n as int) =~= b@);
    acc
}

/// Bytes that one value of `T` takes up in a chunk.
pub open spec fn value_len<T: Value>() -> nat {
    chunk_len() / T::spec_packing_factor()
}

/// A type whose values are packed several to a chunk: each takes `value_len`
/// bytes, and `packing_factor` of them fill the chunk exactly.
pub trait Value: Copy {
    /// How many values share one chunk.
    spec fn spec_packing_factor() -> nat;

    /// The bytes that stand for this value in a chunk.
    spec fn spec_bytes(&self) -> Seq<u8>;

    proof fn lemma_layout()
        ensures
            1 <= Self::spec_packing_factor() <= chunk_len(),
            chunk_len() % Self::spec_packing_factor() == 0,
    ;

    proof fn lemma_bytes_len(v: Self)
        ensures
            v.spec_bytes().len() == chunk_len() / Self::spec_packing_factor(),
    ;

    /// Values with the same bytes are the same value.
    proof fn lemma_bytes_injective(a: Self, b: Self)
        ensures
            a.spec_bytes() == b.spec_bytes() ==> a == b,
    ;

    fn packing_factor() -> (r: usize)
        ensures
            r as nat == Self::spec_packing_factor(),
    ;

    fn packed_bytes(&self) -> (r: Vec<u8>)
        ensures
            r@ == self.spec_bytes(),
    ;

    /// The value whose bytes are `b`.
    fn from_packed_bytes(b: &[u8]) -> (r: Self)
        requires
            b@.len() == chunk_len() / Self::spec_packing_factor(),
        ensures
            r.spec_bytes() == b@,
    ;
}

/// Relies on tree_hash::BYTES_PER_CHUNK: a chunk is 32 bytes.
#[verifier::external_body]
pub(crate) fn bytes_per_chunk() -> (r: usize)
    ensures
        r as nat == chunk_len(),
{
    tree_hash::BYTES_PER_CHUNK
}

/// Relies on tree_hash's `TreeHash` impl for u8: 32 values share a chunk.
#[verifier::external_body]
fn u8_packing_factor() -> (r: usize)
    ensures
        r == 32,
{
    <u8 as TreeHash>::tree_hash_packing_factor()
}

/// Relies on tree_hash's `TreeHash::tree_hash_packed_encoding` for u8: its
/// 1 little-endian bytes.
#[verifier::external_body]
fn u8_packed_encoding(v: u8) -> (r: Vec<u8>)
    ensures
        r@ == le_bytes(v as nat, 1),
{
    v.tree_hash_packed_encoding().to_vec()
}

impl Value for u8 {
    open spec fn spec_packing_factor() -> nat {
        32
    }

    open spec fn spec_bytes(&self) -> Seq<u8> {
        le_bytes(*self as nat, 1)
    }

    proof fn lemma_layout() {
    }

    proof fn lemma_bytes_len(v: Self) {
        lemma_le_bytes_len(v as nat, 1);
    }

    proof fn lemma_bytes_injective(a: Self, b: Self) {
        reveal_with_fuel(pow256, 2);
        lemma_le_value_of_bytes(a as nat, 1);
        lemma_le_value_of_bytes(b as nat, 1);
    }

    fn packing_factor() -> (r: usize) {
        u8_packing_factor()
    }

    fn packed_bytes(&self) -> (r: Vec<u8>) {
        u8_packed_encoding(*self)
    }

    fn from_packed_bytes(b: &[u8]) -> (r: Self) {
        proof {
            lemma_le_value_bound(b@);
            lemma_le_round_trip(b@);
            reveal_with_fuel(pow256, 2);
        }
        decode_le(b) as u8
    }
}

/// Relies on tree_hash's `TreeHash` impl for u16: 16 values share a chunk.
#[verifier::external_body]
fn u16_packing_factor() -> (r: usize)
    ensures
        r == 16,
{
    <u16 as TreeHash>::tree_hash_packing_factor()
}

/// Relies on tree_hash's `TreeHash::tree_hash_packed_encoding` for u16: its
/// 2 little-endian bytes.
#[verifier::external_body]
fn u16_packed_encoding(v: u16) -> (r: Vec<u8>)
    ensures
        r@ == le_bytes(v as nat, 2),
{
    v.tree_hash_packed_encoding().to_vec()
}

impl Value for u16 {
    open spec fn spec_packing_factor() -> nat {
        16
    }

    open spec fn spec_bytes(&self) -> Seq<u8> {
        le_bytes(*self as nat, 2)
    }

    proof fn lemma_layout() {
    }

    proof fn lemma_bytes_len(v: Self) {
        lemma_le_bytes_len(v as nat, 2);
    }

    proof fn lemma_bytes_injective(a: Self, b: Self) {
        reveal_with_fuel(pow256, 3);
        lemma_le_value_of_bytes(a as nat, 2);
        lemma_le_value_of_bytes(b as nat, 2);
    }

    fn packing_factor() -> (r: usize) {
        u16_packing_factor()
    }

    fn packed_bytes(&self) -> (r: Vec<u8>) {
        u16_packed_encoding(*self)
    }

    fn from_packed_bytes(b: &[u8]) -> (r: Self) {
        proof {
            lemma_le_value_bound(b@);
            lemma_le_round_trip(b@);
            reveal_with_fuel(pow256, 3);
        }
        decode_le(b) as u16
    }
}

/// Relies on tree_hash's `TreeHash` impl for u32: 8 values share a chunk.
#[verifier::external_body]
fn u32_packing_factor() -> (r: usize)
    ensures
        r == 8,
{
    <u32 as TreeHash>::tree_hash_packing_factor()
}

/// Relies on tree_hash's `TreeHash::tree_hash_packed_encoding` for u32: its
/// 4 little-endian bytes.
#[verifier::external_body]
fn u32_packed_encoding(v: u32) -> (r: Vec<u8>)
    ensures
        r@ == le_bytes(v as nat, 4),
{
    v.tree_hash_packed_encoding().to_vec()
}

impl Value for u32 {
    open spec fn spec_packing_factor() -> nat {
        8
    }

    open spec fn spec_bytes(&self) -> Seq<u8> {
        le_bytes(*self as nat, 4)
    }

    proof fn lemma_layout() {
    }

    proof fn lemma_bytes_len(v: Self) {
        lemma_le_bytes_len(v as nat, 4);
    }

    proof fn lemma_bytes_injective(a: Self, b: Self) {
        reveal_with_fuel(pow256, 5);
        lemma_le_value_of_bytes(a as nat, 4);
        lemma_le_value_of_bytes(b as nat, 4);
    }

    fn packing_factor() -> (r: usize) {
        u32_packing_factor()
    }

    fn packed_bytes(&self) -> (r: Vec<u8>) {
        u32_packed_encoding(*self)
    }

    fn from_packed_bytes(b: &[u8]) -> (r: Self) {
        proof {
            lemma_le_value_bound(b@);
            lemma_le_round_trip(b@);
            reveal_with_fuel(pow256, 5);
        }
        decode_le(b) as u32
    }
}

/// Relies on tree_hash's `TreeHash` impl for u64: 4 values share a chunk.
#[verifier::external_body]
fn u64_packing_factor() -> (r: usize)
    ensures
        r == 4,
{
    <u64 as TreeHash>::tree_hash_packing_factor()
}

/// Relies on tree_hash's `TreeHash::tree_hash_packed_encoding` for u64: its
/// 8 little-endian bytes.
#[verifier::external_body]
fn u64_packed_encoding(v: u64) -> (r: Vec<u8>)
    ensures
        r@ == le_bytes(v as nat, 8),
{
    v.tree_hash_packed_encoding().to_vec()
}

impl Value for u64 {
    open spec fn spec_packing_factor() -> nat {
        4
    }

    open spec fn spec_bytes(&self) -> Seq<u8> {
        le_bytes(*self as nat, 8)
    }

    proof fn lemma_layout() {
    }

    proof fn lemma_bytes_len(v: Self) {
        lemma_le_bytes_len(v as nat, 8);
    }

    proof fn lemma_bytes_injective(a: Self, b: Self) {
        reveal_with_fuel(pow256, 9);
        lemma_le_value_of_bytes(a as nat, 8);
        lemma_le_value_of_bytes(b as nat, 8);
    }

    fn packing_factor() -> (r: usize) {
        u64_packing_factor()
    }

    fn packed_bytes(&self) -> (r: Vec<u8>) {
        u64_packed_encoding(*self)
    }

    fn from_packed_bytes(b: &[u8]) -> (r: Self) {
        proof {
            lemma_le_value_bound(b@);
            lemma_le_round_trip(b@);
            reveal_with_fuel(pow256, 9);
        }
        decode_le(b) as u64
    }
}

} // verus!
