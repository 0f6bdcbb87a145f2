//! Stable identities for the margin lane: FNV-1a hashes that must hold still
//! across runs and builds, because they reach an accessibility tree.

use vstd::prelude::*;
use vstd::string::StringSliceAdditionalSpecFns;

verus! {

/// The 32-bit FNV-1a offset basis.
pub const FNV32_OFFSET: u32 = 0x811c_9dc5;
/// The 32-bit FNV-1a prime.
pub const FNV32_PRIME: u32 = 0x0100_0193;

/// 32-bit FNV-1a over `bytes`, one byte at a time from the front.
pub open spec fn fnv1a32(bytes: Seq<u8>) -> u32
    decreases bytes.len(),
{
    if bytes.len() == 0 {
        FNV32_OFFSET
    } else {
        (fnv1a32(bytes.drop_last()) ^ (bytes.last() as u32)).wrapping_mul(FNV32_PRIME)
    }
}

/// A provider's group: the 32-bit hash of its id folded to 16 bits.
pub open spec fn group_spec(bytes: Seq<u8>) -> u16 {
    (((fnv1a32(bytes) >> 16u32) ^ fnv1a32(bytes)) as u16)
}

/// A provider's stable group ordinal, hashed from its id.
pub fn group_of(id: &str) -> (group: u16)
    ensures
        group == group_spec(id.spec_bytes()),
{
    let bytes = id.as_bytes();
    let mut hash: u32 = FNV32_OFFSET;
    let mut i: usize = 0;
    while i < bytes.len()
        invariant
            0 <= i <= bytes@.len(),
            bytes@ == id.spec_bytes(),
            hash == fnv1a32(bytes@.take(i as int)),
        decreases bytes@.len() - i,
    {
        assert(bytes@.take(i as int + 1).drop_last() == bytes@.take(i as int));
        hash = (hash ^ (bytes[i] as u32)).wrapping_mul(FNV32_PRIME);
        i = i + 1;
    }
    assert(bytes@.take(i as int) == bytes@);
    ((hash >> 16u32) ^ hash) as u16
}


/// The 64-bit FNV-1a offset basis.
pub const FNV64_OFFSET: u64 = 0xcbf2_9ce4_8422_2325;
/// The 64-bit FNV-1a prime.
pub const FNV64_PRIME: u64 = 0x0000_0100_0000_01b3;

/// 64-bit FNV-1a over `bytes`, continuing from the running hash `h`.
pub open spec fn fnv1a64_from(h: u64, bytes: Seq<u8>) -> u64
    decreases bytes.len(),
{
    if bytes.len() == 0 {
        h
    } else {
        (fnv1a64_from(h, bytes.drop_last()) ^ (bytes.last() as u64)).wrapping_mul(FNV64_PRIME)
    }
}

/// Byte `k` of `v` in little-endian order.
pub open spec fn le_byte(v: u64, k: int) -> u8 {
    ((v >> ((8 * k) as u64)) & 0xffu64) as u8
}

/// The eight little-endian bytes of `v`.
pub open spec fn le_bytes(v: u64) -> Seq<u8> {
    Seq::new(8, |k: int| le_byte(v, k))
}

proof fn lemma_fnv1a64_concat(h: u64, a: Seq<u8>, b: Seq<u8>)
    ensures
        fnv1a64_from(h, a + b) == fnv1a64_from(fnv1a64_from(h, a), b),
    decreases b.len(),
{
    if b.len() == 0 {
        assert(a + b == a);
    } else {
        assert((a + b).drop_last() == a + b.drop_last());
        lemma_fnv1a64_concat(h, a, b.drop_last());
    }
}

/// One step of the hash over the eight little-endian bytes of `v`.
fn fnv_mix(h: u64, v: u64) -> (out: u64)
    ensures
        out == fnv1a64_from(h, le_bytes(v)),
{
    let mut hash = h;
    let mut k: u64 = 0;
    while k < 8
        invariant
            0 <= k <= 8,
            hash == fnv1a64_from(h, le_bytes(v).take(k as int)),
        decreases 8 - k,
    {
        assert(le_bytes(v).take(k as int + 1).drop_last() == le_bytes(v).take(k as int));
        let byte: u8 = ((v >> (8 * k)) & 0xff) as u8;
        hash = (hash ^ (byte as u64)).wrapping_mul(FNV64_PRIME);
        k = k + 1;
    }
    assert(le_bytes(v).take(8) == le_bytes(v));
    hash
}

/// The mark id of the `ordinal`th mark on `item`: FNV-1a over the item and the
/// ordinal, each as eight little-endian bytes.
pub open spec fn mark_id_spec(item: u64, ordinal: nat) -> u64 {
    fnv1a64_from(FNV64_OFFSET, le_bytes(item) + le_bytes(ordinal as u64))
}

/// A mark id unique across every document one lane maps: FNV-1a over the item
/// and the ordinal, each as eight little-endian bytes.
pub fn mark_id(item: u64, ordinal: usize) -> (id: u64)
    ensures
        id == mark_id_spec(item, ordinal as nat),
{
    let h = fnv_mix(FNV64_OFFSET, item);
    let out = fnv_mix(h, ordinal as u64);
    proof {
        lemma_fnv1a64_concat(FNV64_OFFSET, le_bytes(item), le_bytes(ordinal as u64));
    }
    out
}

/// FNV-1a over a stream of `u64`s, fed one at a time.
pub struct Fnv(pub u64);

impl Fnv {
    /// A hash over nothing yet: the offset basis.
    pub fn new() -> (f: Fnv)
        ensures
            f.0 == FNV64_OFFSET,
    {
        Fnv(FNV64_OFFSET)
    }

    /// Feed one value, as its eight little-endian bytes.
    pub fn add(&mut self, v: u64)
        ensures
            final(self).0 == fnv1a64_from(old(self).0, le_bytes(v)),
    {
        self.0 = fnv_mix(self.0, v);
    }

    /// The hash of everything fed so far.
    pub fn finish(self) -> (h: u64)
        ensures
            h == self.0,
    {
        self.0
    }
}

/// `usize::to_ne_bytes`: the bytes of `v` in the build target's own order
/// and width, a function of `v` alone for a given build.
pub uninterp spec fn ne_bytes_of(v: usize) -> Seq<u8>;

/// `usize::to_ne_bytes`, as a vector; its bytes are named by `ne_bytes_of`.
#[verifier::external_body]
fn ne_bytes(v: usize) -> (b: Vec<u8>)
    ensures
        b@ == ne_bytes_of(v),
{
    v.to_ne_bytes().to_vec()
}

/// The native bytes of every address of `fs`, concatenated in order.
pub open spec fn ne_bytes_all(fs: Seq<usize>) -> Seq<u8>
    decreases fs.len(),
{
    if fs.len() == 0 {
        Seq::empty()
    } else {
        ne_bytes_all(fs.drop_last()) + ne_bytes_of(fs.last())
    }
}

/// FNV-1a over `bytes`, continuing from `h`.
fn fnv_bytes(h: u64, bytes: &[u8]) -> (out: u64)
    ensures
        out == fnv1a64_from(h, bytes@),
{
    let mut hash = h;
    let mut k: usize = 0;
    while k < bytes.len()
        invariant
            0 <= k <= bytes@.len(),
            hash == fnv1a64_from(h, bytes@.take(k as int)),
        decreases bytes@.len() - k,
    {
        assert(bytes@.take(k as int + 1).drop_last() == bytes@.take(k as int));
        hash = (hash ^ (bytes[k] as u64)).wrapping_mul(FNV64_PRIME);
        k = k + 1;
    }
    assert(bytes@.take(bytes@.len() as int) == bytes@);
    hash
}

/// The attribution key of a captured stack: FNV-1a over its return addresses,
/// each as its native bytes.
pub fn key_of(frames: &[usize]) -> (key: u64)
    ensures
        key == fnv1a64_from(FNV64_OFFSET, ne_bytes_all(frames@)),
{
    let mut hash: u64 = FNV64_OFFSET;
    let mut i: usize = 0;
    while i < frames.len()
        invariant
            0 <= i <= frames@.len(),
            hash == fnv1a64_from(FNV64_OFFSET, ne_bytes_all(frames@.take(i as int))),
        decreases frames@.len() - i,
    {
        let b = ne_bytes(frames[i]);
        hash = fnv_bytes(hash, b.as_slice());
        proof {
            assert(frames@.take(i as int + 1).drop_last() == frames@.take(i as int));
            lemma_fnv1a64_concat(FNV64_OFFSET, ne_bytes_all(frames@.take(i as int)), ne_bytes_of(frames@[i as int]));
        }
        i = i + 1;
    }
    assert(frames@.take(i as int) == frames@);
    hash
}

} // verus!
