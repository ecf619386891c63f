//! File encoding with a tweaked, Feistel-wrapped RSA trapdoor permutation
//! composed with a Reed-Solomon erasure code over GF(2^16).
use vstd::prelude::*;

pub mod bignum;
pub mod misc;
pub mod rsa;
pub mod file;
pub mod rs;

use crate::bignum::{be_min, be_value, lemma_pad_min_value, pad_left, BigNat};
use crate::misc::slice_bytes;
pub use crate::rsa::{DecodingKey, EncodingKey};

verus! {

/// Bit size of each RSA prime.
pub const PRIME_SIZE: usize = 1025;

/// Bit size of the RSA modulus.
pub const MODULUS_SIZE: usize = 2 * PRIME_SIZE;

/// Bytes in one half of an encode block: the largest whole number of bytes
/// that stays below the modulus, so every half is smaller than `n`.
pub const BLOCK_HALF_SIZE: usize = MODULUS_SIZE / 8;

/// Bytes in an encode block (two halves).
pub const BLOCK_SIZE: usize = 2 * BLOCK_HALF_SIZE;

/// Bytes in a shard.
pub const SHARD_SIZE: usize = 1024;

/// GF(2^16) elements in a shard.
pub const SHARD_ELEMS: usize = SHARD_SIZE / 2;

/// Encode blocks in a shard.
pub const SHARD_BLOCKS: usize = SHARD_SIZE / BLOCK_SIZE;

/// What can go wrong.
#[derive(Clone, Copy, Debug, PartialEq, Eq, Structural)]
pub enum Error {
    /// The input needs `2^16` shards or more.
    TooLarge,
    /// Fewer shards were supplied than the file has data shards.
    InsufficientShards,
    /// Two supplied shards share an index.
    DuplicateIndex,
    /// The codeword would hold more shards than the erasure code over GF(2^16) allows.
    Codec,
    /// A serialized key is malformed.
    MalformedKey,
    /// The big-integer or symmetric primitives failed.
    Arithmetic,
    /// No usable key was found within the allowed number of attempts.
    KeyGeneration,
}

/// Number of shards needed to hold `length` bytes: `ceil(length / SHARD_SIZE)`.
pub open spec fn shard_count(length: nat) -> nat {
    ((length + SHARD_SIZE - 1) / (SHARD_SIZE as int)) as nat
}

/// The bytes of a shard's GF(2^16) elements, in order.
pub open spec fn shard_bytes(c: Seq<[u8; 2]>) -> Seq<u8> {
    Seq::new((2 * c.len()) as nat, |i: int| c[i / 2]@[i % 2])
}

/// Half `h` of block `i` of the shard bytes `bytes`, read big-endian.
pub open spec fn half_of(bytes: Seq<u8>, i: int, h: int) -> nat {
    let lo = i * BLOCK_SIZE + h * BLOCK_HALF_SIZE;
    be_value(bytes.subrange(lo, lo + BLOCK_HALF_SIZE))
}

/// The blocks that packing the shard bytes `bytes` gives.
pub open spec fn pack_spec(bytes: Seq<u8>) -> Seq<(nat, nat)> {
    Seq::new(SHARD_BLOCKS as nat, |i: int| (half_of(bytes, i, 0), half_of(bytes, i, 1)))
}

/// A block half written back as bytes: minimal big-endian, zero-padded on
/// the left to `BLOCK_HALF_SIZE` bytes.
pub open spec fn half_bytes(v: nat) -> Seq<u8> {
    pad_left(be_min(v), BLOCK_HALF_SIZE as nat)
}

/// Whether `v` can be written in `BLOCK_HALF_SIZE` bytes.
pub open spec fn fits(v: nat) -> bool {
    be_min(v).len() <= BLOCK_HALF_SIZE
}

/// The shard bytes that unpacking the blocks `bl` gives.
pub open spec fn unpack_spec(bl: Seq<(nat, nat)>) -> Seq<u8>
    decreases bl.len(),
{
    if bl.len() == 0 {
        Seq::empty()
    } else {
        unpack_spec(bl.drop_last()) + half_bytes(bl.last().0) + half_bytes(bl.last().1)
    }
}

/// A plaintext shard: its index in the codeword and its GF(2^16) elements.
#[derive(Clone, Debug)]
pub struct Shard {
    pub idx: u16,
    pub coords: Vec<[u8; 2]>,
}

impl View for Shard {
    type V = Seq<u8>;

    open spec fn view(&self) -> Seq<u8> {
        shard_bytes(self.coords@)
    }
}

/// One block of a shard as a pair of integers, each meant to stay below
/// the modulus.
pub struct EncodeBlock {
    pub s0: BigNat,
    pub s1: BigNat,
}

impl View for EncodeBlock {
    type V = (nat, nat);

    open spec fn view(&self) -> (nat, nat) {
        (self.s0@, self.s1@)
    }
}

impl EncodeBlock {
    pub open spec fn wf(&self) -> bool {
        self.s0.wf() && self.s1.wf()
    }
}

impl Default for EncodeBlock {
    fn default() -> (r: Self)
        ensures
            r.wf(),
            r@ == (0nat, 0nat),
    {
        EncodeBlock { s0: BigNat::zero(), s1: BigNat::zero() }
    }
}

impl Clone for EncodeBlock {
    fn clone(&self) -> (r: Self)
        ensures
            r@ == self@,
            self.wf() ==> r.wf(),
    {
        EncodeBlock { s0: self.s0.copy(), s1: self.s1.copy() }
    }
}

/// A shard split into blocks of two big integers, ready for the trapdoor
/// permutation.
pub struct EncodedShard {
    pub idx: u16,
    pub blocks: Vec<EncodeBlock>,
}

impl Clone for EncodedShard {
    fn clone(&self) -> (r: Self)
        ensures
            r.idx == self.idx,
            r.blocks_view() == self.blocks_view(),
            self.wf() ==> r.wf(),
    {
        let mut blocks: Vec<EncodeBlock> = Vec::with_capacity(self.blocks.len());
        let mut i: usize = 0;
        while i < self.blocks.len()
            invariant
                i <= self.blocks@.len(),
                blocks@.len() == i,
                forall|j: int| 0 <= j < i ==> (#[trigger] blocks@[j])@ == self.blocks@[j]@
                    && (self.blocks@[j].wf() ==> blocks@[j].wf()),
            decreases self.blocks@.len() - i,
        {
            blocks.push(self.blocks[i].clone());
            i += 1;
        }
        let r = EncodedShard { idx: self.idx, blocks };
        assert(r.blocks_view() =~= self.blocks_view());
        r
    }
}

impl EncodedShard {
    /// The blocks as pairs of integers.
    pub open spec fn blocks_view(&self) -> Seq<(nat, nat)> {
        self.blocks@.map_values(|b: EncodeBlock| b@)
    }

    pub open spec fn wf(&self) -> bool {
        &&& self.blocks@.len() == SHARD_BLOCKS
        &&& forall|i: int| 0 <= i < SHARD_BLOCKS ==> #[trigger] self.blocks@[i].wf()
    }

    /// Every half can be written back in `BLOCK_HALF_SIZE` bytes.
    pub open spec fn halves_fit(&self) -> bool {
        forall|i: int|
            0 <= i < self.blocks@.len() ==> fits(#[trigger] self.blocks@[i].s0@) && fits(self.blocks@[i].s1@)
    }

    /// Writes the blocks back as shard bytes: each half minimal big-endian,
    /// zero-padded on the left to `BLOCK_HALF_SIZE` bytes.
    pub fn unpack(&self) -> (r: Shard)
        requires
            self.wf(),
            self.halves_fit(),
        ensures
            r.wf(),
            r.idx == self.idx,
            r@ == unpack_spec(self.blocks_view()),
    {
        let mut bytes: Vec<u8> = Vec::with_capacity(SHARD_SIZE);
        let mut i: usize = 0;
        while i < SHARD_BLOCKS
            invariant
                i <= SHARD_BLOCKS,
                self.wf(),
                self.halves_fit(),
                bytes@ == unpack_spec(self.blocks_view().take(i as int)),
                bytes@.len() == i * BLOCK_SIZE,
            decreases SHARD_BLOCKS - i,
        {
            proof {
                lemma_layout();
            }
            let b = &self.blocks[i];
            assert(self.blocks@[i as int].wf());
            assert(fits(self.blocks@[i as int].s0@) && fits(self.blocks@[i as int].s1@));
            push_half(&mut bytes, &b.s0);
            push_half(&mut bytes, &b.s1);
            proof {
                let bl = self.blocks_view().take(i + 1);
                assert(bl.drop_last() =~= self.blocks_view().take(i as int));
                assert(bl.last() == b@);
            }
            i += 1;
        }
        proof {
            assert(self.blocks_view().take(SHARD_BLOCKS as int) =~= self.blocks_view());
            lemma_layout();
        }
        Shard::new(self.idx, bytes.as_slice())
    }
}

/// Appends `v` as `BLOCK_HALF_SIZE` big-endian bytes.
fn push_half(bytes: &mut Vec<u8>, v: &BigNat)
    requires
        v.wf(),
        fits(v@),
    ensures
        final(bytes)@ == old(bytes)@ + half_bytes(v@),
{
    let bs = v.as_bytes();
    let pad = BLOCK_HALF_SIZE - bs.len();
    let mut i: usize = 0;
    while i < pad
        invariant
            i <= pad,
            bytes@ == old(bytes)@ + bignum::zeros(i as nat),
        decreases pad - i,
    {
        bytes.push(0u8);
        i += 1;
        assert(bytes@ =~= old(bytes)@ + bignum::zeros(i as nat));
    }
    let mut j: usize = 0;
    while j < bs.len()
        invariant
            j <= bs@.len(),
            bytes@ == old(bytes)@ + bignum::zeros(pad as nat) + bs@.subrange(0, j as int),
        decreases bs@.len() - j,
    {
        bytes.push(bs[j]);
        j += 1;
        assert(bytes@ =~= old(bytes)@ + bignum::zeros(pad as nat) + bs@.subrange(0, j as int));
    }
    assert(bytes@ =~= old(bytes)@ + half_bytes(v@));
}

/// A copy of the elements `c`.
pub fn copy_coords(c: &Vec<[u8; 2]>) -> (r: Vec<[u8; 2]>)
    ensures
        r@ == c@,
{
    let mut r: Vec<[u8; 2]> = Vec::with_capacity(c.len());
    let mut i: usize = 0;
    while i < c.len()
        invariant
            i <= c@.len(),
            r@ == c@.take(i as int),
        decreases c@.len() - i,
    {
        r.push(c[i]);
        i += 1;
        assert(r@ =~= c@.take(i as int));
    }
    assert(c@.take(c@.len() as int) =~= c@);
    r
}

impl Shard {
    pub open spec fn wf(&self) -> bool {
        self.coords@.len() == SHARD_ELEMS
    }

    /// A copy of the shard.
    pub fn copy(&self) -> (r: Shard)
        ensures
            r.idx == self.idx,
            r.coords@ == self.coords@,
    {
        Shard { idx: self.idx, coords: copy_coords(&self.coords) }
    }

    /// The shard `idx` holding the `SHARD_SIZE` bytes `bytes`, paired into
    /// GF(2^16) elements.
    pub fn new(idx: u16, bytes: &[u8]) -> (r: Shard)
        requires
            bytes@.len() == SHARD_SIZE,
        ensures
            r.wf(),
            r.idx == idx,
            r@ == bytes@,
    {
        let mut coords: Vec<[u8; 2]> = Vec::with_capacity(SHARD_ELEMS);
        let mut i: usize = 0;
        while i < SHARD_ELEMS
            invariant
                i <= SHARD_ELEMS,
                bytes@.len() == SHARD_SIZE,
                coords@.len() == i,
                shard_bytes(coords@) == bytes@.subrange(0, 2 * i),
            decreases SHARD_ELEMS - i,
        {
            let c: [u8; 2] = [bytes[2 * i], bytes[2 * i + 1]];
            assert(c@ =~= seq![bytes@[2 * i as int], bytes@[2 * i + 1]]);
            coords.push(c);
            i += 1;
            assert(shard_bytes(coords@) =~= bytes@.subrange(0, 2 * i));
        }
        let r = Shard { idx, coords };
        assert(bytes@.subrange(0, SHARD_SIZE as int) =~= bytes@);
        r
    }

    /// The bytes of the shard's elements, in order.
    pub fn unpack(&self) -> (r: Vec<u8>)
        requires
            self.coords@.len() <= SHARD_ELEMS,
        ensures
            r@ == self@,
    {
        let mut bytes: Vec<u8> = Vec::with_capacity(2 * self.coords.len());
        let mut i: usize = 0;
        while i < self.coords.len()
            invariant
                i <= self.coords@.len(),
                self.coords@.len() <= SHARD_ELEMS,
                bytes@ =~= shard_bytes(self.coords@.take(i as int)),
            decreases self.coords@.len() - i,
        {
            let c = self.coords[i];
            bytes.push(c[0]);
            bytes.push(c[1]);
            i += 1;
            assert(bytes@ =~= shard_bytes(self.coords@.take(i as int)));
        }
        assert(self.coords@.take(self.coords@.len() as int) =~= self.coords@);
        bytes
    }

    /// Splits the shard into blocks, each half read as a big-endian integer.
    pub fn pack(&self) -> (r: EncodedShard)
        requires
            self.wf(),
        ensures
            r.wf(),
            r.idx == self.idx,
            r.blocks_view() == pack_spec(self@),
    {
        let bytes = self.unpack();
        proof {
            lemma_layout();
        }
        let mut blocks: Vec<EncodeBlock> = Vec::with_capacity(SHARD_BLOCKS);
        let mut i: usize = 0;
        while i < SHARD_BLOCKS
            invariant
                i <= SHARD_BLOCKS,
                bytes@ == self@,
                bytes@.len() == SHARD_SIZE,
                blocks@.len() == i,
                forall|j: int| 0 <= j < i ==> (#[trigger] blocks@[j]).wf() && blocks@[j]@ == pack_spec(bytes@)[j],
            decreases SHARD_BLOCKS - i,
        {
            proof {
                lemma_layout();
            }
            let l = i * BLOCK_SIZE;
            let m = l + BLOCK_HALF_SIZE;
            let r = (i + 1) * BLOCK_SIZE;
            let s0 = BigNat::from_be_bytes(slice_bytes(bytes.as_slice(), l, m).as_slice());
            let s1 = BigNat::from_be_bytes(slice_bytes(bytes.as_slice(), m, r).as_slice());
            blocks.push(EncodeBlock { s0, s1 });
            i += 1;
        }
        let e = EncodedShard { idx: self.idx, blocks };
        assert(e.blocks_view() =~= pack_spec(self@));
        e
    }
}

/// Unpacking undoes packing: for any `SHARD_SIZE` bytes, every packed half
/// fits back in `BLOCK_HALF_SIZE` bytes and unpacking the packed blocks gives
/// the bytes.
pub proof fn lemma_pack_unpack(bytes: Seq<u8>)
    requires
        bytes.len() == SHARD_SIZE,
    ensures
        forall|i: int| 0 <= i < SHARD_BLOCKS ==> fits(#[trigger] pack_spec(bytes)[i].0) && fits(pack_spec(bytes)[i].1),
        unpack_spec(pack_spec(bytes)) == bytes,
{
    lemma_layout();
    let p = pack_spec(bytes);
    lemma_half(bytes, 0, 0);
    lemma_half(bytes, 0, 1);
    lemma_half(bytes, 1, 0);
    lemma_half(bytes, 1, 1);
    assert(p.drop_last().drop_last() =~= Seq::<(nat, nat)>::empty());
    assert(p.drop_last().last() == p[0]);
    assert(unpack_spec(p.drop_last().drop_last()) == Seq::<u8>::empty());
    assert(unpack_spec(p.drop_last()) == half_bytes(p[0].0) + half_bytes(p[0].1));
    assert(unpack_spec(p) =~= bytes);
}

/// The sizes of the block layout.
pub proof fn lemma_layout()
    ensures
        BLOCK_HALF_SIZE == 256,
        BLOCK_SIZE == 512,
        SHARD_BLOCKS == 2,
        SHARD_ELEMS == 512,
        SHARD_BLOCKS * BLOCK_SIZE == SHARD_SIZE,
{
    assert(MODULUS_SIZE == 2050);
    assert(BLOCK_HALF_SIZE == 2050usize / 8);
    assert(2050usize / 8 == 256) by (nonlinear_arith);
    assert(BLOCK_SIZE == 512);
    assert(SHARD_BLOCKS == 1024usize / 512);
    assert(1024usize / 512 == 2) by (nonlinear_arith);
    assert(SHARD_ELEMS == 1024usize / 2);
    assert(1024usize / 2 == 512) by (nonlinear_arith);
}

/// A packed half fits, and writing it back gives its bytes.
proof fn lemma_half(bytes: Seq<u8>, i: int, h: int)
    requires
        bytes.len() == SHARD_SIZE,
        0 <= i < 2,
        0 <= h < 2,
    ensures
        fits(half_of(bytes, i, h)),
        half_bytes(half_of(bytes, i, h)) == bytes.subrange(
            i * BLOCK_SIZE + h * BLOCK_HALF_SIZE,
            i * BLOCK_SIZE + h * BLOCK_HALF_SIZE + BLOCK_HALF_SIZE,
        ),
{
    lemma_layout();
    let lo = i * BLOCK_SIZE + h * BLOCK_HALF_SIZE;
    assert(0 <= lo && lo + BLOCK_HALF_SIZE <= SHARD_SIZE) by (nonlinear_arith)
        requires
            0 <= i < 2,
            0 <= h < 2,
            lo == i * 512 + h * 256,
            BLOCK_HALF_SIZE == 256,
            SHARD_SIZE == 1024,
    ;
    lemma_pad_min_value(bytes.subrange(lo, lo + BLOCK_HALF_SIZE));
}

/// The bytes of `s`, shard after shard.
pub open spec fn shards_bytes(s: Seq<Shard>) -> Seq<u8>
    decreases s.len(),
{
    if s.len() == 0 {
        Seq::empty()
    } else {
        shards_bytes(s.drop_last()) + s.last()@
    }
}

/// A file: its original length and its data shards.
pub struct File {
    pub length: usize,
    pub shards: Vec<Shard>,
}

impl File {
    /// As many shards as the length needs, each of `SHARD_SIZE` bytes and
    /// indexed by its position.
    pub open spec fn wf(&self) -> bool {
        &&& self.shards@.len() == shard_count(self.length as nat)
        &&& forall|i: int| 0 <= i < self.shards@.len() ==> (#[trigger] self.shards@[i]).wf() && self.shards@[i].idx == i
    }
}

/// Describes an encoded file: the length of the original input.
#[derive(Debug)]
pub struct Header {
    pub length: usize,
}

impl Header {
    /// Returns the number of shards needed to reconstruct the file.
    pub fn shards(&self) -> (r: usize)
        ensures
            r == shard_count(self.length as nat),
    {
        let n = self.length / SHARD_SIZE;
        if self.length % SHARD_SIZE != 0 {
            n + 1
        } else {
            n
        }
    }
}

} // verus!
