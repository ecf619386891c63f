//! The block permutation: a tweaked Feistel network interleaved with the
//! RSA permutation `v -> v^3 mod n` and its trapdoor inverse.
use crate::bignum::{
    be_min, be_value, generate_prime, lemma_be_value_bound, lemma_be_value_min, mod_exp, mod_inverse, mod_mul, mod_sqr, new_context, product,
    nnmod, sub_word, BigNat, MAX_BIGNUM_BYTES,
};
use crate::misc::{append_bytes, expand, expand_spec, slice_bytes};
use crate::{
    half_of, lemma_layout, lemma_pack_unpack, pack_spec, unpack_spec, EncodeBlock, EncodedShard, Error,
    BLOCK_HALF_SIZE, BLOCK_SIZE, PRIME_SIZE, SHARD_BLOCKS, SHARD_SIZE,
};
use openssl::bn::BigNumContext;
use vstd::arithmetic::div_mod::*;
use vstd::arithmetic::mul::*;
use vstd::arithmetic::power::{lemma_pow_adds, lemma_pow_multiplies, lemma_pow_positive, pow};
use vstd::prelude::*;

verus! {

/// Rounds of the trapdoor permutation applied to a block.
pub const ROUNDS: u32 = 2;

/// Rounds of each Feistel network.
pub const FEISTEL: u32 = 8;

/// Longest block tweak the Feistel network accepts.
pub const MAX_TWEAK: usize = 64;

/// Longest modulus, in bytes, the round function accepts.
pub const MAX_MODULUS_BYTES: usize = MAX_BIGNUM_BYTES - 16;

/// The block tweak: shard index (2 bytes) then block index (4 bytes), both
/// little-endian.
pub open spec fn block_tweak(shard_idx: u16, block_idx: u32) -> Seq<u8> {
    seq![
        (shard_idx % 256) as u8,
        (shard_idx / 256) as u8,
        (block_idx % 256) as u8,
        ((block_idx / 256) % 256) as u8,
        ((block_idx / 65536) % 256) as u8,
        (block_idx / 16777216) as u8,
    ]
}

/// The tweak of Feistel round `r`: the round counter, then the block tweak.
pub open spec fn round_tweak(r: nat, tweak: Seq<u8>) -> Seq<u8> {
    seq![r as u8] + tweak
}

/// The round function: the expansion of `v` under `tweak`, `num_bytes(n) + 16`
/// bytes long, read big-endian and reduced modulo `n`.
pub open spec fn prf(n: nat, tweak: Seq<u8>, v: nat) -> nat {
    be_value(expand_spec(tweak, be_min(v), be_min(n).len() + 16)) % n
}

/// The inverse of `p` modulo `n`, where there is one.
pub open spec fn inv_mod(p: nat, n: nat) -> Option<nat> {
    if exists|x: nat| x < n && #[trigger] ((p * x) % n) == 1 {
        Some(choose|x: nat| x < n && #[trigger] ((p * x) % n) == 1)
    } else {
        None
    }
}

/// The forward Feistel network after its first `k` rounds. Round `r` replaces
/// `s1` by `s1 * P^-1 mod n` with `P` the round function of `s0`, then swaps
/// the halves, except in the last round. `None` where some `P` has no inverse.
pub open spec fn feistel_fwd(n: nat, tweak: Seq<u8>, s: (nat, nat), k: nat) -> Option<(nat, nat)>
    decreases k,
{
    if k == 0 {
        Some(s)
    } else {
        match feistel_fwd(n, tweak, s, (k - 1) as nat) {
            None => None,
            Some(prev) => {
                match inv_mod(prf(n, round_tweak((k - 1) as nat, tweak), prev.0), n) {
                    None => None,
                    Some(p_inv) => {
                        let c = (prev.1 * p_inv) % n;
                        if k < FEISTEL {
                            Some((c, prev.0))
                        } else {
                            Some((prev.0, c))
                        }
                    },
                }
            },
        }
    }
}

/// The reverse Feistel network after its first `k` rounds. Round `r` uses the
/// round counter `FEISTEL - 1 - r` and replaces `s1` by `s1 * P mod n`, then
/// swaps the halves, except in the last round.
pub open spec fn feistel_rev(n: nat, tweak: Seq<u8>, s: (nat, nat), k: nat) -> (nat, nat)
    decreases k,
{
    if k == 0 {
        s
    } else {
        let prev = feistel_rev(n, tweak, s, (k - 1) as nat);
        let c = (prev.1 * prf(n, round_tweak((FEISTEL - k) as nat, tweak), prev.0)) % n;
        if k < FEISTEL {
            (c, prev.0)
        } else {
            (prev.0, c)
        }
    }
}

/// The RSA permutation `v^3 mod n`.
pub open spec fn rsa_p_spec(v: nat, n: nat) -> nat {
    (v * v * v) % n
}

/// The RSA trapdoor inverse `c^d mod n`.
pub open spec fn rsa_pinv_spec(c: nat, n: nat, d: nat) -> nat {
    (pow(c as int, d) % (n as int)) as nat
}

/// `d` inverts the RSA permutation modulo `n`: `(x^d)^3 = x (mod n)` for all `x < n`.
pub open spec fn is_trapdoor(n: nat, d: nat) -> bool {
    &&& n > 1
    &&& forall|x: nat| x < n ==> #[trigger] rsa_p_spec(rsa_pinv_spec(x, n, d), n) == x
}

/// One encoding round: the forward Feistel network, then the trapdoor on each half.
pub open spec fn enc_round(n: nat, d: nat, tweak: Seq<u8>, s: (nat, nat)) -> Option<(nat, nat)> {
    match feistel_fwd(n, tweak, s, FEISTEL as nat) {
        None => None,
        Some(f) => Some((rsa_pinv_spec(f.0, n, d), rsa_pinv_spec(f.1, n, d))),
    }
}

/// One decoding round: the RSA permutation on each half, then the reverse
/// Feistel network.
pub open spec fn dec_round(n: nat, tweak: Seq<u8>, s: (nat, nat)) -> (nat, nat) {
    feistel_rev(n, tweak, (rsa_p_spec(s.0, n), rsa_p_spec(s.1, n)), FEISTEL as nat)
}

/// The block after `k` encoding rounds.
pub open spec fn encode_rounds(n: nat, d: nat, tweak: Seq<u8>, s: (nat, nat), k: nat) -> Option<(nat, nat)>
    decreases k,
{
    if k == 0 {
        Some(s)
    } else {
        match encode_rounds(n, d, tweak, s, (k - 1) as nat) {
            None => None,
            Some(u) => enc_round(n, d, tweak, u),
        }
    }
}

/// The block after `k` decoding rounds.
pub open spec fn decode_rounds(n: nat, tweak: Seq<u8>, s: (nat, nat), k: nat) -> (nat, nat)
    decreases k,
{
    if k == 0 {
        s
    } else {
        dec_round(n, tweak, decode_rounds(n, tweak, s, (k - 1) as nat))
    }
}

/// Encoding a block at position `(shard_idx, block_idx)`.
pub open spec fn encode_block(n: nat, d: nat, shard_idx: u16, block_idx: u32, s: (nat, nat)) -> Option<(nat, nat)> {
    encode_rounds(n, d, block_tweak(shard_idx, block_idx), s, ROUNDS as nat)
}

/// Decoding a block at position `(shard_idx, block_idx)`.
pub open spec fn decode_block(n: nat, shard_idx: u16, block_idx: u32, s: (nat, nat)) -> (nat, nat) {
    decode_rounds(n, block_tweak(shard_idx, block_idx), s, ROUNDS as nat)
}

proof fn lemma_inv_unique(p: nat, n: nat, x: nat, y: nat)
    requires
        n > 1,
        x < n,
        y < n,
        (p * x) % n == 1,
        (p * y) % n == 1,
    ensures
        x == y,
{
    lemma_mul_mod_noop_right(x as int, (p * y) as int, n as int);
    lemma_mul_mod_noop_left((p * x) as int, y as int, n as int);
    lemma_mul_is_associative(x as int, p as int, y as int);
    lemma_mul_is_commutative(x as int, p as int);
    lemma_small_mod(x, n);
    lemma_small_mod(y, n);
}

proof fn lemma_inv_mod_is(p: nat, n: nat, v: nat)
    requires
        n > 1,
        v < n,
        (p * v) % n == 1,
    ensures
        inv_mod(p, n) == Some(v),
{
    assert(exists|x: nat| x < n && #[trigger] ((p * x) % n) == 1);
    let x = choose|x: nat| x < n && #[trigger] ((p * x) % n) == 1;
    lemma_inv_unique(p, n, x, v);
}

proof fn lemma_inv_mod_some(p: nat, n: nat)
    requires
        inv_mod(p, n) is Some,
    ensures
        inv_mod(p, n).unwrap() < n,
        (p * inv_mod(p, n).unwrap()) % n == 1,
{
}

/// Multiplying by an inverse and then by the value itself gives back `b`.
proof fn lemma_mul_inv_cancel(b: nat, p: nat, p_inv: nat, n: nat)
    requires
        n > 1,
        b < n,
        (p * p_inv) % n == 1,
    ensures
        (((b * p_inv) % n) * p) % n == b,
{
    lemma_mul_mod_noop_left((b * p_inv) as int, p as int, n as int);
    lemma_mul_is_associative(b as int, p_inv as int, p as int);
    lemma_mul_is_commutative(p_inv as int, p as int);
    lemma_mul_mod_noop_right(b as int, (p * p_inv) as int, n as int);
    lemma_small_mod(b, n);
}

/// The halves exchanged.
pub open spec fn swap(s: (nat, nat)) -> (nat, nat) {
    (s.1, s.0)
}

proof fn lemma_fwd_prefix(n: nat, tweak: Seq<u8>, s: (nat, nat), j: nat, k: nat)
    requires
        j <= k,
        feistel_fwd(n, tweak, s, k) is Some,
    ensures
        feistel_fwd(n, tweak, s, j) is Some,
    decreases k,
{
    if j < k {
        lemma_fwd_prefix(n, tweak, s, j, (k - 1) as nat);
    }
}

proof fn lemma_fwd_bound(n: nat, tweak: Seq<u8>, s: (nat, nat), k: nat)
    requires
        n > 1,
        s.0 < n,
        s.1 < n,
        feistel_fwd(n, tweak, s, k) is Some,
    ensures
        feistel_fwd(n, tweak, s, k).unwrap().0 < n,
        feistel_fwd(n, tweak, s, k).unwrap().1 < n,
    decreases k,
{
    if k > 0 {
        lemma_fwd_bound(n, tweak, s, (k - 1) as nat);
        let prev = feistel_fwd(n, tweak, s, (k - 1) as nat).unwrap();
        let p_inv = inv_mod(prf(n, round_tweak((k - 1) as nat, tweak), prev.0), n).unwrap();
        lemma_mod_pos_bound((prev.1 * p_inv) as int, n as int);
    }
}

/// The last `m` reverse rounds undo the last `m` forward rounds: before the
/// `m`-th the halves stand exchanged, after it they stand in place.
proof fn lemma_feistel_rev_fwd(n: nat, tweak: Seq<u8>, s: (nat, nat), m: nat)
    requires
        n > 1,
        s.0 < n,
        s.1 < n,
        feistel_fwd(n, tweak, s, FEISTEL as nat) is Some,
        1 <= m <= FEISTEL,
    ensures
        m < FEISTEL ==> feistel_rev(n, tweak, feistel_fwd(n, tweak, s, FEISTEL as nat).unwrap(), m)
            == swap(feistel_fwd(n, tweak, s, (FEISTEL - m) as nat).unwrap()),
        m == FEISTEL ==> feistel_rev(n, tweak, feistel_fwd(n, tweak, s, FEISTEL as nat).unwrap(), m)
            == s,
    decreases m,
{
    let t = feistel_fwd(n, tweak, s, FEISTEL as nat).unwrap();
    let j = (FEISTEL - m) as nat;
    lemma_fwd_prefix(n, tweak, s, j + 1, FEISTEL as nat);
    lemma_fwd_prefix(n, tweak, s, j, FEISTEL as nat);
    lemma_fwd_bound(n, tweak, s, j);
    let xj = feistel_fwd(n, tweak, s, j).unwrap();
    let p = prf(n, round_tweak(j, tweak), xj.0);
    lemma_inv_mod_some(p, n);
    let p_inv = inv_mod(p, n).unwrap();
    lemma_mul_inv_cancel(xj.1, p, p_inv, n);
    let c = (xj.1 * p_inv) % n;
    if m > 1 {
        lemma_feistel_rev_fwd(n, tweak, s, (m - 1) as nat);
    }
    assert(feistel_rev(n, tweak, t, (m - 1) as nat) == (xj.0, c));
}

/// The forward Feistel network is undone by the reverse one.
proof fn lemma_feistel_round_trip(n: nat, tweak: Seq<u8>, s: (nat, nat))
    requires
        n > 1,
        s.0 < n,
        s.1 < n,
        feistel_fwd(n, tweak, s, FEISTEL as nat) is Some,
    ensures
        feistel_rev(n, tweak, feistel_fwd(n, tweak, s, FEISTEL as nat).unwrap(), FEISTEL as nat) == s,
{
    lemma_feistel_rev_fwd(n, tweak, s, FEISTEL as nat);
}

/// One decoding round undoes one encoding round, whose result stays below `n`.
proof fn lemma_round_trip(n: nat, d: nat, tweak: Seq<u8>, s: (nat, nat))
    requires
        is_trapdoor(n, d),
        s.0 < n,
        s.1 < n,
        enc_round(n, d, tweak, s) is Some,
    ensures
        enc_round(n, d, tweak, s).unwrap().0 < n,
        enc_round(n, d, tweak, s).unwrap().1 < n,
        dec_round(n, tweak, enc_round(n, d, tweak, s).unwrap()) == s,
{
    let f = feistel_fwd(n, tweak, s, FEISTEL as nat).unwrap();
    lemma_fwd_bound(n, tweak, s, FEISTEL as nat);
    lemma_feistel_round_trip(n, tweak, s);
    lemma_mod_bound(pow(f.0 as int, d), n as int);
    lemma_mod_bound(pow(f.1 as int, d), n as int);
    assert(rsa_p_spec(rsa_pinv_spec(f.0, n, d), n) == f.0);
    assert(rsa_p_spec(rsa_pinv_spec(f.1, n, d), n) == f.1);
}

/// Decoding undoes encoding: for a trapdoor pair `(n, d)`, any block with both
/// halves below `n` and any position, decoding the encoded block gives the block.
pub proof fn lemma_block_round_trip(n: nat, d: nat, shard_idx: u16, block_idx: u32, s: (nat, nat))
    requires
        is_trapdoor(n, d),
        s.0 < n,
        s.1 < n,
        encode_block(n, d, shard_idx, block_idx, s) is Some,
    ensures
        decode_block(n, shard_idx, block_idx, encode_block(n, d, shard_idx, block_idx, s).unwrap()) == s,
{
    let tweak = block_tweak(shard_idx, block_idx);
    assert(encode_rounds(n, d, tweak, s, 0) == Some(s));
    assert(encode_rounds(n, d, tweak, s, 1) == enc_round(n, d, tweak, s));
    let u1 = enc_round(n, d, tweak, s).unwrap();
    lemma_round_trip(n, d, tweak, s);
    assert(encode_rounds(n, d, tweak, s, 2) == enc_round(n, d, tweak, u1));
    let u2 = enc_round(n, d, tweak, u1).unwrap();
    lemma_round_trip(n, d, tweak, u1);
    assert(decode_rounds(n, tweak, u2, 0) == u2);
    assert(decode_rounds(n, tweak, u2, 1) == dec_round(n, tweak, u2));
    assert(decode_rounds(n, tweak, u2, 2) == dec_round(n, tweak, u1));
}

/// Serializes a block position into its tweak.
pub fn block_to_tweak(shard_idx: u16, block_idx: u32) -> (r: [u8; 6])
    ensures
        r@ == block_tweak(shard_idx, block_idx),
{
    let r = [
        (shard_idx % 256) as u8,
        (shard_idx / 256) as u8,
        (block_idx % 256) as u8,
        ((block_idx / 256) % 256) as u8,
        ((block_idx / 65536) % 256) as u8,
        (block_idx / 16777216) as u8,
    ];
    assert(r@ =~= block_tweak(shard_idx, block_idx));
    r
}

/// The round counter `r` followed by `tweak`.
fn make_round_tweak(r: u8, tweak: &[u8]) -> (v: Vec<u8>)
    requires
        tweak@.len() <= MAX_TWEAK,
    ensures
        v@ == round_tweak(r as nat, tweak@),
{
    let mut v: Vec<u8> = Vec::with_capacity(tweak.len() + 1);
    v.push(r);
    let mut i: usize = 0;
    while i < tweak.len()
        invariant
            i <= tweak@.len(),
            v@ == seq![r] + tweak@.subrange(0, i as int),
        decreases tweak@.len() - i,
    {
        v.push(tweak[i]);
        i += 1;
        assert(v@ =~= seq![r] + tweak@.subrange(0, i as int));
    }
    assert(tweak@.subrange(0, tweak@.len() as int) =~= tweak@);
    v
}

/// The round function of `v` under `tweak`.
fn round_fn(ctx: &mut BigNumContext, tweak: &[u8], v: &BigNat, n: &BigNat) -> (r: Result<BigNat, Error>)
    requires
        tweak@.len() <= MAX_TWEAK + 1,
        v.wf(),
        n.wf(),
        n@ > 0,
        be_min(n@).len() <= MAX_MODULUS_BYTES,
    ensures
        r matches Ok(x) ==> x.wf() && x@ == prf(n@, tweak@, v@),
        r matches Err(e) ==> e == Error::Arithmetic,
{
    let len = n.num_bytes() + 16;
    let random = expand(tweak, v.as_bytes().as_slice(), len)?;
    nnmod(random.as_slice(), n, ctx)
}

/// The RSA permutation: `v^3 mod n`, as a square then a product.
pub fn rsa_p(ctx: &mut BigNumContext, v: &BigNat, n: &BigNat) -> (r: Result<BigNat, Error>)
    requires
        v.wf(),
        n.wf(),
        n@ > 0,
    ensures
        r matches Ok(x) ==> x.wf() && x@ == rsa_p_spec(v@, n@),
        r matches Err(e) ==> e == Error::Arithmetic,
{
    let sq = mod_sqr(v, n, ctx)?;
    let r = mod_mul(&sq, v, n, ctx)?;
    proof {
        lemma_mul_mod_noop_left((v@ * v@) as int, v@ as int, n@ as int);
    }
    Ok(r)
}

/// The RSA trapdoor inverse: `c^d mod n`.
pub fn rsa_pinv(ctx: &mut BigNumContext, c: &BigNat, n: &BigNat, d: &BigNat) -> (r: Result<BigNat, Error>)
    requires
        c.wf(),
        n.wf(),
        d.wf(),
        n@ > 0,
    ensures
        r matches Ok(x) ==> x.wf() && x@ == rsa_pinv_spec(c@, n@, d@),
        r matches Err(e) ==> e == Error::Arithmetic,
{
    mod_exp(c, d, n, ctx)
}

impl EncodeBlock {
    /// The Feistel network, forward or in reverse, under the block tweak `tweak`.
    fn feistel(&mut self, ctx: &mut BigNumContext, reverse: bool, n: &BigNat, tweak: &[u8]) -> (r: Result<(), Error>)
        requires
            old(self).wf(),
            n.wf(),
            n@ > 1,
            be_min(n@).len() <= MAX_MODULUS_BYTES,
            tweak@.len() <= MAX_TWEAK,
        ensures
            r is Ok ==> final(self).wf(),
            r is Ok && reverse ==> final(self)@ == feistel_rev(n@, tweak@, old(self)@, FEISTEL as nat),
            r is Ok && !reverse ==> feistel_fwd(n@, tweak@, old(self)@, FEISTEL as nat) == Some(final(self)@),
            r matches Err(e) ==> e == Error::Arithmetic,
    {
        let mut r: u32 = 0;
        while r < FEISTEL
            invariant
                r <= FEISTEL,
                n.wf(),
                n@ > 1,
                be_min(n@).len() <= MAX_MODULUS_BYTES,
                tweak@.len() <= MAX_TWEAK,
                self.wf(),
                reverse ==> self@ == feistel_rev(n@, tweak@, old(self)@, r as nat),
                !reverse ==> feistel_fwd(n@, tweak@, old(self)@, r as nat) == Some(self@),
            decreases FEISTEL - r,
        {
            let round: u8 = if reverse { (FEISTEL - 1 - r) as u8 } else { r as u8 };
            let rt = make_round_tweak(round, tweak);
            let p = round_fn(ctx, rt.as_slice(), &self.s0, n)?;
            let mut new = if reverse {
                mod_mul(&self.s1, &p, n, ctx)?
            } else {
                let p_inv = mod_inverse(&p, n, ctx)?;
                proof {
                    lemma_inv_mod_is(p@, n@, p_inv@);
                }
                mod_mul(&self.s1, &p_inv, n, ctx)?
            };
            if r < FEISTEL - 1 {
                std::mem::swap(&mut self.s0, &mut new);
                self.s1 = new;
            } else {
                self.s1 = new;
            }
            r += 1;
        }
        Ok(())
    }

    /// One decoding round: the RSA permutation on each half, then the reverse
    /// Feistel network.
    fn round_inv(&mut self, ctx: &mut BigNumContext, n: &BigNat, tweak: &[u8]) -> (r: Result<(), Error>)
        requires
            old(self).wf(),
            n.wf(),
            n@ > 1,
            be_min(n@).len() <= MAX_MODULUS_BYTES,
            tweak@.len() <= MAX_TWEAK,
        ensures
            r is Ok ==> final(self).wf() && final(self)@ == dec_round(n@, tweak@, old(self)@),
            r matches Err(e) ==> e == Error::Arithmetic,
    {
        self.s0 = rsa_p(ctx, &self.s0, n)?;
        self.s1 = rsa_p(ctx, &self.s1, n)?;
        self.feistel(ctx, true, n, tweak)
    }

    /// One encoding round: the forward Feistel network, then the trapdoor on
    /// each half.
    fn round(&mut self, ctx: &mut BigNumContext, n: &BigNat, t: &BigNat, tweak: &[u8]) -> (r: Result<(), Error>)
        requires
            old(self).wf(),
            n.wf(),
            t.wf(),
            n@ > 1,
            be_min(n@).len() <= MAX_MODULUS_BYTES,
            tweak@.len() <= MAX_TWEAK,
        ensures
            r is Ok ==> final(self).wf() && enc_round(n@, t@, tweak@, old(self)@) == Some(final(self)@),
            r matches Err(e) ==> e == Error::Arithmetic,
    {
        self.feistel(ctx, false, n, tweak)?;
        self.s0 = rsa_pinv(ctx, &self.s0, n, t)?;
        self.s1 = rsa_pinv(ctx, &self.s1, n, t)?;
        Ok(())
    }

    /// Encodes the block at position `(shard_idx, block_idx)` under modulus `n`
    /// and trapdoor `t`.
    pub fn encode(&mut self, ctx: &mut BigNumContext, n: &BigNat, t: &BigNat, shard_idx: u16, block_idx: u32) -> (r: Result<(), Error>)
        requires
            old(self).wf(),
            n.wf(),
            t.wf(),
            n@ > 1,
            be_min(n@).len() <= MAX_MODULUS_BYTES,
        ensures
            r is Ok ==> final(self).wf() && encode_block(n@, t@, shard_idx, block_idx, old(self)@) == Some(final(self)@),
            r matches Err(e) ==> e == Error::Arithmetic,
    {
        let tweak = block_to_tweak(shard_idx, block_idx);
        let mut r: u32 = 0;
        while r < ROUNDS
            invariant
                r <= ROUNDS,
                n.wf(),
                t.wf(),
                n@ > 1,
                be_min(n@).len() <= MAX_MODULUS_BYTES,
                tweak@ == block_tweak(shard_idx, block_idx),
                self.wf(),
                encode_rounds(n@, t@, tweak@, old(self)@, r as nat) == Some(self@),
            decreases ROUNDS - r,
        {
            self.round(ctx, n, t, tweak.as_slice())?;
            r += 1;
        }
        Ok(())
    }

    /// Decodes the block at position `(shard_idx, block_idx)` under modulus `n`.
    pub fn decode(&mut self, ctx: &mut BigNumContext, n: &BigNat, shard_idx: u16, block_idx: u32) -> (r: Result<(), Error>)
        requires
            old(self).wf(),
            n.wf(),
            n@ > 1,
            be_min(n@).len() <= MAX_MODULUS_BYTES,
        ensures
            r is Ok ==> final(self).wf() && final(self)@ == decode_block(n@, shard_idx, block_idx, old(self)@),
            r matches Err(e) ==> e == Error::Arithmetic,
    {
        let tweak = block_to_tweak(shard_idx, block_idx);
        let mut r: u32 = 0;
        while r < ROUNDS
            invariant
                r <= ROUNDS,
                n.wf(),
                n@ > 1,
                be_min(n@).len() <= MAX_MODULUS_BYTES,
                tweak@ == block_tweak(shard_idx, block_idx),
                self.wf(),
                decode_rounds(n@, tweak@, old(self)@, r as nat) == self@,
            decreases ROUNDS - r,
        {
            self.round_inv(ctx, n, tweak.as_slice())?;
            r += 1;
        }
        Ok(())
    }
}

/// Attempts at drawing primes before key generation gives up.
pub const KEYGEN_ATTEMPTS: u32 = 128;

/// `n` and `d` come from primes `p` and `q` of at least `PRIME_SIZE` bits:
/// `n = p * q` and `3 * d = 1 (mod (p - 1) * (q - 1))`.
pub open spec fn generated_from(n: nat, d: nat, p: nat, q: nat) -> bool {
    &&& p >= pow(2, (PRIME_SIZE - 1) as nat)
    &&& q >= pow(2, (PRIME_SIZE - 1) as nat)
    &&& n == p * q
    &&& (3 * d) % ((p - 1) * (q - 1)) as nat == 1
    &&& d < (p - 1) * (q - 1)
}

/// The serialized encoding key: the byte length of `n` as a big-endian `u16`,
/// then `n` and `d`, each minimal big-endian.
pub open spec fn encoding_key_bytes(n: nat, d: nat) -> Seq<u8> {
    let len = be_min(n).len();
    seq![((len % 65536) / 256) as u8, (len % 256) as u8] + be_min(n) + be_min(d)
}

/// The length prefix of serialized encoding-key bytes.
pub open spec fn key_prefix(b: Seq<u8>) -> nat {
    (b[0] as nat) * 256 + b[1] as nat
}

/// Serialized encoding-key bytes that deserialize: a length prefix, then more
/// bytes than it announces, and a trapdoor part OpenSSL can read.
pub open spec fn encoding_key_readable(b: Seq<u8>) -> bool {
    &&& b.len() >= 2
    &&& key_prefix(b) < b.len() - 2
    &&& b.len() - 2 - key_prefix(b) <= MAX_BIGNUM_BYTES
}

/// A key for encoding shards: modulus `n` and trapdoor `d` (the public
/// exponent is 3).
pub struct EncodingKey {
    n: BigNat,
    d: BigNat,
}

/// A key for decoding shards: the modulus `n`.
pub struct DecodingKey {
    n: BigNat,
}

impl Clone for EncodingKey {
    fn clone(&self) -> (r: Self)
        ensures
            r.modulus() == self.modulus(),
            r.trapdoor() == self.trapdoor(),
            self.wf() ==> r.wf(),
    {
        EncodingKey { n: self.n.copy(), d: self.d.copy() }
    }
}

impl Clone for DecodingKey {
    fn clone(&self) -> (r: Self)
        ensures
            r.modulus() == self.modulus(),
            self.wf() ==> r.wf(),
    {
        DecodingKey { n: self.n.copy() }
    }
}

/// `3` has no inverse modulo `m` where `3` divides `m`, or `m <= 1`.
proof fn lemma_no_inverse_of_three(m: nat)
    requires
        m % 3 == 0 || m <= 1,
    ensures
        inv_mod(3, m) is None,
{
    if exists|x: nat| x < m && #[trigger] ((3 * x) % m) == 1 {
        let x = choose|x: nat| x < m && #[trigger] ((3 * x) % m) == 1;
        if m > 1 {
            let t = m / 3;
            let c = (3 * x) / m;
            lemma_fundamental_div_mod((3 * x) as int, m as int);
            lemma_fundamental_div_mod(m as int, 3);
            assert(3 * x == m * c + 1);
            assert(m == 3 * t);
            assert(3 * x == 3 * (t * c) + 1) by (nonlinear_arith)
                requires
                    3 * x == m * c + 1,
                    m == 3 * t,
            ;
            assert(false);
        }
    }
}

/// Derives the modulus `p * q` and the trapdoor `3^-1 mod (p - 1) * (q - 1)`
/// from two primes; `None` where 3 has no inverse.
pub fn derive_key(p: &BigNat, q: &BigNat, ctx: &mut BigNumContext) -> (r: Result<Option<(BigNat, BigNat)>, Error>)
    requires
        p.wf(),
        q.wf(),
        p@ > 1,
        q@ > 1,
    ensures
        r matches Ok(Some(k)) ==> k.0.wf() && k.1.wf() && k.0@ == p@ * q@
            && (3 * k.1@) % ((p@ - 1) * (q@ - 1)) as nat == 1 && k.1@ < (p@ - 1) * (q@ - 1),
        r matches Ok(None) ==> inv_mod(3, ((p@ - 1) * (q@ - 1)) as nat) is None,
        r matches Err(e) ==> e == Error::Arithmetic,
{
    let n = match product(p, q, ctx)? {
        Some(n) => n,
        None => return Err(Error::Arithmetic),
    };
    let p1 = sub_word(p, 1)?;
    let q1 = sub_word(q, 1)?;
    let phi = match product(&p1, &q1, ctx)? {
        Some(phi) => phi,
        None => return Err(Error::Arithmetic),
    };
    if !phi.gt_one() || phi.mod_three() == 0 {
        proof {
            lemma_no_inverse_of_three(phi@);
        }
        return Ok(None);
    }
    let mut three: Vec<u8> = Vec::new();
    three.push(3u8);
    let e = BigNat::from_be_bytes(three.as_slice());
    proof {
        assert(three@.drop_last() =~= Seq::<u8>::empty());
        assert(be_value(three@) == be_value(Seq::<u8>::empty()) * 256 + 3);
    }
    let d = mod_inverse(&e, &phi, ctx)?;
    Ok(Some((n, d)))
}

/// Draws two primes and derives the modulus and the trapdoor.
fn generate(ctx: &mut BigNumContext) -> (r: Result<Option<(BigNat, BigNat)>, Error>)
    ensures
        r matches Ok(Some(k)) ==> k.0.wf() && k.1.wf() && exists|p: nat, q: nat| generated_from(k.0@, k.1@, p, q),
        r matches Err(e) ==> e == Error::Arithmetic,
{
    let p = match generate_prime(PRIME_SIZE as u32)? {
        Some(p) => p,
        None => return Ok(None),
    };
    let q = match generate_prime(PRIME_SIZE as u32)? {
        Some(q) => q,
        None => return Ok(None),
    };
    if !(p.gt_one() && q.gt_one()) {
        return Ok(None);
    }
    match derive_key(&p, &q, ctx)? {
        Some((n, d)) => {
            assert(generated_from(n@, d@, p@, q@));
            Ok(Some((n, d)))
        },
        None => Ok(None),
    }
}

impl EncodingKey {
    /// The modulus `n`.
    pub closed spec fn modulus(&self) -> nat {
        self.n@
    }

    /// The trapdoor `d`.
    pub closed spec fn trapdoor(&self) -> nat {
        self.d@
    }

    pub closed spec fn wf(&self) -> bool {
        self.n.wf() && self.d.wf()
    }

    /// The modulus is one the block permutation accepts.
    pub open spec fn usable(&self) -> bool {
        self.modulus() > 1 && be_min(self.modulus()).len() <= MAX_MODULUS_BYTES
    }

    /// Generates a fresh key, drawing new primes while 3 has no inverse
    /// modulo `(p - 1) * (q - 1)`.
    pub fn new() -> (r: Result<EncodingKey, Error>)
        ensures
            r matches Ok(k) ==> k.wf() && k.usable() && exists|p: nat, q: nat|
                generated_from(k.modulus(), k.trapdoor(), p, q),
            r matches Err(e) ==> e == Error::Arithmetic || e == Error::KeyGeneration,
    {
        let mut ctx = match new_context() {
            Ok(c) => c,
            Err(_) => return Err(Error::Arithmetic),
        };
        let mut attempt: u32 = 0;
        while attempt < KEYGEN_ATTEMPTS
            decreases KEYGEN_ATTEMPTS - attempt,
        {
            if let Some((n, d)) = generate(&mut ctx)? {
                if n.gt_one() && n.num_bytes() <= MAX_MODULUS_BYTES {
                    let k = EncodingKey { n, d };
                    assert(k.modulus() == k.n@ && k.trapdoor() == k.d@);
                    return Ok(k);
                }
            }
            attempt += 1;
        }
        Err(Error::KeyGeneration)
    }

    /// Encodes every block of `s` in place, block `i` at position `(s.idx, i)`.
    pub fn encode(&mut self, s: &mut EncodedShard) -> (r: Result<(), Error>)
        requires
            old(self).wf(),
            old(s).wf(),
        ensures
            *final(self) == *old(self),
            !old(self).usable() ==> r == Err::<(), Error>(Error::MalformedKey),
            r matches Err(e) ==> e == Error::MalformedKey || e == Error::Arithmetic,
            r is Err ==> final(s).wf() && final(s).idx == old(s).idx && final(s).blocks_view() == old(s).blocks_view(),
            r is Ok ==> final(s).wf() && final(s).idx == old(s).idx && forall|i: int|
                0 <= i < SHARD_BLOCKS ==> encode_block(
                    old(self).modulus(),
                    old(self).trapdoor(),
                    old(s).idx,
                    i as u32,
                    #[trigger] old(s).blocks_view()[i],
                ) == Some(final(s).blocks_view()[i]),
    {
        if !(self.n.gt_one() && self.n.num_bytes() <= MAX_MODULUS_BYTES) {
            return Err(Error::MalformedKey);
        }
        let mut ctx = match new_context() {
            Ok(c) => c,
            Err(_) => return Err(Error::Arithmetic),
        };
        let ghost old_blocks = s.blocks_view();
        let backup = s.clone();
        let mut rest: Vec<EncodeBlock> = Vec::new();
        std::mem::swap(&mut s.blocks, &mut rest);
        let mut done: Vec<EncodeBlock> = Vec::with_capacity(SHARD_BLOCKS);
        let mut i: usize = 0;
        while i < SHARD_BLOCKS
            invariant
                i <= SHARD_BLOCKS,
                self.wf(),
                self.usable(),
                *self == *old(self),
                s.idx == old(s).idx,
                old_blocks == old(s).blocks_view(),
                backup.wf(),
                backup.idx == old(s).idx,
                backup.blocks_view() == old_blocks,
                rest@.len() == SHARD_BLOCKS - i,
                done@.len() == i,
                forall|j: int| 0 <= j < rest@.len() ==> (#[trigger] rest@[j]).wf() && rest@[j]@ == old_blocks[i + j],
                forall|j: int| 0 <= j < i ==> (#[trigger] done@[j]).wf() && encode_block(
                    self.modulus(), self.trapdoor(), s.idx, j as u32, old_blocks[j]) == Some(done@[j]@),
            decreases SHARD_BLOCKS - i,
        {
            let mut b = rest.remove(0);
            assert(b@ == old_blocks[i as int]);
            match b.encode(&mut ctx, &self.n, &self.d, s.idx, i as u32) {
                Ok(()) => {},
                Err(e) => {
                    *s = backup;
                    return Err(e);
                },
            }
            done.push(b);
            i += 1;
        }
        s.blocks = done;
        assert(s.blocks@.len() == SHARD_BLOCKS);
        assert(s.blocks_view().len() == SHARD_BLOCKS);
        assert(old(s).blocks_view().len() == SHARD_BLOCKS);
        assert forall|i: int| 0 <= i < SHARD_BLOCKS implies encode_block(
            old(self).modulus(), old(self).trapdoor(), old(s).idx, i as u32,
            #[trigger] old(s).blocks_view()[i]) == Some(s.blocks_view()[i]) by {
            assert(s.blocks@[i].wf());
        }
        Ok(())
    }

    /// The decoding key: the modulus alone.
    pub fn decoding(&self) -> (r: DecodingKey)
        requires
            self.wf(),
        ensures
            r.wf(),
            r.modulus() == self.modulus(),
    {
        DecodingKey { n: self.n.copy() }
    }

    /// `[len(n): u16 big-endian][n][d]`, with `n` and `d` minimal big-endian.
    pub fn serialize(&self) -> (r: Vec<u8>)
        requires
            self.wf(),
        ensures
            r@ == encoding_key_bytes(self.modulus(), self.trapdoor()),
    {
        let n = self.n.as_bytes();
        let d = self.d.as_bytes();
        let len = n.len();
        let mut ser: Vec<u8> = Vec::with_capacity(2);
        ser.push(((len % 65536) / 256) as u8);
        ser.push((len % 256) as u8);
        append_bytes(&mut ser, n);
        append_bytes(&mut ser, d);
        ser
    }

    /// Reads a key that `serialize` wrote.
    pub fn deserialize(bytes: &[u8]) -> (r: Result<EncodingKey, Error>)
        ensures
            !encoding_key_readable(bytes@) ==> r == Err::<EncodingKey, Error>(Error::MalformedKey),
            encoding_key_readable(bytes@) ==> r is Ok,
            r matches Ok(k) ==> k.wf()
                && k.modulus() == be_value(bytes@.subrange(2, 2 + key_prefix(bytes@) as int))
                && k.trapdoor() == be_value(bytes@.subrange(2 + key_prefix(bytes@) as int, bytes@.len() as int)),
    {
        if bytes.len() < 2 {
            return Err(Error::MalformedKey);
        }
        let l: usize = (bytes[0] as usize) * 256 + bytes[1] as usize;
        if l >= bytes.len() - 2 || bytes.len() - 2 - l > MAX_BIGNUM_BYTES {
            return Err(Error::MalformedKey);
        }
        let nb = slice_bytes(bytes, 2, 2 + l);
        let db = slice_bytes(bytes, 2 + l, bytes.len());
        let n = BigNat::from_be_bytes(nb.as_slice());
        let d = BigNat::from_be_bytes(db.as_slice());
        Ok(EncodingKey { n, d })
    }
}

impl DecodingKey {
    /// The modulus `n`.
    pub closed spec fn modulus(&self) -> nat {
        self.n@
    }

    pub closed spec fn wf(&self) -> bool {
        self.n.wf()
    }

    /// The modulus is one the block permutation accepts.
    pub open spec fn usable(&self) -> bool {
        self.modulus() > 1 && be_min(self.modulus()).len() <= MAX_MODULUS_BYTES
    }

    /// Decodes every block of `s` in place, block `i` at position `(s.idx, i)`.
    pub fn decode(&mut self, s: &mut EncodedShard) -> (r: Result<(), Error>)
        requires
            old(self).wf(),
            old(s).wf(),
        ensures
            *final(self) == *old(self),
            !old(self).usable() ==> r == Err::<(), Error>(Error::MalformedKey),
            r matches Err(e) ==> e == Error::MalformedKey || e == Error::Arithmetic,
            r is Err ==> final(s).wf() && final(s).idx == old(s).idx && final(s).blocks_view() == old(s).blocks_view(),
            r is Ok ==> final(s).wf() && final(s).idx == old(s).idx && forall|i: int|
                0 <= i < SHARD_BLOCKS ==> #[trigger] final(s).blocks_view()[i] == decode_block(
                    old(self).modulus(),
                    old(s).idx,
                    i as u32,
                    old(s).blocks_view()[i],
                ),
    {
        if !(self.n.gt_one() && self.n.num_bytes() <= MAX_MODULUS_BYTES) {
            return Err(Error::MalformedKey);
        }
        let mut ctx = match new_context() {
            Ok(c) => c,
            Err(_) => return Err(Error::Arithmetic),
        };
        let ghost old_blocks = s.blocks_view();
        let backup = s.clone();
        let mut rest: Vec<EncodeBlock> = Vec::new();
        std::mem::swap(&mut s.blocks, &mut rest);
        let mut done: Vec<EncodeBlock> = Vec::with_capacity(SHARD_BLOCKS);
        let mut i: usize = 0;
        while i < SHARD_BLOCKS
            invariant
                i <= SHARD_BLOCKS,
                self.wf(),
                self.usable(),
                *self == *old(self),
                s.idx == old(s).idx,
                old_blocks == old(s).blocks_view(),
                backup.wf(),
                backup.idx == old(s).idx,
                backup.blocks_view() == old_blocks,
                rest@.len() == SHARD_BLOCKS - i,
                done@.len() == i,
                forall|j: int| 0 <= j < rest@.len() ==> (#[trigger] rest@[j]).wf() && rest@[j]@ == old_blocks[i + j],
                forall|j: int| 0 <= j < i ==> (#[trigger] done@[j]).wf() && done@[j]@ == decode_block(
                    self.modulus(), s.idx, j as u32, old_blocks[j]),
            decreases SHARD_BLOCKS - i,
        {
            let mut b = rest.remove(0);
            assert(b@ == old_blocks[i as int]);
            match b.decode(&mut ctx, &self.n, s.idx, i as u32) {
                Ok(()) => {},
                Err(e) => {
                    *s = backup;
                    return Err(e);
                },
            }
            done.push(b);
            i += 1;
        }
        s.blocks = done;
        assert(s.blocks@.len() == SHARD_BLOCKS);
        assert(s.blocks_view().len() == SHARD_BLOCKS);
        assert(old(s).blocks_view().len() == SHARD_BLOCKS);
        assert forall|i: int| 0 <= i < SHARD_BLOCKS implies #[trigger] s.blocks_view()[i] == decode_block(
            old(self).modulus(), old(s).idx, i as u32, old(s).blocks_view()[i]) by {
            assert(s.blocks@[i].wf());
        }
        Ok(())
    }

    /// The modulus as minimal big-endian bytes.
    pub fn serialize(&self) -> (r: Vec<u8>)
        requires
            self.wf(),
        ensures
            r@ == be_min(self.modulus()),
    {
        let mut ser: Vec<u8> = Vec::new();
        append_bytes(&mut ser, self.n.as_bytes());
        ser
    }

    /// Reads a key that `serialize` wrote.
    pub fn deserialize(bytes: &[u8]) -> (r: Result<DecodingKey, Error>)
        ensures
            bytes@.len() > MAX_BIGNUM_BYTES ==> r == Err::<DecodingKey, Error>(Error::MalformedKey),
            bytes@.len() <= MAX_BIGNUM_BYTES ==> r is Ok,
            r matches Ok(k) ==> k.wf() && k.modulus() == be_value(bytes@),
    {
        if bytes.len() > MAX_BIGNUM_BYTES {
            return Err(Error::MalformedKey);
        }
        let n = BigNat::from_be_bytes(bytes);
        Ok(DecodingKey { n })
    }
}


/// A cloned key encodes and decodes as its origin does: keys with the same
/// modulus and trapdoor give the same result on every block at every position.
pub proof fn lemma_clone_encodes_alike(k: EncodingKey, c: EncodingKey, shard_idx: u16, block_idx: u32, s: (nat, nat))
    requires
        c.modulus() == k.modulus(),
        c.trapdoor() == k.trapdoor(),
    ensures
        encode_block(c.modulus(), c.trapdoor(), shard_idx, block_idx, s)
            == encode_block(k.modulus(), k.trapdoor(), shard_idx, block_idx, s),
        decode_block(c.modulus(), shard_idx, block_idx, s) == decode_block(k.modulus(), shard_idx, block_idx, s),
{
}

/// A cloned decoding key decodes as its origin does.
pub proof fn lemma_clone_decodes_alike(k: DecodingKey, c: DecodingKey, shard_idx: u16, block_idx: u32, s: (nat, nat))
    requires
        c.modulus() == k.modulus(),
    ensures
        decode_block(c.modulus(), shard_idx, block_idx, s) == decode_block(k.modulus(), shard_idx, block_idx, s),
{
}


/// A generated modulus is at least `256^BLOCK_HALF_SIZE`, so every block
/// half lies below it.
pub proof fn lemma_generated_modulus_bound(n: nat, d: nat, p: nat, q: nat)
    requires
        generated_from(n, d, p, q),
    ensures
        pow(256, BLOCK_HALF_SIZE as nat) <= n,
{
    lemma_layout();
    let b = pow(2, 1024);
    assert(pow(2, 8) == 256) by {
        reveal_with_fuel(pow, 9);
    }
    lemma_pow_multiplies(2, 8, 256);
    lemma_pow_adds(2, 1024, 1024);
    assert(PRIME_SIZE - 1 == 1024);
    lemma_pow_positive(2, 1024);
    assert(b <= p && b <= q);
    assert(b * b <= p * q) by (nonlinear_arith)
        requires
            b <= p,
            b <= q,
            0 <= b,
    {
    }
}

/// Decoding undoes encoding on a whole packed shard: for a trapdoor pair whose
/// modulus is at least `256^BLOCK_HALF_SIZE`, decoding each encoded block gives
/// the packed block back, and the decoded blocks unpack to the shard's bytes.
pub proof fn lemma_shard_round_trip(n: nat, d: nat, idx: u16, bytes: Seq<u8>)
    requires
        is_trapdoor(n, d),
        pow(256, BLOCK_HALF_SIZE as nat) <= n,
        bytes.len() == SHARD_SIZE,
        forall|i: int| 0 <= i < SHARD_BLOCKS ==> encode_block(n, d, idx, i as u32, #[trigger] pack_spec(bytes)[i]) is Some,
    ensures
        forall|i: int| 0 <= i < SHARD_BLOCKS ==> decode_block(n, idx, i as u32,
            encode_block(n, d, idx, i as u32, #[trigger] pack_spec(bytes)[i]).unwrap()) == pack_spec(bytes)[i],
        unpack_spec(Seq::new(SHARD_BLOCKS as nat, |i: int| decode_block(n, idx, i as u32,
            encode_block(n, d, idx, i as u32, pack_spec(bytes)[i]).unwrap()))) == bytes,
{
    lemma_layout();
    lemma_pack_unpack(bytes);
    assert forall|i: int| 0 <= i < SHARD_BLOCKS implies decode_block(n, idx, i as u32,
        encode_block(n, d, idx, i as u32, #[trigger] pack_spec(bytes)[i]).unwrap()) == pack_spec(bytes)[i] by {
        assert forall|h: int| 0 <= h < 2 implies #[trigger] half_of(bytes, i, h) < n by {
            let lo = i * BLOCK_SIZE + h * BLOCK_HALF_SIZE;
            assert(0 <= lo && lo + BLOCK_HALF_SIZE <= SHARD_SIZE) by (nonlinear_arith)
                requires
                    0 <= i < 2,
                    0 <= h < 2,
                    lo == i * 512 + h * 256,
                    BLOCK_HALF_SIZE == 256,
                    SHARD_SIZE == 1024,
            ;
            lemma_be_value_bound(bytes.subrange(lo, lo + BLOCK_HALF_SIZE));
        }
        assert(half_of(bytes, i, 0) < n && half_of(bytes, i, 1) < n);
        lemma_block_round_trip(n, d, idx, i as u32, pack_spec(bytes)[i]);
    }
    let dec = Seq::new(SHARD_BLOCKS as nat, |i: int| decode_block(n, idx, i as u32,
        encode_block(n, d, idx, i as u32, pack_spec(bytes)[i]).unwrap()));
    assert(dec =~= pack_spec(bytes));
}


/// Serialized encoding-key bytes read back as the modulus and the trapdoor
/// they were written from: for a modulus of fewer than 65536 bytes and a
/// nonzero trapdoor.
pub proof fn lemma_key_bytes_round_trip(n: nat, d: nat)
    requires
        be_min(n).len() < 65536,
        d > 0,
        be_min(d).len() <= MAX_BIGNUM_BYTES,
    ensures
        ({
            let b = encoding_key_bytes(n, d);
            &&& encoding_key_readable(b)
            &&& key_prefix(b) == be_min(n).len()
            &&& be_value(b.subrange(2, 2 + key_prefix(b) as int)) == n
            &&& be_value(b.subrange(2 + key_prefix(b) as int, b.len() as int)) == d
        }),
{
    let b = encoding_key_bytes(n, d);
    let len = be_min(n).len();
    assert(((len % 65536) / 256) as u8 as nat == len / 256);
    assert((len % 256) as u8 as nat == len % 256);
    assert(key_prefix(b) == len);
    assert(be_min(d).len() > 0);
    assert(b.subrange(2, 2 + len as int) =~= be_min(n));
    assert(b.subrange(2 + len as int, b.len() as int) =~= be_min(d));
    lemma_be_value_min(n);
    lemma_be_value_min(d);
}

} // verus!
