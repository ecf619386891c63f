//! Non-negative big integers held as canonical big-endian bytes, with the
//! arithmetic done by OpenSSL's `BigNum`.
use openssl::bn::{BigNum, BigNumContext};
use crate::Error;
use openssl::error::ErrorStack;
use vstd::arithmetic::div_mod::*;
use vstd::arithmetic::mul::*;
use vstd::arithmetic::power::pow;
use vstd::prelude::*;

verus! {

#[verifier::external_type_specification]
#[verifier::external_body]
pub struct ExBigNumContext(BigNumContext);

#[verifier::external_type_specification]
#[verifier::external_body]
pub struct ExErrorStack(ErrorStack);

/// Largest byte length OpenSSL accepts when reading a big-endian integer.
pub const MAX_BIGNUM_BYTES: usize = 0x7fff_ffff;

/// The integer that the big-endian bytes `s` denote.
pub open spec fn be_value(s: Seq<u8>) -> nat
    decreases s.len(),
{
    if s.len() == 0 {
        0
    } else {
        be_value(s.drop_last()) * 256 + s.last() as nat
    }
}

/// The minimal big-endian bytes of `v`: no leading zero byte, empty for zero.
pub open spec fn be_min(v: nat) -> Seq<u8>
    decreases v,
{
    if v == 0 {
        Seq::empty()
    } else {
        be_min(v / 256).push((v % 256) as u8)
    }
}

/// `k` zero bytes.
pub open spec fn zeros(k: nat) -> Seq<u8> {
    Seq::new(k, |i: int| 0u8)
}

/// `s` padded on the left with zero bytes to `width` bytes.
pub open spec fn pad_left(s: Seq<u8>, width: nat) -> Seq<u8> {
    zeros((width - s.len()) as nat) + s
}

pub proof fn lemma_be_value_push(s: Seq<u8>, b: u8)
    ensures
        be_value(s.push(b)) == be_value(s) * 256 + b as nat,
{
    assert(s.push(b).drop_last() =~= s);
}

pub proof fn lemma_be_value_min(v: nat)
    ensures
        be_value(be_min(v)) == v,
    decreases v,
{
    if v > 0 {
        lemma_be_value_min(v / 256);
        lemma_be_value_push(be_min(v / 256), (v % 256) as u8);
        lemma_fundamental_div_mod(v as int, 256);
    }
}

/// Minimal bytes never get longer as the value gets smaller.
pub proof fn lemma_be_min_len_mono(a: nat, b: nat)
    requires
        a <= b,
    ensures
        be_min(a).len() <= be_min(b).len(),
    decreases b,
{
    if a > 0 {
        lemma_div_is_ordered(a as int, b as int, 256);
        lemma_be_min_len_mono(a / 256, b / 256);
    }
}

/// Reading fixed-width bytes and writing the value back at that width
/// gives the same bytes.
pub proof fn lemma_pad_min_value(s: Seq<u8>)
    ensures
        be_min(be_value(s)).len() <= s.len(),
        pad_left(be_min(be_value(s)), s.len()) == s,
    decreases s.len(),
{
    if s.len() > 0 {
        let t = s.drop_last();
        let b = s.last();
        lemma_pad_min_value(t);
        assert(s =~= t.push(b));
        lemma_be_value_push(t, b);
        let v = be_value(s);
        let vt = be_value(t);
        lemma_fundamental_div_mod(v as int, 256);
        assert(v / 256 == vt && v % 256 == b) by {
            lemma_div_multiples_vanish_fancy(vt as int, b as int, 256);
            lemma_mod_multiples_vanish(vt as int, b as int, 256);
            lemma_small_mod(b as nat, 256);
        }
        let k = (t.len() - be_min(vt).len()) as nat;
        if v == 0 {
            assert(vt == 0 && b == 0);
            assert(pad_left(be_min(v), s.len()) =~= s);
        } else {
            assert(be_min(v) == be_min(vt).push(b));
            assert(pad_left(be_min(v), s.len()) =~= pad_left(be_min(vt), t.len()).push(b));
        }
    }
}

/// `k` big-endian bytes hold a value below `256^k`.
pub proof fn lemma_be_value_bound(s: Seq<u8>)
    ensures
        be_value(s) < pow(256, s.len()),
    decreases s.len(),
{
    reveal(pow);
    if s.len() > 0 {
        let t = s.drop_last();
        lemma_be_value_bound(t);
        let v = be_value(t);
        let p = pow(256, t.len());
        assert(v * 256 + s.last() < 256 * p) by (nonlinear_arith)
            requires
                v < p,
                s.last() < 256,
        ;
    }
}

/// The minimal bytes of a nonzero value start with a nonzero byte.
pub proof fn lemma_be_min_first(v: nat)
    ensures
        v > 0 ==> be_min(v).len() > 0 && be_min(v)[0] != 0,
    decreases v,
{
    if v > 0 {
        lemma_be_min_first(v / 256);
        if v / 256 == 0 {
            assert(be_min(v / 256).len() == 0);
            lemma_small_mod(v, 256);
        }
    }
}

/// Two or more minimal bytes mean a value of at least 256.
pub proof fn lemma_be_min_two_bytes(v: nat)
    requires
        be_min(v).len() >= 2,
    ensures
        v >= 256,
{
    if v / 256 == 0 {
        assert(be_min(v / 256).len() == 0);
    }
}

/// A non-negative integer, held as its minimal big-endian bytes.
pub struct BigNat {
    pub(crate) bytes: Vec<u8>,
}

impl View for BigNat {
    type V = nat;

    closed spec fn view(&self) -> nat {
        be_value(self.bytes@)
    }
}

impl BigNat {
    /// The bytes are the minimal big-endian form of the value, short
    /// enough for OpenSSL to read back.
    pub closed spec fn wf(&self) -> bool {
        &&& self.bytes@ == be_min(self@)
        &&& self.bytes@.len() <= MAX_BIGNUM_BYTES
    }

    /// Zero.
    pub fn zero() -> (r: BigNat)
        ensures
            r.wf(),
            r@ == 0,
    {
        BigNat { bytes: Vec::new() }
    }

    /// The minimal big-endian bytes of the value.
    pub fn as_bytes(&self) -> (r: &Vec<u8>)
        requires
            self.wf(),
        ensures
            r@ == be_min(self@),
            r@.len() <= MAX_BIGNUM_BYTES,
    {
        &self.bytes
    }

    /// Number of bytes in the minimal big-endian form.
    pub fn num_bytes(&self) -> (r: usize)
        requires
            self.wf(),
        ensures
            r == be_min(self@).len(),
            r <= MAX_BIGNUM_BYTES,
    {
        self.bytes.len()
    }

    /// A copy of this integer.
    pub fn copy(&self) -> (r: BigNat)
        ensures
            r@ == self@,
            self.wf() ==> r.wf(),
    {
        let mut bytes: Vec<u8> = Vec::with_capacity(self.bytes.len());
        let mut i: usize = 0;
        while i < self.bytes.len()
            invariant
                i <= self.bytes.len(),
                bytes@ == self.bytes@.subrange(0, i as int),
            decreases self.bytes.len() - i,
        {
            bytes.push(self.bytes[i]);
            i += 1;
            assert(bytes@ =~= self.bytes@.subrange(0, i as int));
        }
        assert(bytes@ =~= self.bytes@);
        BigNat { bytes }
    }

    /// The value of big-endian `b`: its bytes with leading zero bytes removed.
    pub fn from_be_bytes(b: &[u8]) -> (r: BigNat)
        requires
            b@.len() <= MAX_BIGNUM_BYTES,
        ensures
            r.wf(),
            r@ == be_value(b@),
    {
        let ghost m = be_min(be_value(b@));
        let ghost k = (b@.len() - m.len()) as int;
        proof {
            lemma_pad_min_value(b@);
            lemma_be_value_min(be_value(b@));
            lemma_be_min_first(be_value(b@));
            assert(b@ == zeros(k as nat) + m);
            assert forall|j: int| 0 <= j < k implies b@[j] == 0 by {
                assert(b@[j] == (zeros(k as nat) + m)[j]);
            }
            if m.len() > 0 {
                assert(b@[k] == m[0]);
            }
        }
        let mut start: usize = 0;
        while start < b.len() && b[start] == 0
            invariant
                start <= k,
                k + m.len() == b@.len(),
                m.len() > 0 ==> b@[k] != 0,
                forall|j: int| 0 <= j < k ==> b@[j] == 0,
            decreases b@.len() - start,
        {
            start += 1;
        }
        let mut bytes: Vec<u8> = Vec::with_capacity(b.len() - start);
        let mut i: usize = start;
        while i < b.len()
            invariant
                start <= i <= b@.len(),
                bytes@ == b@.subrange(start as int, i as int),
            decreases b@.len() - i,
        {
            bytes.push(b[i]);
            i += 1;
            assert(bytes@ =~= b@.subrange(start as int, i as int));
        }
        proof {
            assert(start == k);
            assert(bytes@ =~= m);
        }
        BigNat { bytes }
    }

    /// The value modulo 3.
    pub fn mod_three(&self) -> (r: u32)
        requires
            self.wf(),
        ensures
            r == self@ % 3,
    {
        let mut r: u32 = 0;
        let mut i: usize = 0;
        while i < self.bytes.len()
            invariant
                i <= self.bytes@.len(),
                r == be_value(self.bytes@.take(i as int)) % 3,
            decreases self.bytes@.len() - i,
        {
            let byte = self.bytes[i];
            proof {
                let t = self.bytes@.take(i as int);
                assert(self.bytes@.take(i + 1) =~= t.push(byte));
                lemma_be_value_push(t, byte);
                let v = be_value(t);
                lemma_mul_mod_noop_left(v as int, 256, 3);
                lemma_add_mod_noop((v * 256) as int, byte as int, 3);
                lemma_add_mod_noop(((v % 3) * 256) as int, byte as int, 3);
                lemma_mul_mod_noop_left((v % 3) as int, 256, 3);
                lemma_mod_twice((v * 256) as int, 3);
            }
            r = (r * 256 + byte as u32) % 3;
            i += 1;
        }
        proof {
            assert(self.bytes@.take(self.bytes@.len() as int) =~= self.bytes@);
        }
        r
    }

    /// Whether the value exceeds one.
    pub fn gt_one(&self) -> (r: bool)
        requires
            self.wf(),
        ensures
            r == (self@ > 1),
    {
        proof {
            lemma_be_value_min(self@);
        }
        if self.bytes.len() == 0 {
            false
        } else if self.bytes.len() == 1 {
            proof {
                assert(self.bytes@.drop_last() =~= Seq::<u8>::empty());
                assert(be_value(Seq::<u8>::empty()) == 0);
                assert(self@ == be_value(self.bytes@.drop_last()) * 256 + self.bytes@.last() as nat);
                assert(self@ == self.bytes@[0]);
            }
            self.bytes[0] > 1
        } else {
            proof {
                lemma_be_min_two_bytes(self@);
            }
            true
        }
    }

    /// Wraps bytes that OpenSSL produced for a value below `bound`.
    proof fn lemma_below(&self, bound: &BigNat)
        requires
            self.bytes@ == be_min(self@),
            bound.wf(),
            self@ < bound@,
        ensures
            self.wf(),
    {
        lemma_be_min_len_mono(self@, bound@);
    }
}

/// Relies on `BigNumContext::new`: a fresh scratch context for OpenSSL.
#[verifier::external_body]
pub(crate) fn new_context() -> (r: Result<BigNumContext, ErrorStack>) {
    BigNumContext::new()
}

/// Relies on `BigNumRef::nnmod` (BN_nnmod): the non-negative remainder of
/// big-endian `a` modulo `m`.
#[verifier::external_body]
fn nnmod_raw(a: &[u8], m: &BigNat, ctx: &mut BigNumContext) -> (r: Result<BigNat, ErrorStack>)
    requires
        a@.len() <= MAX_BIGNUM_BYTES,
        m.wf(),
        m@ > 0,
    ensures
        r matches Ok(v) ==> v.bytes@ == be_min(v@) && v@ == be_value(a@) % m@,
{
    let (a, m) = (BigNum::from_slice(a)?, BigNum::from_slice(&m.bytes)?);
    let mut r = BigNum::new()?;
    r.nnmod(&a, &m, ctx)?;
    Ok(BigNat { bytes: r.to_vec() })
}

/// Relies on `BigNumRef::mod_mul` (BN_mod_mul): `a * b mod m`, non-negative.
#[verifier::external_body]
fn mod_mul_raw(a: &BigNat, b: &BigNat, m: &BigNat, ctx: &mut BigNumContext) -> (r: Result<BigNat, ErrorStack>)
    requires
        a.wf(),
        b.wf(),
        m.wf(),
        m@ > 0,
    ensures
        r matches Ok(v) ==> v.bytes@ == be_min(v@) && v@ == (a@ * b@) % m@,
{
    let (a, b) = (BigNum::from_slice(&a.bytes)?, BigNum::from_slice(&b.bytes)?);
    let m = BigNum::from_slice(&m.bytes)?;
    let mut r = BigNum::new()?;
    r.mod_mul(&a, &b, &m, ctx)?;
    Ok(BigNat { bytes: r.to_vec() })
}

/// Relies on `BigNumRef::mod_sqr` (BN_mod_sqr): `a * a mod m`, non-negative.
#[verifier::external_body]
fn mod_sqr_raw(a: &BigNat, m: &BigNat, ctx: &mut BigNumContext) -> (r: Result<BigNat, ErrorStack>)
    requires
        a.wf(),
        m.wf(),
        m@ > 0,
    ensures
        r matches Ok(v) ==> v.bytes@ == be_min(v@) && v@ == (a@ * a@) % m@,
{
    let (a, m) = (BigNum::from_slice(&a.bytes)?, BigNum::from_slice(&m.bytes)?);
    let mut r = BigNum::new()?;
    r.mod_sqr(&a, &m, ctx)?;
    Ok(BigNat { bytes: r.to_vec() })
}

/// Relies on `BigNumRef::mod_exp` (BN_mod_exp): `a ^ p mod m`, non-negative.
#[verifier::external_body]
fn mod_exp_raw(a: &BigNat, p: &BigNat, m: &BigNat, ctx: &mut BigNumContext) -> (r: Result<BigNat, ErrorStack>)
    requires
        a.wf(),
        p.wf(),
        m.wf(),
        m@ > 0,
    ensures
        r matches Ok(v) ==> v.bytes@ == be_min(v@) && v@ == pow(a@ as int, p@) % (m@ as int),
{
    let (a, p) = (BigNum::from_slice(&a.bytes)?, BigNum::from_slice(&p.bytes)?);
    let m = BigNum::from_slice(&m.bytes)?;
    let mut r = BigNum::new()?;
    r.mod_exp(&a, &p, &m, ctx)?;
    Ok(BigNat { bytes: r.to_vec() })
}

/// Relies on `BigNumRef::mod_inverse` (BN_mod_inverse): `r` with
/// `a * r == 1 (mod m)`, reduced below `m`; an error where none exists.
#[verifier::external_body]
fn mod_inverse_raw(a: &BigNat, m: &BigNat, ctx: &mut BigNumContext) -> (r: Result<BigNat, ErrorStack>)
    requires
        a.wf(),
        m.wf(),
        m@ > 1,
    ensures
        r matches Ok(v) ==> v.bytes@ == be_min(v@) && v@ < m@ && (a@ * v@) % m@ == 1,
{
    let (a, m) = (BigNum::from_slice(&a.bytes)?, BigNum::from_slice(&m.bytes)?);
    let mut r = BigNum::new()?;
    r.mod_inverse(&a, &m, ctx)?;
    Ok(BigNat { bytes: r.to_vec() })
}

/// Relies on `BigNumRef::checked_mul` (BN_mul): the product `a * b`.
#[verifier::external_body]
fn mul_raw(a: &BigNat, b: &BigNat, ctx: &mut BigNumContext) -> (r: Result<BigNat, ErrorStack>)
    requires
        a.wf(),
        b.wf(),
    ensures
        r matches Ok(v) ==> v.bytes@ == be_min(v@) && v@ == a@ * b@,
{
    let (a, b) = (BigNum::from_slice(&a.bytes)?, BigNum::from_slice(&b.bytes)?);
    let mut r = BigNum::new()?;
    r.checked_mul(&a, &b, ctx)?;
    Ok(BigNat { bytes: r.to_vec() })
}

/// Relies on `BigNumRef::sub_word` (BN_sub_word): `a - w` for `a >= w`.
#[verifier::external_body]
fn sub_word_raw(a: &BigNat, w: u32) -> (r: Result<BigNat, ErrorStack>)
    requires
        a.wf(),
        a@ >= w,
    ensures
        r matches Ok(v) ==> v.bytes@ == be_min(v@) && v@ == a@ - w,
{
    let mut a = BigNum::from_slice(&a.bytes)?;
    a.sub_word(w)?;
    Ok(BigNat { bytes: a.to_vec() })
}

/// Relies on `BigNumRef::generate_prime` (BN_generate_prime_ex): a prime of
/// at least `bits` bits, so no smaller than `2^(bits - 1)`.
#[verifier::external_body]
fn generate_prime_raw(bits: u32) -> (r: Result<BigNat, ErrorStack>)
    requires
        1 <= bits <= 0x7fff_ffff,
    ensures
        r matches Ok(v) ==> v.bytes@ == be_min(v@) && v@ >= pow(2, (bits - 1) as nat),
{
    let mut p = BigNum::new()?;
    p.generate_prime(bits as i32, false, None, None)?;
    Ok(BigNat { bytes: p.to_vec() })
}

/// `be_value(a) mod m`.
pub fn nnmod(a: &[u8], m: &BigNat, ctx: &mut BigNumContext) -> (r: Result<BigNat, Error>)
    requires
        a@.len() <= MAX_BIGNUM_BYTES,
        m.wf(),
        m@ > 0,
    ensures
        r matches Ok(v) ==> v.wf() && v@ == be_value(a@) % m@,
        r matches Err(e) ==> e == Error::Arithmetic,
{
    let v = match nnmod_raw(a, m, ctx) {
        Ok(v) => v,
        Err(_) => return Err(Error::Arithmetic),
    };
    proof {
        lemma_mod_bound(be_value(a@) as int, m@ as int);
        v.lemma_below(m);
    }
    Ok(v)
}

/// `a * b mod m`.
pub fn mod_mul(a: &BigNat, b: &BigNat, m: &BigNat, ctx: &mut BigNumContext) -> (r: Result<BigNat, Error>)
    requires
        a.wf(),
        b.wf(),
        m.wf(),
        m@ > 0,
    ensures
        r matches Ok(v) ==> v.wf() && v@ == (a@ * b@) % m@,
        r matches Err(e) ==> e == Error::Arithmetic,
{
    let v = match mod_mul_raw(a, b, m, ctx) {
        Ok(v) => v,
        Err(_) => return Err(Error::Arithmetic),
    };
    proof {
        lemma_mod_bound((a@ * b@) as int, m@ as int);
        v.lemma_below(m);
    }
    Ok(v)
}

/// `a * a mod m`.
pub fn mod_sqr(a: &BigNat, m: &BigNat, ctx: &mut BigNumContext) -> (r: Result<BigNat, Error>)
    requires
        a.wf(),
        m.wf(),
        m@ > 0,
    ensures
        r matches Ok(v) ==> v.wf() && v@ == (a@ * a@) % m@,
        r matches Err(e) ==> e == Error::Arithmetic,
{
    let v = match mod_sqr_raw(a, m, ctx) {
        Ok(v) => v,
        Err(_) => return Err(Error::Arithmetic),
    };
    proof {
        lemma_mod_bound((a@ * a@) as int, m@ as int);
        v.lemma_below(m);
    }
    Ok(v)
}

/// `a ^ p mod m`.
pub fn mod_exp(a: &BigNat, p: &BigNat, m: &BigNat, ctx: &mut BigNumContext) -> (r: Result<BigNat, Error>)
    requires
        a.wf(),
        p.wf(),
        m.wf(),
        m@ > 0,
    ensures
        r matches Ok(v) ==> v.wf() && v@ == pow(a@ as int, p@) % (m@ as int),
        r matches Err(e) ==> e == Error::Arithmetic,
{
    let v = match mod_exp_raw(a, p, m, ctx) {
        Ok(v) => v,
        Err(_) => return Err(Error::Arithmetic),
    };
    proof {
        lemma_mod_bound(pow(a@ as int, p@), m@ as int);
        v.lemma_below(m);
    }
    Ok(v)
}

/// The inverse of `a` modulo `m`; an error where it has none.
pub fn mod_inverse(a: &BigNat, m: &BigNat, ctx: &mut BigNumContext) -> (r: Result<BigNat, Error>)
    requires
        a.wf(),
        m.wf(),
        m@ > 1,
    ensures
        r matches Ok(v) ==> v.wf() && v@ < m@ && (a@ * v@) % m@ == 1,
        r matches Err(e) ==> e == Error::Arithmetic,
{
    let v = match mod_inverse_raw(a, m, ctx) {
        Ok(v) => v,
        Err(_) => return Err(Error::Arithmetic),
    };
    proof {
        v.lemma_below(m);
    }
    Ok(v)
}

/// `a - w`.
pub fn sub_word(a: &BigNat, w: u32) -> (r: Result<BigNat, Error>)
    requires
        a.wf(),
        a@ >= w,
    ensures
        r matches Ok(v) ==> v.wf() && v@ == a@ - w,
        r matches Err(e) ==> e == Error::Arithmetic,
{
    let v = match sub_word_raw(a, w) {
        Ok(v) => v,
        Err(_) => return Err(Error::Arithmetic),
    };
    proof {
        lemma_be_min_len_mono(v@, a@);
    }
    Ok(v)
}

/// The product `a * b`, or `None` where OpenSSL could not read it back.
pub fn product(a: &BigNat, b: &BigNat, ctx: &mut BigNumContext) -> (r: Result<Option<BigNat>, Error>)
    requires
        a.wf(),
        b.wf(),
    ensures
        r matches Ok(Some(v)) ==> v.wf() && v@ == a@ * b@,
        r matches Err(e) ==> e == Error::Arithmetic,
{
    let v = match mul_raw(a, b, ctx) {
        Ok(v) => v,
        Err(_) => return Err(Error::Arithmetic),
    };
    if v.bytes.len() <= MAX_BIGNUM_BYTES {
        Ok(Some(v))
    } else {
        Ok(None)
    }
}

/// A random prime of at least `bits` bits, or `None` where OpenSSL could not
/// read it back.
pub fn generate_prime(bits: u32) -> (r: Result<Option<BigNat>, Error>)
    requires
        1 <= bits <= 0x7fff_ffff,
    ensures
        r matches Ok(Some(v)) ==> v.wf() && v@ >= pow(2, (bits - 1) as nat),
        r matches Err(e) ==> e == Error::Arithmetic,
{
    let v = match generate_prime_raw(bits) {
        Ok(v) => v,
        Err(_) => return Err(Error::Arithmetic),
    };
    if v.bytes.len() <= MAX_BIGNUM_BYTES {
        Ok(Some(v))
    } else {
        Ok(None)
    }
}

} // verus!
