//! The keyed stream expander: SHA-256 of the input keys AES-256-CTR.
use crate::bignum::{zeros, MAX_BIGNUM_BYTES};
use crate::Error;
use openssl::error::ErrorStack;
use openssl::sha::sha256;
use openssl::symm::{encrypt, Cipher};
use vstd::prelude::*;

verus! {

/// The SHA-256 digest of `data`.
pub uninterp spec fn sha256_of(data: Seq<u8>) -> Seq<u8>;

/// AES-256 in counter mode under `key` from counter block `iv`, applied to `data`.
pub uninterp spec fn aes256_ctr_of(key: Seq<u8>, iv: Seq<u8>, data: Seq<u8>) -> Seq<u8>;

/// The `size` bytes that `expand` derives from `tweak` and `value`: the
/// AES-256-CTR keystream under the key `SHA-256(tweak ++ value)`, from a zero IV.
pub open spec fn expand_spec(tweak: Seq<u8>, value: Seq<u8>, size: nat) -> Seq<u8> {
    aes256_ctr_of(sha256_of(tweak + value), zeros(16), zeros(size))
}

/// Relies on `openssl::sha::sha256`: the 32-byte SHA-256 digest of `data`.
#[verifier::external_body]
fn digest(data: &[u8]) -> (r: [u8; 32])
    ensures
        r@ == sha256_of(data@),
{
    sha256(data)
}

/// Relies on `openssl::symm::encrypt` with `Cipher::aes_256_ctr`: counter mode
/// is a stream, so the output is exactly as long as `data`.
#[verifier::external_body]
fn aes256_ctr(key: &[u8], iv: &[u8], data: &[u8]) -> (r: Result<Vec<u8>, ErrorStack>)
    requires
        key@.len() == 32,
        iv@.len() == 16,
        data@.len() <= MAX_BIGNUM_BYTES,
    ensures
        r matches Ok(v) ==> v@ == aes256_ctr_of(key@, iv@, data@) && v@.len() == data@.len(),
{
    encrypt(Cipher::aes_256_ctr(), key, Some(iv), data)
}

/// `n` zero bytes.
pub fn zero_bytes(n: usize) -> (r: Vec<u8>)
    ensures
        r@ == zeros(n as nat),
{
    let mut v: Vec<u8> = Vec::with_capacity(n);
    let mut i: usize = 0;
    while i < n
        invariant
            i <= n,
            v@ == zeros(i as nat),
        decreases n - i,
    {
        v.push(0u8);
        i += 1;
        assert(v@ =~= zeros(i as nat));
    }
    v
}

/// `a ++ b`.
pub fn concat(a: &[u8], b: &[u8]) -> (r: Vec<u8>)
    requires
        a@.len() + b@.len() <= usize::MAX,
    ensures
        r@ == a@ + b@,
{
    let mut v: Vec<u8> = Vec::with_capacity(a.len() + b.len());
    let mut i: usize = 0;
    while i < a.len()
        invariant
            i <= a@.len(),
            v@ == a@.subrange(0, i as int),
        decreases a@.len() - i,
    {
        v.push(a[i]);
        i += 1;
        assert(v@ =~= a@.subrange(0, i as int));
    }
    let mut j: usize = 0;
    while j < b.len()
        invariant
            j <= b@.len(),
            v@ == a@ + b@.subrange(0, j as int),
        decreases b@.len() - j,
    {
        v.push(b[j]);
        j += 1;
        assert(v@ =~= a@ + b@.subrange(0, j as int));
    }
    assert(b@.subrange(0, b@.len() as int) =~= b@);
    v
}

/// Stretches `tweak` and `value` into `size` pseudorandom bytes.
pub fn expand(tweak: &[u8], value: &[u8], size: usize) -> (r: Result<Vec<u8>, Error>)
    requires
        tweak@.len() + value@.len() <= usize::MAX,
        size <= MAX_BIGNUM_BYTES,
    ensures
        r matches Ok(v) ==> v@ == expand_spec(tweak@, value@, size as nat) && v@.len() == size,
        r matches Err(e) ==> e == Error::Arithmetic,
{
    let input = concat(tweak, value);
    let key = digest(input.as_slice());
    let zero = zero_bytes(size);
    let iv = zero_bytes(16);
    match aes256_ctr(key.as_slice(), iv.as_slice(), zero.as_slice()) {
        Ok(v) => Ok(v),
        Err(_) => Err(Error::Arithmetic),
    }
}

/// Appends `b` to `v`.
pub fn append_bytes(v: &mut Vec<u8>, b: &Vec<u8>)
    ensures
        final(v)@ == old(v)@ + b@,
{
    let mut i: usize = 0;
    while i < b.len()
        invariant
            i <= b@.len(),
            v@ == old(v)@ + b@.subrange(0, i as int),
        decreases b@.len() - i,
    {
        v.push(b[i]);
        i += 1;
        assert(v@ =~= old(v)@ + b@.subrange(0, i as int));
    }
    assert(b@.subrange(0, b@.len() as int) =~= b@);
}

/// `b[lo..hi]` as a vector.
pub fn slice_bytes(b: &[u8], lo: usize, hi: usize) -> (r: Vec<u8>)
    requires
        lo <= hi <= b@.len(),
    ensures
        r@ == b@.subrange(lo as int, hi as int),
{
    let mut r: Vec<u8> = Vec::with_capacity(hi - lo);
    let mut i: usize = lo;
    while i < hi
        invariant
            lo <= i <= hi,
            hi <= b@.len(),
            r@ == b@.subrange(lo as int, i as int),
        decreases hi - i,
    {
        r.push(b[i]);
        i += 1;
        assert(r@ =~= b@.subrange(lo as int, i as int));
    }
    r
}

} // verus!
