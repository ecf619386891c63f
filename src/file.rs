//! The file layout: zero padding to whole shards, the file-level Feistel
//! network (full-domain hashing) and the split into shards.
use crate::bignum::{zeros, MAX_BIGNUM_BYTES};
use crate::misc::{expand, expand_spec, slice_bytes};
use crate::{shard_count, shards_bytes, Error, File, Shard, SHARD_SIZE};
use vstd::prelude::*;

verus! {

/// Rounds of the file-level Feistel network.
pub const FDH_ROUNDS: usize = 3;

/// Most shards a file may have.
pub const MAX_SHARDS: usize = 0x10000;

/// `a` with each byte XORed with the byte of `p` at the same place.
pub open spec fn xor_bytes(a: Seq<u8>, p: Seq<u8>) -> Seq<u8> {
    Seq::new(a.len(), |i: int| a[i] ^ p[i])
}

/// The one-byte tweak of round `r`: the round counter, counted down in reverse.
pub open spec fn fdh_round_byte(rounds: nat, r: nat, reverse: bool) -> u8 {
    ((if reverse { rounds - r - 1 } else { r as int }) % 256) as u8
}

/// The halves after the first `k` rounds: round `r` XORs the right half with
/// the expansion of the left half, then swaps the halves, except in the last round.
pub open spec fn fdh_state(l: Seq<u8>, r: Seq<u8>, rounds: nat, reverse: bool, k: nat) -> (Seq<u8>, Seq<u8>)
    decreases k,
{
    if k == 0 {
        (l, r)
    } else {
        let prev = fdh_state(l, r, rounds, reverse, (k - 1) as nat);
        let tweak = seq![fdh_round_byte(rounds, (k - 1) as nat, reverse)];
        let right = xor_bytes(prev.1, expand_spec(tweak, prev.0, prev.1.len()));
        if k < rounds {
            (right, prev.0)
        } else {
            (prev.0, right)
        }
    }
}

/// The file-level Feistel network on `data`, split at `len / 2`.
pub open spec fn fdh_spec(data: Seq<u8>, rounds: nat, reverse: bool) -> Seq<u8> {
    let h = data.len() / 2;
    let st = fdh_state(data.take(h as int), data.skip(h as int), rounds, reverse, rounds);
    st.0 + st.1
}

/// `data` with zero bytes appended up to a whole number of shards.
pub open spec fn padded(data: Seq<u8>) -> Seq<u8> {
    data + zeros((shard_count(data.len()) * SHARD_SIZE - data.len()) as nat)
}

proof fn lemma_xor_twice(a: Seq<u8>, p: Seq<u8>)
    ensures
        xor_bytes(xor_bytes(a, p), p) == a,
{
    assert forall|i: int| 0 <= i < a.len() implies #[trigger] xor_bytes(xor_bytes(a, p), p)[i] == a[i] by {
        let x = a[i];
        let y = p[i];
        assert((x ^ y) ^ y == x) by (bit_vector);
    }
    assert(xor_bytes(xor_bytes(a, p), p) =~= a);
}

proof fn lemma_fdh_len(l: Seq<u8>, r: Seq<u8>, rounds: nat, reverse: bool, k: nat)
    requires
        l.len() == r.len(),
    ensures
        fdh_state(l, r, rounds, reverse, k).0.len() == l.len(),
        fdh_state(l, r, rounds, reverse, k).1.len() == l.len(),
    decreases k,
{
    if k > 0 {
        lemma_fdh_len(l, r, rounds, reverse, (k - 1) as nat);
    }
}

/// The network keeps the length of an even-length buffer.
pub proof fn lemma_fdh_spec_len(data: Seq<u8>, rounds: nat, reverse: bool)
    requires
        data.len() % 2 == 0,
    ensures
        fdh_spec(data, rounds, reverse).len() == data.len(),
{
    let h = data.len() / 2;
    lemma_fdh_len(data.take(h as int), data.skip(h as int), rounds, reverse, rounds);
}

/// The shard count of a length, spelled out, and the room it gives.
pub proof fn lemma_shard_count(len: nat)
    ensures
        shard_count(len) == len / SHARD_SIZE as nat + (if len % SHARD_SIZE as nat != 0 { 1nat } else { 0nat }),
        shard_count(len) * SHARD_SIZE >= len,
        shard_count(len) * SHARD_SIZE < len + SHARD_SIZE,
        (shard_count(len) * SHARD_SIZE) % 2 == 0,
{
    assert(shard_count(len) == len / 1024 + (if len % 1024 != 0 { 1nat } else { 0nat })) by (nonlinear_arith);
    assert(shard_count(len) * 1024 >= len) by (nonlinear_arith)
        requires
            shard_count(len) == len / 1024 + (if len % 1024 != 0 { 1nat } else { 0nat }),
    ;
    assert(shard_count(len) * 1024 < len + 1024) by (nonlinear_arith)
        requires
            shard_count(len) == len / 1024 + (if len % 1024 != 0 { 1nat } else { 0nat }),
    ;
    assert((shard_count(len) * 1024) % 2 == 0) by (nonlinear_arith);
}

/// The last `m` rounds in one direction undo the last `m` rounds in the
/// other: before the `m`-th the halves stand exchanged, after it in place.
proof fn lemma_fdh_undo(l: Seq<u8>, r: Seq<u8>, rounds: nat, first: bool, m: nat)
    requires
        l.len() == r.len(),
        1 <= m <= rounds,
    ensures
        ({
            let t = fdh_state(l, r, rounds, first, rounds);
            let back = fdh_state(t.0, t.1, rounds, !first, m);
            let x = fdh_state(l, r, rounds, first, (rounds - m) as nat);
            &&& m < rounds ==> back == (x.1, x.0)
            &&& m == rounds ==> back == (l, r)
        }),
    decreases m,
{
    let t = fdh_state(l, r, rounds, first, rounds);
    let j = (rounds - m) as nat;
    let xj = fdh_state(l, r, rounds, first, j);
    lemma_fdh_len(l, r, rounds, first, j);
    let tweak = seq![fdh_round_byte(rounds, j, first)];
    let pad = expand_spec(tweak, xj.0, xj.1.len());
    lemma_xor_twice(xj.1, pad);
    if m > 1 {
        lemma_fdh_undo(l, r, rounds, first, (m - 1) as nat);
    }
    assert(fdh_round_byte(rounds, (m - 1) as nat, !first) == fdh_round_byte(rounds, j, first));
    assert(fdh_state(t.0, t.1, rounds, !first, (m - 1) as nat) == (xj.0, xor_bytes(xj.1, pad)));
}

/// The file-level Feistel network in one direction is undone by the other:
/// for any buffer of even length, any number of rounds and either order.
pub proof fn lemma_fdh_involution(b: Seq<u8>, rounds: nat, first: bool)
    requires
        b.len() % 2 == 0,
    ensures
        fdh_spec(fdh_spec(b, rounds, first), rounds, !first) == b,
{
    let h = b.len() / 2;
    let l = b.take(h as int);
    let r = b.skip(h as int);
    let t = fdh_state(l, r, rounds, first, rounds);
    lemma_fdh_len(l, r, rounds, first, rounds);
    let out = t.0 + t.1;
    assert(out.take(h as int) =~= t.0);
    assert(out.skip(h as int) =~= t.1);
    if rounds > 0 {
        lemma_fdh_undo(l, r, rounds, first, rounds);
    }
    assert(l + r =~= b);
}

/// Creating a file and unpacking it gives the input: the Feistel network in
/// reverse undoes it on the padded input, and truncating drops the padding.
pub proof fn lemma_file_round_trip(data: Seq<u8>)
    ensures
        fdh_spec(fdh_spec(padded(data), FDH_ROUNDS as nat, false), FDH_ROUNDS as nat, true).take(
            data.len() as int,
        ) == data,
{
    let p = padded(data);
    lemma_shard_count(data.len());
    lemma_fdh_involution(p, FDH_ROUNDS as nat, false);
    assert(p.take(data.len() as int) =~= data);
}

/// `data` with each byte XORed with the byte of `pad` at the same place.
pub fn xor_pad(data: &Vec<u8>, pad: &Vec<u8>) -> (r: Vec<u8>)
    requires
        pad@.len() >= data@.len(),
    ensures
        r@ == xor_bytes(data@, pad@),
{
    let mut mixed: Vec<u8> = Vec::with_capacity(data.len());
    let mut i: usize = 0;
    while i < data.len()
        invariant
            i <= data@.len(),
            pad@.len() >= data@.len(),
            mixed@ == xor_bytes(data@, pad@).take(i as int),
        decreases data@.len() - i,
    {
        mixed.push(data[i] ^ pad[i]);
        i += 1;
        assert(mixed@ =~= xor_bytes(data@, pad@).take(i as int));
    }
    assert(mixed@ =~= xor_bytes(data@, pad@));
    mixed
}

/// The file-level Feistel network: `rounds` rounds on the halves of `data`,
/// forward or in reverse.
pub fn fdh(data: Vec<u8>, rounds: usize, reverse: bool) -> (r: Result<Vec<u8>, Error>)
    requires
        data@.len() <= MAX_BIGNUM_BYTES,
    ensures
        r matches Ok(v) ==> v@ == fdh_spec(data@, rounds as nat, reverse),
        r matches Err(e) ==> e == Error::Arithmetic,
{
    let ghost d = data@;
    let mut left = data;
    let h = left.len() / 2;
    let mut right = left.split_off(h);
    proof {
        assert(left@ =~= d.take(h as int));
        assert(right@ =~= d.skip(h as int));
    }
    let mut r: usize = 0;
    while r < rounds
        invariant
            r <= rounds,
            d.len() <= MAX_BIGNUM_BYTES,
            left@.len() + right@.len() == d.len(),
            (left@, right@) == fdh_state(d.take(h as int), d.skip(h as int), rounds as nat, reverse, r as nat),
        decreases rounds - r,
    {
        let tweak: u8 = if reverse { ((rounds - r - 1) % 256) as u8 } else { (r % 256) as u8 };
        let mut tw: Vec<u8> = Vec::new();
        tw.push(tweak);
        proof {
            assert(tw@ =~= seq![fdh_round_byte(rounds as nat, r as nat, reverse)]);
        }
        let pad = expand(tw.as_slice(), left.as_slice(), right.len())?;
        let mixed = xor_pad(&right, &pad);
        if r + 1 < rounds {
            right = left;
            left = mixed;
        } else {
            right = mixed;
        }
        r += 1;
    }
    let mut out = left;
    let ghost l0 = out@;
    let mut j: usize = 0;
    while j < right.len()
        invariant
            j <= right@.len(),
            out@ == l0 + right@.take(j as int),
        decreases right@.len() - j,
    {
        out.push(right[j]);
        j += 1;
        assert(out@ =~= l0 + right@.take(j as int));
    }
    proof {
        assert(right@.take(right@.len() as int) =~= right@);
    }
    Ok(out)
}

impl File {
    /// Pads `data` with zero bytes to whole shards, applies the file-level
    /// Feistel network and splits the result into shards `0, 1, ...`.
    pub fn new(data: &[u8]) -> (r: Result<File, Error>)
        ensures
            shard_count(data@.len()) >= MAX_SHARDS ==> r == Err::<File, Error>(Error::TooLarge),
            r matches Err(e) ==> e == Error::TooLarge || e == Error::Arithmetic,
            r matches Ok(f) ==> f.wf() && f.length == data@.len()
                && shards_bytes(f.shards@) == fdh_spec(padded(data@), FDH_ROUNDS as nat, false),
    {
        let length = data.len();
        let count = length / SHARD_SIZE + if length % SHARD_SIZE != 0 { 1 } else { 0 };
        proof {
            lemma_shard_count(length as nat);
        }
        if count >= MAX_SHARDS {
            return Err(Error::TooLarge);
        }
        let total = count * SHARD_SIZE;
        let mut buf: Vec<u8> = Vec::with_capacity(total);
        let mut i: usize = 0;
        while i < length
            invariant
                i <= length,
                length == data@.len(),
                buf@ == data@.take(i as int),
            decreases length - i,
        {
            buf.push(data[i]);
            i += 1;
            assert(buf@ =~= data@.take(i as int));
        }
        while buf.len() < total
            invariant
                length == data@.len(),
                length <= buf@.len() <= total,
                buf@ == data@ + zeros((buf@.len() - length) as nat),
            decreases total - buf@.len(),
        {
            buf.push(0u8);
            assert(buf@ =~= data@ + zeros((buf@.len() - length) as nat));
        }
        proof {
            assert(data@.take(length as int) =~= data@);
            assert(buf@ == padded(data@));
        }
        proof {
            lemma_fdh_spec_len(buf@, FDH_ROUNDS as nat, false);
        }
        let buf = fdh(buf, FDH_ROUNDS, false)?;
        let mut shards: Vec<Shard> = Vec::with_capacity(count);
        let mut idx: usize = 0;
        while idx < count
            invariant
                idx <= count,
                count < MAX_SHARDS,
                count == shard_count(length as nat),
                buf@.len() == count * SHARD_SIZE,
                shards@.len() == idx,
                shards_bytes(shards@) == buf@.take(idx * SHARD_SIZE),
                forall|j: int| 0 <= j < idx ==> (#[trigger] shards@[j]).wf() && shards@[j].idx == j,
            decreases count - idx,
        {
            let l = idx * SHARD_SIZE;
            let piece = slice_bytes(buf.as_slice(), l, l + SHARD_SIZE);
            let s = Shard::new(idx as u16, piece.as_slice());
            let ghost before = shards@;
            shards.push(s);
            proof {
                assert(shards@.drop_last() =~= before);
                assert(buf@.take(l + SHARD_SIZE) =~= buf@.take(l as int) + piece@);
            }
            idx += 1;
        }
        proof {
            assert(buf@.take(count * SHARD_SIZE) =~= buf@);
        }
        Ok(File { length, shards })
    }

    /// Joins the shards, undoes the file-level Feistel network and truncates
    /// to the input length.
    pub fn unpack(&self) -> (r: Result<Vec<u8>, Error>)
        requires
            self.wf(),
        ensures
            r matches Ok(v) ==> v@ == fdh_spec(shards_bytes(self.shards@), FDH_ROUNDS as nat, true).take(
                self.length as int,
            ),
            r matches Err(e) ==> e == Error::Arithmetic,
    {
        let mut data: Vec<u8> = Vec::new();
        let mut i: usize = 0;
        while i < self.shards.len()
            invariant
                self.wf(),
                i <= self.shards@.len(),
                data@ == shards_bytes(self.shards@.take(i as int)),
                data@.len() == i * SHARD_SIZE,
            decreases self.shards@.len() - i,
        {
            let bytes = self.shards[i].unpack();
            let ghost before = data@;
            let mut j: usize = 0;
            while j < bytes.len()
                invariant
                    j <= bytes@.len(),
                    data@ == before + bytes@.take(j as int),
                decreases bytes@.len() - j,
            {
                data.push(bytes[j]);
                j += 1;
                assert(data@ =~= before + bytes@.take(j as int));
            }
            proof {
                assert(bytes@.take(bytes@.len() as int) =~= bytes@);
                assert(self.shards@.take(i + 1).drop_last() =~= self.shards@.take(i as int));
                assert(self.shards@[i as int].wf());
            }
            i += 1;
        }
        proof {
            assert(self.shards@.take(self.shards@.len() as int) =~= self.shards@);
            lemma_shard_count(self.length as nat);
            lemma_fdh_spec_len(data@, FDH_ROUNDS as nat, true);
        }
        let mut data = fdh(data, FDH_ROUNDS, true)?;
        data.truncate(self.length);
        Ok(data)
    }
}

} // verus!
