//! The Reed-Solomon layer: each shard is a vector of `SHARD_ELEMS` GF(2^16)
//! elements for the erasure code.
use crate::{copy_coords, shard_count, Error, File, Header, Shard, SHARD_ELEMS};
use reed_solomon_erasure::galois_16::Field;
use reed_solomon_erasure::Error as RsError;
use reed_solomon_erasure::ReedSolomon;
use vstd::prelude::*;

verus! {

#[verifier::external_type_specification]
#[verifier::external_body]
pub struct ExRsError(RsError);

/// Most shards the code over GF(2^16) takes.
pub const MAX_CODE_SHARDS: usize = 0x10000;

/// The parity shards that the Reed-Solomon code over GF(2^16) computes for
/// the data shards `data` and `parity` parity shards.
pub uninterp spec fn rs_parity_of(data: Seq<Seq<[u8; 2]>>, parity: nat) -> Seq<Seq<[u8; 2]>>;

/// The data shards that the Reed-Solomon code over GF(2^16) recovers from the
/// slots `slots`, the first `data` of which hold data shards.
pub uninterp spec fn rs_recovered_of(slots: Seq<Option<Seq<[u8; 2]>>>, data: nat) -> Seq<Seq<[u8; 2]>>;

/// The elements of each shard.
pub open spec fn coords_views(s: Seq<Shard>) -> Seq<Seq<[u8; 2]>> {
    s.map_values(|x: Shard| x.coords@)
}

/// The elements of each slot, where it holds a shard.
pub open spec fn slot_views(s: Seq<Option<Shard>>) -> Seq<Option<Seq<[u8; 2]>>> {
    s.map_values(|o: Option<Shard>| match o {
        Some(x) => Some(x.coords@),
        None => None,
    })
}

/// The elements of a fresh shard: all zero.
pub open spec fn zero_elems() -> Seq<[u8; 2]> {
    Seq::new(SHARD_ELEMS as nat, |i: int| [0u8, 0u8])
}

/// How many slots hold a shard.
pub open spec fn count_present(s: Seq<Option<Shard>>) -> nat
    decreases s.len(),
{
    if s.len() == 0 {
        0
    } else {
        count_present(s.drop_last()) + if s.last() is Some { 1nat } else { 0nat }
    }
}

proof fn lemma_count_none(s: Seq<Option<Shard>>)
    requires
        forall|i: int| 0 <= i < s.len() ==> (#[trigger] s[i]) is None,
    ensures
        count_present(s) == 0,
    decreases s.len(),
{
    if s.len() > 0 {
        lemma_count_none(s.drop_last());
    }
}

proof fn lemma_count_fill(s: Seq<Option<Shard>>, i: int, x: Shard)
    requires
        0 <= i < s.len(),
        s[i] is None,
    ensures
        count_present(s.update(i, Some(x))) == count_present(s) + 1,
    decreases s.len(),
{
    let u = s.update(i, Some(x));
    if i == s.len() - 1 {
        assert(u.drop_last() =~= s.drop_last());
    } else {
        assert(u.drop_last() =~= s.drop_last().update(i, Some(x)));
        lemma_count_fill(s.drop_last(), i, x);
    }
}

/// At most every slot holds a shard, and one fewer where slot `i` is empty.
proof fn lemma_count_bound(s: Seq<Option<Shard>>, i: int)
    ensures
        count_present(s) <= s.len(),
        0 <= i < s.len() && s[i] is None ==> count_present(s) < s.len(),
    decreases s.len(),
{
    if s.len() > 0 {
        lemma_count_bound(s.drop_last(), i);
    }
}

/// Relies on `ReedSolomon::<galois_16::Field>::new` and `ReedSolomon::encode`:
/// the first `data_shards` shards are read, the parity shards after them are
/// overwritten with as many elements as the data shards have.
#[verifier::external_body]
fn rs_encode(data_shards: usize, parity_shards: usize, code: &mut Vec<Shard>) -> (r: Result<(), RsError>)
    requires
        old(code)@.len() == data_shards + parity_shards,
        forall|i: int| 0 <= i < old(code)@.len() ==> (#[trigger] old(code)@[i]).wf(),
    ensures
        1 <= data_shards && 1 <= parity_shards && data_shards + parity_shards <= MAX_CODE_SHARDS ==> r is Ok,
        final(code)@.len() == old(code)@.len(),
        forall|i: int| 0 <= i < old(code)@.len() ==> (#[trigger] final(code)@[i]).idx == old(code)@[i].idx,
        r is Ok ==> forall|i: int| 0 <= i < data_shards ==> (#[trigger] final(code)@[i]).coords@ == old(code)@[i].coords@,
        r is Ok ==> forall|i: int| data_shards <= i < old(code)@.len() ==> (#[trigger] final(code)@[i]).coords@
            == rs_parity_of(coords_views(old(code)@.take(data_shards as int)), parity_shards as nat)[i - data_shards]
            && final(code)@[i].coords@.len() == SHARD_ELEMS,
{
    let rs = ReedSolomon::<Field>::new(data_shards, parity_shards)?;
    let mut v: Vec<Vec<[u8; 2]>> = code.iter().map(|s| s.coords.clone()).collect();
    rs.encode(&mut v)?;
    for (s, c) in code.iter_mut().zip(v) {
        s.coords = c;
    }
    Ok(())
}

/// Relies on `ReedSolomon::<galois_16::Field>::new` and
/// `ReedSolomon::reconstruct_data`: every data slot comes back filled, with as
/// many elements as the supplied shards have, and supplied data shards come
/// back as they were.
#[verifier::external_body]
fn rs_reconstruct_data(data_shards: usize, parity_shards: usize, slots: &Vec<Option<Shard>>) -> (r: Result<Vec<Option<Vec<[u8; 2]>>>, RsError>)
    requires
        slots@.len() == data_shards + parity_shards,
        forall|i: int| 0 <= i < slots@.len() && (#[trigger] slots@[i]) is Some ==> slots@[i].unwrap().wf(),
    ensures
        1 <= data_shards && 1 <= parity_shards && data_shards + parity_shards <= MAX_CODE_SHARDS
            && count_present(slots@) >= data_shards ==> r is Ok,
        r matches Ok(v) ==> v@.len() == slots@.len() && forall|i: int| 0 <= i < data_shards ==> {
            &&& (#[trigger] v@[i]) is Some
            &&& v@[i].unwrap()@ == rs_recovered_of(slot_views(slots@), data_shards as nat)[i]
            &&& v@[i].unwrap()@.len() == SHARD_ELEMS
            &&& slots@[i] is Some ==> v@[i].unwrap()@ == slots@[i].unwrap().coords@
        },
{
    let rs = ReedSolomon::<Field>::new(data_shards, parity_shards)?;
    let mut v: Vec<Option<Vec<[u8; 2]>>> = slots.iter().map(|o| o.as_ref().map(|s| s.coords.clone())).collect();
    rs.reconstruct_data(&mut v)?;
    Ok(v)
}

/// Whether some shard of `shards` has index `i`.
pub open spec fn present(shards: Seq<Shard>, i: int) -> bool {
    exists|j: int| 0 <= j < shards.len() && #[trigger] shards[j].idx == i
}

/// The elements of the shard of `shards` with index `i`.
pub open spec fn supplied(shards: Seq<Shard>, i: int) -> Seq<[u8; 2]> {
    shards[choose|j: int| 0 <= j < shards.len() && #[trigger] shards[j].idx == i].coords@
}

/// Two shards of `shards` share an index.
pub open spec fn has_duplicate(shards: Seq<Shard>) -> bool {
    exists|a: int, b: int| 0 <= a < b < shards.len() && #[trigger] shards[a].idx == #[trigger] shards[b].idx
}

/// The largest index in `shards`, zero for none.
pub open spec fn max_index(shards: Seq<Shard>) -> nat
    decreases shards.len(),
{
    if shards.len() == 0 {
        0
    } else {
        let m = max_index(shards.drop_last());
        if shards.last().idx as nat > m {
            shards.last().idx as nat
        } else {
            m
        }
    }
}

/// The codeword slots `0..size` with each shard of `shards` at its index.
pub open spec fn sparse_view(shards: Seq<Shard>, size: nat) -> Seq<Option<Seq<[u8; 2]>>> {
    Seq::new(size, |i: int| if present(shards, i) { Some(supplied(shards, i)) } else { None })
}

impl File {
    /// The header and the codeword: the data shards, then `expansion` parity
    /// shards with indices following on. With no data shards the parity
    /// shards stay zero.
    pub fn shards(&self, expansion: usize) -> (r: Result<(Header, Vec<Shard>), Error>)
        requires
            self.wf(),
        ensures
            r is Ok <==> self.shards@.len() + expansion <= MAX_CODE_SHARDS,
            r matches Err(e) ==> e == Error::Codec,
            r matches Ok(hc) ==> {
                let (h, code) = hc;
                let k = self.shards@.len();
                &&& h.length == self.length
                &&& code@.len() == k + expansion
                &&& forall|i: int| 0 <= i < code@.len() ==> (#[trigger] code@[i]).wf() && code@[i].idx == i
                &&& forall|i: int| 0 <= i < k ==> (#[trigger] code@[i]).coords@ == self.shards@[i].coords@
                &&& forall|i: int| k <= i < code@.len() ==> (#[trigger] code@[i]).coords@ == if k == 0 {
                    zero_elems()
                } else {
                    rs_parity_of(coords_views(self.shards@), expansion as nat)[i - k]
                }
            },
    {
        let header = Header { length: self.length };
        let dimension = header.shards();
        proof {
            if dimension > 0 {
                assert(self.shards@[dimension - 1].idx == dimension - 1);
            }
        }
        if expansion > MAX_CODE_SHARDS - dimension {
            return Err(Error::Codec);
        }
        let code_len = dimension + expansion;
        let mut code: Vec<Shard> = Vec::with_capacity(code_len);
        let mut i: usize = 0;
        while i < code_len
            invariant
                self.wf(),
                dimension == self.shards@.len(),
                code_len == dimension + expansion,
                code_len <= MAX_CODE_SHARDS,
                i <= code_len,
                code@.len() == i,
                forall|j: int| 0 <= j < i ==> (#[trigger] code@[j]).wf() && code@[j].idx == j,
                forall|j: int| 0 <= j < i && j < dimension ==> (#[trigger] code@[j]).coords@ == self.shards@[j].coords@,
                forall|j: int| dimension <= j < i ==> (#[trigger] code@[j]).coords@ == zero_elems(),
            decreases code_len - i,
        {
            if i < dimension {
                assert(self.shards@[i as int].wf());
                code.push(self.shards[i].copy());
            } else {
                let mut coords: Vec<[u8; 2]> = Vec::with_capacity(SHARD_ELEMS);
                let mut e: usize = 0;
                while e < SHARD_ELEMS
                    invariant
                        e <= SHARD_ELEMS,
                        coords@ =~= Seq::new(e as nat, |j: int| [0u8, 0u8]),
                    decreases SHARD_ELEMS - e,
                {
                    coords.push([0u8, 0u8]);
                    e += 1;
                    assert(coords@ =~= Seq::new(e as nat, |j: int| [0u8, 0u8]));
                }
                assert(coords@ =~= zero_elems());
                code.push(Shard { idx: i as u16, coords });
            }
            i += 1;
        }
        if expansion > 0 && dimension > 0 {
            let ghost before = code@;
            let done = rs_encode(dimension, expansion, &mut code);
            proof {
                assert(done is Ok);
                assert(before.take(dimension as int).map_values(|x: Shard| x.coords@)
                    =~= self.shards@.map_values(|x: Shard| x.coords@));
                assert forall|j: int| 0 <= j < code@.len() implies (#[trigger] code@[j]).wf() && code@[j].idx == j by {
                    if j >= dimension {
                        assert(code@[j].coords@.len() == SHARD_ELEMS);
                    } else {
                        assert(before[j].wf());
                    }
                }
            }
        }
        Ok((header, code))
    }
}

/// Every index is at most the largest, which fits in a `u16`.
proof fn lemma_max_index(shards: Seq<Shard>)
    ensures
        max_index(shards) < MAX_CODE_SHARDS,
        forall|a: int| 0 <= a < shards.len() ==> (#[trigger] shards[a]).idx <= max_index(shards),
        shards.len() > 0 ==> exists|a: int| 0 <= a < shards.len() && #[trigger] shards[a].idx == max_index(shards),
    decreases shards.len(),
{
    if shards.len() > 0 {
        let init = shards.drop_last();
        lemma_max_index(init);
        assert forall|a: int| 0 <= a < shards.len() implies (#[trigger] shards[a]).idx <= max_index(shards) by {
            if a < init.len() {
                assert(init[a] == shards[a]);
            }
        }
        if shards.last().idx as nat <= max_index(init) && init.len() > 0 {
            let a = choose|a: int| 0 <= a < init.len() && #[trigger] init[a].idx == max_index(init);
            assert(shards[a] == init[a]);
        }
        if init.len() == 0 {
            assert(max_index(init) == 0);
        }
    }
}

impl File {
    /// Rebuilds the file from any `header.shards()` or more shards of its
    /// codeword, each placed at its index.
    pub fn reconstruct(header: &Header, shards: &[Shard]) -> (r: Result<File, Error>)
        requires
            forall|i: int| 0 <= i < shards@.len() ==> (#[trigger] shards@[i]).wf(),
        ensures
            shards@.len() < shard_count(header.length as nat) ==> r == Err::<File, Error>(Error::InsufficientShards),
            shards@.len() >= shard_count(header.length as nat) && has_duplicate(shards@)
                ==> r == Err::<File, Error>(Error::DuplicateIndex),
            shards@.len() >= shard_count(header.length as nat) && !has_duplicate(shards@) ==> r is Ok,
            r matches Err(e) ==> {
                ||| e == Error::InsufficientShards && shards@.len() < shard_count(header.length as nat)
                ||| e == Error::DuplicateIndex && has_duplicate(shards@)
            },
            r matches Ok(f) ==> {
                let k = shard_count(header.length as nat);
                &&& f.wf()
                &&& f.length == header.length
                &&& forall|i: int| 0 <= i < k ==> (#[trigger] f.shards@[i]).coords@ == if present(shards@, i) {
                    supplied(shards@, i)
                } else {
                    rs_recovered_of(sparse_view(shards@, max_index(shards@) + 1), k)[i]
                }
            },
    {
        let dimension = header.shards();
        if dimension > shards.len() {
            return Err(Error::InsufficientShards);
        }
        let mut max: usize = 0;
        let mut j: usize = 0;
        while j < shards.len()
            invariant
                j <= shards@.len(),
                max == max_index(shards@.take(j as int)),
                max < MAX_CODE_SHARDS,
            decreases shards@.len() - j,
        {
            proof {
                lemma_max_index(shards@.take(j + 1));
            }
            let idx = shards[j].idx as usize;
            proof {
                assert(shards@.take(j + 1).drop_last() =~= shards@.take(j as int));
            }
            if idx > max {
                max = idx;
            }
            j += 1;
        }
        proof {
            assert(shards@.take(shards@.len() as int) =~= shards@);
            lemma_max_index(shards@);
        }
        let size = max + 1;
        let mut sparse: Vec<Option<Shard>> = Vec::with_capacity(size);
        let mut i: usize = 0;
        while i < size
            invariant
                i <= size,
                sparse@.len() == i,
                forall|t: int| 0 <= t < i ==> (#[trigger] sparse@[t]) is None,
            decreases size - i,
        {
            sparse.push(None);
            i += 1;
        }
        proof {
            lemma_count_none(sparse@);
        }
        let mut j: usize = 0;
        while j < shards.len()
            invariant
                j <= shards@.len(),
                dimension == shard_count(header.length as nat),
                dimension <= shards@.len(),
                size == max_index(shards@) + 1,
                size <= MAX_CODE_SHARDS,
                sparse@.len() == size,
                count_present(sparse@) == j,
                forall|i: int| 0 <= i < shards@.len() ==> (#[trigger] shards@[i]).wf(),
                forall|a: int| 0 <= a < shards@.len() ==> (#[trigger] shards@[a]).idx < size,
                forall|a: int, b: int| 0 <= a < b < j ==> #[trigger] shards@[a].idx != #[trigger] shards@[b].idx,
                forall|t: int| 0 <= t < size ==> ((#[trigger] sparse@[t]) is Some <==> exists|a: int| 0 <= a < j && #[trigger] shards@[a].idx == t),
                forall|a: int| 0 <= a < j ==> {
                    let t = (#[trigger] shards@[a]).idx as int;
                    sparse@[t] is Some && sparse@[t].unwrap().coords@ == shards@[a].coords@ && sparse@[t].unwrap().wf()
                },
            decreases shards@.len() - j,
        {
            let idx = shards[j].idx as usize;
            if sparse[idx].is_some() {
                proof {
                    let a = choose|a: int| 0 <= a < j && #[trigger] shards@[a].idx == idx;
                    assert(shards@[a].idx == shards@[j as int].idx);
                }
                return Err(Error::DuplicateIndex);
            }
            let c = shards[j].copy();
            proof {
                lemma_count_fill(sparse@, idx as int, c);
            }
            sparse[idx] = Some(c);
            proof {
                assert forall|t: int| 0 <= t < size implies ((#[trigger] sparse@[t]) is Some <==> exists|a: int| 0 <= a < j + 1 && #[trigger] shards@[a].idx == t) by {
                    if t == idx {
                        assert(shards@[j as int].idx == t);
                    }
                }
            }
            j += 1;
        }
        proof {
            assert forall|t: int| 0 <= t < size implies (#[trigger] slot_views(sparse@)[t]) == sparse_view(shards@, size as nat)[t] by {
                if sparse@[t] is Some {
                    let a = choose|a: int| 0 <= a < shards@.len() && #[trigger] shards@[a].idx == t;
                    let c = choose|c: int| 0 <= c < shards@.len() && #[trigger] shards@[c].idx == t;
                    assert(present(shards@, t));
                    if a != c {
                        if a < c {
                            assert(shards@[a].idx != shards@[c].idx);
                        } else {
                            assert(shards@[c].idx != shards@[a].idx);
                        }
                    }
                } else {
                    assert(!present(shards@, t));
                }
            }
            assert(slot_views(sparse@) =~= sparse_view(shards@, size as nat));
            assert forall|t: int| 0 <= t < sparse@.len() && (#[trigger] sparse@[t]) is Some implies sparse@[t].unwrap().wf() by {
                let a = choose|a: int| 0 <= a < shards@.len() && #[trigger] shards@[a].idx == t;
                assert(shards@[a].idx as int == t);
            }
        }
        let k = dimension;
        if k == 0 {
            return Ok(File { length: header.length, shards: Vec::new() });
        }
        proof {
            lemma_count_bound(sparse@, 0);
            assert(k <= size);
        }
        let mut all = true;
        let mut i: usize = 0;
        while i < k
            invariant
                i <= k,
                k <= sparse@.len(),
                all <==> forall|t: int| 0 <= t < i ==> (#[trigger] sparse@[t]) is Some,
            decreases k - i,
        {
            if sparse[i].is_none() {
                all = false;
            }
            i += 1;
        }
        let mut out: Vec<Shard> = Vec::with_capacity(k);
        if all {
            let mut i: usize = 0;
            while i < k
                invariant
                    i <= k,
                    k <= sparse@.len(),
                    sparse@.len() == size,
                    size == max_index(shards@) + 1,
                    sparse@.len() <= MAX_CODE_SHARDS,
                    k == shard_count(header.length as nat),
                    forall|t: int| 0 <= t < k ==> (#[trigger] sparse@[t]) is Some,
                    forall|t: int| 0 <= t < sparse@.len() && (#[trigger] sparse@[t]) is Some ==> sparse@[t].unwrap().wf(),
                    slot_views(sparse@) == sparse_view(shards@, size as nat),
                    out@.len() == i,
                    forall|t: int| 0 <= t < i ==> (#[trigger] out@[t]).wf() && out@[t].idx == t
                        && out@[t].coords@ == supplied(shards@, t) && present(shards@, t),
                decreases k - i,
            {
                assert(sparse@[i as int] is Some);
                assert(slot_views(sparse@)[i as int] == Some(sparse@[i as int].unwrap().coords@));
                assert(slot_views(sparse@)[i as int] == sparse_view(shards@, size as nat)[i as int]);
                assert(present(shards@, i as int));
                let s = sparse[i].as_ref().unwrap();
                assert(s.wf());
                let sh = Shard { idx: i as u16, coords: copy_coords(&s.coords) };
                assert(sh.idx == i);
                assert(sh.coords@ == supplied(shards@, i as int));
                out.push(sh);
                i += 1;
            }
        } else {
            proof {
                let t = choose|t: int| 0 <= t < k && (#[trigger] sparse@[t]) is None;
                lemma_count_bound(sparse@, t);
            }
            let parity = size - k;
            let v = rs_reconstruct_data(k, parity, &sparse).unwrap();
            let mut i: usize = 0;
            while i < k
                invariant
                    i <= k,
                    k <= sparse@.len(),
                    sparse@.len() == size,
                    size == max_index(shards@) + 1,
                    sparse@.len() <= MAX_CODE_SHARDS,
                    k == shard_count(header.length as nat),
                    v@.len() == sparse@.len(),
                    slot_views(sparse@) == sparse_view(shards@, size as nat),
                    forall|t: int| 0 <= t < k ==> {
                        &&& (#[trigger] v@[t]) is Some
                        &&& v@[t].unwrap()@ == rs_recovered_of(slot_views(sparse@), k as nat)[t]
                        &&& v@[t].unwrap()@.len() == SHARD_ELEMS
                        &&& sparse@[t] is Some ==> v@[t].unwrap()@ == sparse@[t].unwrap().coords@
                    },
                    out@.len() == i,
                    forall|t: int| 0 <= t < i ==> (#[trigger] out@[t]).wf() && out@[t].idx == t
                        && out@[t].coords@ == if present(shards@, t) {
                            supplied(shards@, t)
                        } else {
                            rs_recovered_of(sparse_view(shards@, max_index(shards@) + 1), k as nat)[t]
                        },
                decreases k - i,
            {
                assert(slot_views(sparse@)[i as int] == sparse_view(shards@, size as nat)[i as int]);
                assert(sparse@[i as int] is Some ==> slot_views(sparse@)[i as int] == Some(sparse@[i as int].unwrap().coords@));
                assert(sparse@[i as int] is None ==> slot_views(sparse@)[i as int] is None);
                assert(max_index(shards@) + 1 == size);
                let c = v[i].as_ref().unwrap();
                let sh = Shard { idx: i as u16, coords: copy_coords(c) };
                assert(sh.idx == i);
                assert(sh.wf());
                assert(sh.coords@ == if present(shards@, i as int) {
                    supplied(shards@, i as int)
                } else {
                    rs_recovered_of(sparse_view(shards@, max_index(shards@) + 1), k as nat)[i as int]
                });
                out.push(sh);
                i += 1;
            }
        }
        Ok(File { length: header.length, shards: out })
    }
}

} // verus!
