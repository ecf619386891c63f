use openssl::bn::BigNumContext;
use portage::bignum::BigNat;
use portage::file::{fdh, xor_pad};
use portage::misc::expand;
use portage::rsa::{block_to_tweak, derive_key, rsa_p, rsa_pinv};
use portage::{
    DecodingKey, EncodeBlock, EncodedShard, EncodingKey, Error, File, Header, Shard, BLOCK_HALF_SIZE,
    SHARD_SIZE,
};
use rand::Rng;

fn encode_all(sk: &mut EncodingKey, shards: Vec<Shard>) -> Vec<EncodedShard> {
    shards
        .into_iter()
        .map(|s| {
            let mut e = s.pack();
            sk.encode(&mut e).unwrap();
            e
        })
        .collect()
}

fn decode_all(pk: &mut DecodingKey, enc: Vec<EncodedShard>) -> Vec<Shard> {
    enc.into_iter()
        .map(|mut e| {
            pk.decode(&mut e).unwrap();
            e.unpack()
        })
        .collect()
}

fn key_parts(sk: &EncodingKey) -> (BigNat, BigNat) {
    let ser = sk.serialize();
    let l = (ser[0] as usize) * 256 + ser[1] as usize;
    let n = BigNat::from_be_bytes(&ser[2..2 + l]);
    let d = BigNat::from_be_bytes(&ser[2 + l..]);
    (n, d)
}

fn same_block(a: &EncodeBlock, b: &EncodeBlock) -> bool {
    a.s0.as_bytes() == b.s0.as_bytes() && a.s1.as_bytes() == b.s1.as_bytes()
}

#[test]
fn encode_decode() {
    // generate new encoding / decoding key
    let mut sk = EncodingKey::new().unwrap();
    let mut pk = sk.decoding();

    // generate a random input file
    let mut rng = rand::thread_rng();
    let size: usize = rng.gen::<usize>() % 10240;
    let mut original = Vec::with_capacity(size);
    for _ in 0..size {
        original.push(rng.gen());
    }

    // create file object and split into shards
    let file = File::new(&original[..]).unwrap();
    let expand: usize = rng.gen::<usize>() % 20;
    let (header, shards) = file.shards(expand).unwrap();
    assert_eq!(shards.len(), header.shards() + expand);

    // encode each shard
    let mut enc: Vec<EncodedShard> = encode_all(&mut sk, shards);
    assert_eq!(enc.len(), header.shards() + expand);

    // lose the maximum number
    for _ in 0..expand {
        let idx: usize = rng.gen();
        enc.remove(idx % enc.len());
    }

    // decode the rest
    let dec: Vec<Shard> = decode_all(&mut pk, enc);

    // recover the file from the remaining shards
    let file2 = File::reconstruct(&header, &dec[..]).unwrap();
    let recover = file2.unpack().unwrap();

    // check that we succesfully recovered
    assert_eq!(&original[..], &recover[..]);
}

#[test]
fn zero_file_without_expansion() {
    let mut sk = EncodingKey::new().unwrap();
    let mut pk = sk.decoding();
    let original = vec![0u8; 1024];
    let file = File::new(&original).unwrap();
    let (header, shards) = file.shards(0).unwrap();
    assert_eq!(shards.len(), 1);
    let dec = decode_all(&mut pk, encode_all(&mut sk, shards));
    let recover = File::reconstruct(&header, &dec).unwrap().unpack().unwrap();
    assert_eq!(recover, original);
}

#[test]
fn zero_file_drop_any_one_of_three() {
    let mut sk = EncodingKey::new().unwrap();
    let mut pk = sk.decoding();
    let original = vec![0u8; 1024];
    let file = File::new(&original).unwrap();
    let (header, shards) = file.shards(2).unwrap();
    assert_eq!(shards.len(), 3);
    let enc = encode_all(&mut sk, shards);
    for drop in 0..3 {
        let kept: Vec<EncodedShard> =
            enc.iter().enumerate().filter(|(i, _)| *i != drop).map(|(_, e)| e.clone()).collect();
        let dec = decode_all(&mut pk, kept);
        let recover = File::reconstruct(&header, &dec).unwrap().unpack().unwrap();
        assert_eq!(recover, original);
    }
}

#[test]
fn serialized_key_encodes_identically() {
    let mut sk = EncodingKey::new().unwrap();
    let mut sk2 = EncodingKey::deserialize(&sk.serialize()).unwrap();
    assert_eq!(sk2.serialize(), sk.serialize());
    let file = File::new(&[7u8; 1500]).unwrap();
    let (_, shards) = file.shards(0).unwrap();
    let mut a = shards[1].pack();
    let mut b = a.clone();
    sk.encode(&mut a).unwrap();
    sk2.encode(&mut b).unwrap();
    assert_eq!(a.blocks.len(), b.blocks.len());
    for i in 0..a.blocks.len() {
        assert!(same_block(&a.blocks[i], &b.blocks[i]));
    }
}

#[test]
fn fdh_sixteen_bytes_round_trip() {
    let input: Vec<u8> = (0u8..16).map(|i| i.wrapping_mul(37).wrapping_add(11)).collect();
    let forward = fdh(input.clone(), 3, false).unwrap();
    assert_eq!(forward.len(), 16);
    assert_ne!(forward, input);
    let back = fdh(forward, 3, true).unwrap();
    assert_eq!(back, input);
}

#[test]
fn fdh_round_trip_other_round_counts() {
    let input: Vec<u8> = (0u16..2048).map(|i| (i % 251) as u8).collect();
    for rounds in [0usize, 1, 2, 5] {
        let forward = fdh(input.clone(), rounds, false).unwrap();
        assert_eq!(fdh(forward, rounds, true).unwrap(), input);
    }
    assert_eq!(fdh(input.clone(), 0, false).unwrap(), input);
}

#[test]
fn block_round_trip_full_width_halves() {
    let sk = EncodingKey::new().unwrap();
    let (n, d) = key_parts(&sk);
    let mut ctx = BigNumContext::new().unwrap();
    let mut rng = rand::thread_rng();
    for _ in 0..3 {
        let mut h0 = vec![0u8; BLOCK_HALF_SIZE];
        let mut h1 = vec![0u8; BLOCK_HALF_SIZE];
        rng.fill(&mut h0[..]);
        rng.fill(&mut h1[..]);
        h0[0] |= 0x80;
        h1[0] |= 0x80;
        let mut block = EncodeBlock {
            s0: BigNat::from_be_bytes(&h0),
            s1: BigNat::from_be_bytes(&h1),
        };
        let original = block.clone();
        let shard_idx: u16 = rng.gen();
        let block_idx: u32 = rng.gen();
        block.encode(&mut ctx, &n, &d, shard_idx, block_idx).unwrap();
        assert!(!same_block(&block, &original));
        block.decode(&mut ctx, &n, shard_idx, block_idx).unwrap();
        assert!(same_block(&block, &original));
        assert_eq!(block.s0.as_bytes(), &h0);
        assert_eq!(block.s1.as_bytes(), &h1);
    }
}

#[test]
fn same_block_at_two_positions_differs_in_both_halves() {
    let mut sk = EncodingKey::new().unwrap();
    let mut bytes = vec![0u8; SHARD_SIZE];
    for i in 0..SHARD_SIZE / 2 {
        bytes[i] = (i % 200) as u8 + 1;
        bytes[i + SHARD_SIZE / 2] = (i % 200) as u8 + 1;
    }
    let mut e = Shard::new(4, &bytes).pack();
    assert!(same_block(&e.blocks[0], &e.blocks[1]));
    sk.encode(&mut e).unwrap();
    assert_ne!(e.blocks[0].s0.as_bytes(), e.blocks[1].s0.as_bytes());
    assert_ne!(e.blocks[0].s1.as_bytes(), e.blocks[1].s1.as_bytes());
}

#[test]
fn cloned_keys_encode_and_decode_alike() {
    let mut sk = EncodingKey::new().unwrap();
    let mut sk2 = sk.clone();
    let mut pk = sk.decoding();
    let mut pk2 = pk.clone();
    let bytes: Vec<u8> = (0..SHARD_SIZE).map(|i| (i * 7 % 256) as u8).collect();
    let mut a = Shard::new(9, &bytes).pack();
    let mut b = a.clone();
    sk.encode(&mut a).unwrap();
    sk2.encode(&mut b).unwrap();
    for i in 0..a.blocks.len() {
        assert!(same_block(&a.blocks[i], &b.blocks[i]));
    }
    pk.decode(&mut a).unwrap();
    pk2.decode(&mut b).unwrap();
    assert_eq!(a.unpack().unpack(), bytes);
    assert_eq!(b.unpack().unpack(), bytes);
}

#[test]
fn pack_then_unpack_gives_the_shard() {
    let mut rng = rand::thread_rng();
    for _ in 0..5 {
        let mut bytes = vec![0u8; SHARD_SIZE];
        rng.fill(&mut bytes[..]);
        bytes[0] = 0;
        bytes[1] = 0;
        bytes[BLOCK_HALF_SIZE] = 0;
        let shard = Shard::new(17, &bytes);
        let back = shard.pack().unpack();
        assert_eq!(back.idx, 17);
        assert_eq!(back.unpack(), bytes);
    }
}

#[test]
fn unpack_pads_halves_on_the_left() {
    let blocks = vec![
        EncodeBlock { s0: BigNat::from_be_bytes(&[1, 2]), s1: BigNat::zero() },
        EncodeBlock { s0: BigNat::from_be_bytes(&[0, 0, 9]), s1: BigNat::from_be_bytes(&[255]) },
    ];
    let e = EncodedShard { idx: 3, blocks };
    let bytes = e.unpack().unpack();
    let mut expected = vec![0u8; SHARD_SIZE];
    expected[BLOCK_HALF_SIZE - 2] = 1;
    expected[BLOCK_HALF_SIZE - 1] = 2;
    expected[3 * BLOCK_HALF_SIZE - 1] = 9;
    expected[4 * BLOCK_HALF_SIZE - 1] = 255;
    assert_eq!(bytes, expected);
}

#[test]
fn shard_new_pairs_bytes() {
    let bytes: Vec<u8> = (0..SHARD_SIZE).map(|i| (i % 256) as u8).collect();
    let s = Shard::new(5, &bytes);
    assert_eq!(s.idx, 5);
    assert_eq!(s.coords.len(), SHARD_SIZE / 2);
    assert_eq!(s.coords[0], [0, 1]);
    assert_eq!(s.coords[200], [144, 145]);
    assert_eq!(s.unpack(), bytes);
}

#[test]
fn header_shard_counts() {
    assert_eq!(Header { length: 0 }.shards(), 0);
    assert_eq!(Header { length: 1 }.shards(), 1);
    assert_eq!(Header { length: 1024 }.shards(), 1);
    assert_eq!(Header { length: 1025 }.shards(), 2);
    assert_eq!(Header { length: 10240 }.shards(), 10);
}

#[test]
fn empty_input_has_no_shards() {
    let file = File::new(&[]).unwrap();
    assert_eq!(file.length, 0);
    assert_eq!(file.shards.len(), 0);
    assert_eq!(file.unpack().unwrap(), Vec::<u8>::new());
    let (header, shards) = file.shards(0).unwrap();
    assert_eq!(header.shards(), 0);
    assert!(shards.is_empty());
    let again = File::reconstruct(&header, &[]).unwrap();
    assert_eq!(again.unpack().unwrap(), Vec::<u8>::new());
}

#[test]
fn one_shard_for_exactly_shard_size() {
    let data: Vec<u8> = (0..SHARD_SIZE).map(|i| (i % 13) as u8).collect();
    let file = File::new(&data).unwrap();
    assert_eq!(file.shards.len(), 1);
    assert_eq!(file.shards[0].idx, 0);
    assert_eq!(file.unpack().unwrap(), data);
}

#[test]
fn file_round_trip_without_encoding() {
    let data: Vec<u8> = (0..3000).map(|i| (i * 31 % 256) as u8).collect();
    let file = File::new(&data).unwrap();
    assert_eq!(file.shards.len(), 3);
    let joined: Vec<u8> = file.shards.iter().flat_map(|s| s.unpack()).collect();
    let mut padded = data.clone();
    padded.resize(3 * SHARD_SIZE, 0);
    assert_ne!(joined, padded);
    assert_eq!(file.unpack().unwrap(), data);
}

#[test]
fn too_many_shards_is_rejected() {
    let data = vec![0u8; 65535 * SHARD_SIZE + 1];
    assert_eq!(File::new(&data).err(), Some(Error::TooLarge));
}

#[test]
fn insufficient_shards_are_rejected() {
    let file = File::new(&[3u8; 2048]).unwrap();
    let (header, shards) = file.shards(1).unwrap();
    assert_eq!(File::reconstruct(&header, &shards[..1]).err(), Some(Error::InsufficientShards));
}

#[test]
fn duplicate_indices_are_rejected() {
    let file = File::new(&[3u8; 2048]).unwrap();
    let (header, shards) = file.shards(1).unwrap();
    let dup = vec![shards[0].clone(), shards[0].clone()];
    assert_eq!(File::reconstruct(&header, &dup).err(), Some(Error::DuplicateIndex));
}

#[test]
fn parity_shards_of_an_empty_file_are_zero() {
    let file = File::new(&[]).unwrap();
    let (header, shards) = file.shards(3).unwrap();
    assert_eq!(header.shards(), 0);
    assert_eq!(shards.len(), 3);
    for (i, s) in shards.iter().enumerate() {
        assert_eq!(s.idx as usize, i);
        assert_eq!(s.coords, vec![[0u8, 0u8]; SHARD_SIZE / 2]);
    }
    let again = File::reconstruct(&header, &shards[1..]).unwrap();
    assert_eq!(again.unpack().unwrap(), Vec::<u8>::new());
}

#[test]
fn empty_file_round_trip_with_expansion() {
    let mut sk = EncodingKey::new().unwrap();
    let mut pk = sk.decoding();
    let file = File::new(&[]).unwrap();
    let (header, shards) = file.shards(2).unwrap();
    let mut enc = encode_all(&mut sk, shards);
    enc.remove(0);
    let dec = decode_all(&mut pk, enc);
    let recover = File::reconstruct(&header, &dec).unwrap().unpack().unwrap();
    assert!(recover.is_empty());
}

#[test]
fn codeword_longer_than_the_code_is_refused() {
    let file = File::new(&[1u8; 3000]).unwrap();
    assert_eq!(file.shards(65536 - 2).err(), Some(Error::Codec));
    assert!(File::new(&[]).unwrap().shards(65537).is_err());
}

#[test]
fn derive_key_on_small_primes() {
    let mut ctx = BigNumContext::new().unwrap();
    let p = BigNat::from_be_bytes(&[5]);
    let q = BigNat::from_be_bytes(&[11]);
    let (n, d) = derive_key(&p, &q, &mut ctx).unwrap().unwrap();
    assert_eq!(n.as_bytes(), &vec![55u8]);
    assert_eq!(d.as_bytes(), &vec![27u8]);
    let p = BigNat::from_be_bytes(&[7]);
    assert!(derive_key(&p, &q, &mut ctx).unwrap().is_none());
}

#[test]
fn reconstruct_keeps_supplied_data_shards() {
    let data: Vec<u8> = (0..2500).map(|i| (i % 97) as u8).collect();
    let file = File::new(&data).unwrap();
    let (header, shards) = file.shards(2).unwrap();
    assert_eq!(shards[3].idx, 3);
    assert_eq!(shards[4].idx, 4);
    let parity_bytes = shards[3].unpack();
    assert_ne!(parity_bytes, vec![0u8; SHARD_SIZE]);
    let rebuilt = File::reconstruct(&header, &shards[..3]).unwrap();
    for i in 0..3 {
        assert_eq!(rebuilt.shards[i].unpack(), file.shards[i].unpack());
    }
    let from_parity = File::reconstruct(&header, &[shards[4].clone(), shards[3].clone(), shards[0].clone()]).unwrap();
    assert_eq!(from_parity.unpack().unwrap(), data);
}

#[test]
fn encoding_key_deserialize_errors() {
    assert_eq!(EncodingKey::deserialize(&[]).err(), Some(Error::MalformedKey));
    assert_eq!(EncodingKey::deserialize(&[0]).err(), Some(Error::MalformedKey));
    assert_eq!(EncodingKey::deserialize(&[0, 3, 1, 2, 3]).err(), Some(Error::MalformedKey));
    assert_eq!(EncodingKey::deserialize(&[0, 2, 1, 2]).err(), Some(Error::MalformedKey));
    let k = EncodingKey::deserialize(&[0, 1, 7, 9]).unwrap();
    assert_eq!(k.serialize(), vec![0, 1, 7, 9]);
    let k = EncodingKey::deserialize(&[0, 2, 0, 7, 0, 9]).unwrap();
    assert_eq!(k.serialize(), vec![0, 1, 7, 9]);
}

#[test]
fn degenerate_modulus_is_refused() {
    let mut sk = EncodingKey::deserialize(&[0, 1, 1, 5]).unwrap();
    let mut pk = sk.decoding();
    let mut e = Shard::new(0, &[1u8; SHARD_SIZE]).pack();
    assert_eq!(sk.encode(&mut e).err(), Some(Error::MalformedKey));
    assert_eq!(pk.decode(&mut e).err(), Some(Error::MalformedKey));
}

#[test]
fn decoding_key_serialization() {
    let sk = EncodingKey::new().unwrap();
    let pk = sk.decoding();
    let ser = sk.serialize();
    let l = (ser[0] as usize) * 256 + ser[1] as usize;
    assert_eq!(pk.serialize(), ser[2..2 + l].to_vec());
    assert_eq!(l, 257);
    let pk2 = DecodingKey::deserialize(&pk.serialize()).unwrap();
    assert_eq!(pk2.serialize(), pk.serialize());
    assert_eq!(DecodingKey::deserialize(&[0, 0, 4, 2]).unwrap().serialize(), vec![4, 2]);
}

#[test]
fn expand_is_deterministic_and_tweaked() {
    let a = expand(&[1], b"value", 40).unwrap();
    let b = expand(&[1], b"value", 40).unwrap();
    let c = expand(&[2], b"value", 40).unwrap();
    let short = expand(&[1], b"value", 10).unwrap();
    assert_eq!(a.len(), 40);
    assert_eq!(a, b);
    assert_ne!(a, c);
    assert_ne!(a, vec![0u8; 40]);
    assert_eq!(&a[..10], &short[..]);
    assert_eq!(expand(&[1], b"value", 0).unwrap().len(), 0);
}

#[test]
fn block_tweak_is_little_endian() {
    assert_eq!(block_to_tweak(0x0102, 0x0304_0506), [2, 1, 6, 5, 4, 3]);
    assert_eq!(block_to_tweak(0, 0), [0; 6]);
    assert_eq!(block_to_tweak(0xffff, 0xffff_ffff), [255; 6]);
}

#[test]
fn rsa_maps_on_small_numbers() {
    let mut ctx = BigNumContext::new().unwrap();
    let n = BigNat::from_be_bytes(&[55]);
    let d = BigNat::from_be_bytes(&[27]);
    let v = BigNat::from_be_bytes(&[8]);
    let c = rsa_p(&mut ctx, &v, &n).unwrap();
    assert_eq!(c.as_bytes(), &vec![17u8]);
    let back = rsa_pinv(&mut ctx, &c, &n, &d).unwrap();
    assert_eq!(back.as_bytes(), &vec![8u8]);
}

#[test]
fn big_integers_are_minimal() {
    let v = BigNat::from_be_bytes(&[0, 0, 1, 2]);
    assert_eq!(v.as_bytes(), &vec![1u8, 2]);
    assert_eq!(v.num_bytes(), 2);
    assert!(v.gt_one());
    assert!(!BigNat::from_be_bytes(&[0, 1]).gt_one());
    assert!(BigNat::from_be_bytes(&[0, 0]).as_bytes().is_empty());
    assert_eq!(v.copy().as_bytes(), v.as_bytes());
}

#[test]
fn xor_pad_exact_values() {
    let data = vec![0x0fu8, 0xf0, 0xaa, 0x00];
    let pad = vec![0xffu8, 0xff, 0x55, 0x12, 0x99];
    assert_eq!(xor_pad(&data, &pad), vec![0xf0, 0x0f, 0xff, 0x12]);
    assert_eq!(xor_pad(&xor_pad(&data, &pad), &pad), data);
}

#[test]
fn non_invertible_round_value_fails_encoding() {
    let mut sk = EncodingKey::deserialize(&[0, 1, 4, 3]).unwrap();
    let bytes: Vec<u8> = (0..SHARD_SIZE).map(|i| (i % 251) as u8).collect();
    let mut e = Shard::new(1, &bytes).pack();
    assert_eq!(sk.encode(&mut e).err(), Some(Error::Arithmetic));
}
