use panetiere::iblt::{
    chunk_to_limbs, limbs_to_chunk, IbltError, IbltParams, IbltVector, IBLT_CHUNK_BYTES,
    IBLT_N_LEVELS,
};
use panetiere::rings::HVC_MODULUS;
use panetiere::HVCPoly;
use rand::{Rng, SeedableRng};
use rand_chacha::ChaCha20Rng;

fn rand_chunk(rng: &mut ChaCha20Rng) -> [u8; IBLT_CHUNK_BYTES] {
    let mut c = [0u8; IBLT_CHUNK_BYTES];
    rng.fill(&mut c[..]);
    c
}

fn sorted<T: Ord + Clone>(v: &[T]) -> Vec<T> {
    let mut v = v.to_vec();
    v.sort();
    v
}

#[test]
fn limb_round_trip() {
    let mut rng = ChaCha20Rng::from_seed([1u8; 32]);
    for &b in &[7u32, 8, 10, 12, 16] {
        for _ in 0..16 {
            let c = rand_chunk(&mut rng);
            let limbs = chunk_to_limbs(&c, b);
            let c2 = limbs_to_chunk(&limbs, b);
            assert_eq!(c, c2, "base_bits={}", b);
            let max = 1i32 << b;
            assert!(limbs.iter().all(|&l| l >= 0 && l < max), "limb out of range at b={}", b);
            assert_eq!(limbs.len(), (384 + b as usize - 1) / b as usize);
        }
    }
}

#[test]
fn limbs_zero_round_trip() {
    let zero = [0u8; IBLT_CHUNK_BYTES];
    for &b in &[7u32, 8, 12, 16] {
        assert_eq!(limbs_to_chunk(&chunk_to_limbs(&zero, b), b), zero);
    }
}

#[test]
fn insert_then_recover_single() {
    let mut rng = ChaCha20Rng::from_seed([2u8; 32]);
    let params = IbltParams { message_slots: 100, base_bits: 12 };
    let mut iblt = IbltVector::new(params);
    let chunk = rand_chunk(&mut rng);
    iblt.insert_chunk(chunk);
    let recovered = iblt.recover().unwrap();
    assert_eq!(recovered, vec![chunk]);
}

#[test]
fn recover_twenty_chunks() {
    let mut rng = ChaCha20Rng::from_seed([3u8; 32]);
    let params = IbltParams { message_slots: 100, base_bits: 12 };
    let mut iblt = IbltVector::new(params);
    let chunks: Vec<_> = (0..20).map(|_| rand_chunk(&mut rng)).collect();
    for c in &chunks {
        iblt.insert_chunk(*c);
    }
    let recovered = iblt.recover().unwrap();
    assert_eq!(sorted(&recovered), sorted(&chunks));
}

#[test]
fn union_via_add_assign() {
    let mut rng = ChaCha20Rng::from_seed([4u8; 32]);
    let params = IbltParams { message_slots: 14, base_bits: 12 };
    let mut a = IbltVector::new(params);
    let mut b = IbltVector::new(params);
    let chunks_a: Vec<_> = (0..IBLT_N_LEVELS).map(|_| rand_chunk(&mut rng)).collect();
    let chunks_b: Vec<_> = (0..IBLT_N_LEVELS).map(|_| rand_chunk(&mut rng)).collect();
    for c in &chunks_a {
        a.insert_chunk(*c);
    }
    for c in &chunks_b {
        b.insert_chunk(*c);
    }
    a.add_assign(&b).unwrap();
    let recovered = a.recover().unwrap();
    let expected: Vec<_> = chunks_a.iter().chain(&chunks_b).copied().collect();
    assert_eq!(sorted(&recovered), sorted(&expected));
}

#[test]
fn add_assign_param_mismatch() {
    let p1 = IbltParams { message_slots: 10, base_bits: 12 };
    let p2 = IbltParams { message_slots: 11, base_bits: 12 };
    let mut a = IbltVector::new(p1);
    let b = IbltVector::new(p2);
    assert_eq!(a.add_assign(&b), Err(IbltError::ParamsMismatch));
}

#[test]
fn iblt_pack_unpack_round_trip() {
    let mut rng = ChaCha20Rng::from_seed([10u8; 32]);
    for &b in &[7u32, 10, 12] {
        let params = IbltParams { message_slots: 32, base_bits: b };
        let mut iblt = IbltVector::new(params);
        for _ in 0..7 {
            iblt.insert_chunk(rand_chunk(&mut rng));
        }
        let polys = iblt.pack();
        assert_eq!(polys.len(), IbltVector::n_polys(&params));
        let recovered = IbltVector::unpack(&params, &polys);
        assert_eq!(recovered.params, iblt.params);
        for level in 0..IBLT_N_LEVELS {
            assert_eq!(recovered.chunks[level], iblt.chunks[level]);
            assert_eq!(recovered.counters[level], iblt.counters[level]);
        }
        assert!(recovered.recover().is_ok());
    }
}

#[test]
fn pack_is_linear_under_hvcpoly_add() {
    let mut rng = ChaCha20Rng::from_seed([11u8; 32]);
    let params = IbltParams { message_slots: 16, base_bits: 12 };
    let mut a = IbltVector::new(params);
    let mut b = IbltVector::new(params);
    for _ in 0..3 {
        a.insert_chunk(rand_chunk(&mut rng));
        b.insert_chunk(rand_chunk(&mut rng));
    }

    let pa = a.pack();
    let pb = b.pack();
    let summed: Vec<HVCPoly> = pa.iter().zip(&pb).map(|(x, y)| *x + *y).collect();

    let mut union = a.clone();
    union.add_assign(&b).unwrap();
    let pu = union.pack();

    for (s, u) in summed.iter().zip(&pu) {
        let mut s = *s;
        let mut u = *u;
        s.lift();
        u.lift();
        assert_eq!(s.coeffs(), u.coeffs());
    }

    let recovered = IbltVector::unpack(&params, &summed).recover().unwrap();
    let expected: Vec<_> =
        a.recover().unwrap().into_iter().chain(b.recover().unwrap()).collect();
    assert_eq!(sorted(&recovered), sorted(&expected));
}

#[test]
fn max_clients_matches_constraint() {
    for &b in &[7u32, 8, 10, 12] {
        let p = IbltParams { message_slots: 1, base_bits: b };
        let n = p.max_clients() as i64;
        let base = 1i64 << b;
        assert!(
            n * (base - 1) < HVC_MODULUS as i64,
            "constraint violated: N={}, B={}, q={}",
            n,
            base,
            HVC_MODULUS
        );
    }
}

#[test]
fn one_bit_limbs_leave_room_for_all_but_one_residue() {
    let clients = |base_bits: u32| IbltParams { message_slots: 1, base_bits }.max_clients();
    assert_eq!(clients(1), 40960);
    assert_eq!(clients(2), 13653);
    assert_eq!(clients(12), 10);
    assert_eq!(clients(0), 40961);
}

#[test]
fn limbs_past_the_last_bit_are_dropped() {
    assert_eq!(limbs_to_chunk(&[0i32; 29], 16), [0u8; IBLT_CHUNK_BYTES]);
    let mut limbs = [0i32; 29];
    limbs[0] = 0x0102;
    limbs[28] = 7;
    let mut want = [0u8; IBLT_CHUNK_BYTES];
    want[46] = 1;
    want[47] = 2;
    assert_eq!(limbs_to_chunk(&limbs, 16), want);
    assert_eq!(limbs_to_chunk(&limbs[..1], 16), want);
}

#[test]
fn limbs_of_a_chunk_give_the_limbs_back() {
    let mut limbs = vec![0i32; 32];
    for (i, l) in limbs.iter_mut().enumerate() {
        *l = (97 * i as i32) % 4096;
    }
    assert_eq!(chunk_to_limbs(&limbs_to_chunk(&limbs, 12), 12), limbs);
}

#[test]
fn a_clear_table_lists_nothing() {
    for (message_slots, base_bits) in [(1u32, 12u32), (2, 12), (1, 20), (100, 20)] {
        let table = IbltVector::new(IbltParams { message_slots, base_bits });
        assert_eq!(table.recover(), Ok(vec![]));
    }
}

#[test]
fn the_order_of_insertion_does_not_matter() {
    let mut rng = ChaCha20Rng::from_seed([21u8; 32]);
    let params = IbltParams { message_slots: 20, base_bits: 12 };
    let chunks: Vec<_> = (0..6).map(|_| rand_chunk(&mut rng)).collect();
    let mut there = IbltVector::new(params);
    let mut back = IbltVector::new(params);
    for (c, d) in chunks.iter().zip(chunks.iter().rev()) {
        there.insert_chunk(*c);
        back.insert_chunk(*d);
    }
    assert_eq!(there.chunks, back.chunks);
    assert_eq!(there.counters, back.counters);
    assert_eq!(there.recover(), back.recover());
    let mut both = there.clone();
    both.add_assign(&back).unwrap();
    let mut swapped = back.clone();
    swapped.add_assign(&there).unwrap();
    assert_eq!(both.chunks, swapped.chunks);
    assert_eq!(both.counters, swapped.counters);
}

#[test]
fn equal_chunks_hide_each_other() {
    let mut rng = ChaCha20Rng::from_seed([22u8; 32]);
    let params = IbltParams { message_slots: 20, base_bits: 12 };
    let chunk = rand_chunk(&mut rng);
    let mut table = IbltVector::new(params);
    table.insert_chunk(chunk);
    assert_eq!(table.recover(), Ok(vec![chunk]));
    table.insert_chunk(chunk);
    assert_eq!(table.recover(), Ok(vec![]));
}

#[test]
fn buckets_add_up_over_the_levels() {
    let params = IbltParams { message_slots: 100, base_bits: 12 };
    let sizes: Vec<usize> = (0..IBLT_N_LEVELS).map(|l| params.level_size(l)).collect();
    assert_eq!(sizes, vec![100, 75, 56, 42]);
    assert_eq!(params.total_buckets(), 273);
}
