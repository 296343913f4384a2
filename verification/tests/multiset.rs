use panetiere::fp::Fp;
use panetiere::fpoly::poly_mul;
use panetiere::mse::{MseEncoding, MseError, MseParams};
use panetiere::prony::{PronyError, PronyParams, PronySketch, PRONY_PRIME};
use panetiere::roots::roots_of_split;
use panetiere::KahePoly;
use rand::{Rng, SeedableRng};
use rand_chacha::ChaCha20Rng;

const SMALL_P: u64 = 1_048_583;

fn params_for(gamma: usize, delta: usize, payload_symbols: usize, seed: u8) -> MseParams {
    MseParams::new(gamma, delta, payload_symbols, [seed; 32])
}

fn firsts(elements: Vec<Vec<i64>>) -> Vec<i64> {
    let mut v: Vec<i64> = elements.into_iter().map(|t| t[0]).collect();
    v.sort();
    v
}

#[test]
fn mse_single_element_round_trip() {
    let mut rng = ChaCha20Rng::from_seed([0u8; 32]);
    let pp = params_for(4, 16, 1, 1);
    let mut enc = MseEncoding::new(pp);
    enc.insert(&mut rng, &[42]);
    let recovered = enc.decode().expect("decode");
    assert_eq!(recovered, vec![vec![42]]);
}

#[test]
fn mse_multi_element_round_trip() {
    let mut rng = ChaCha20Rng::from_seed([1u8; 32]);
    let pp = params_for(4, 64, 1, 2);
    let mut enc = MseEncoding::new(pp);
    let mut elements = vec![1, 7, 13, 19, 100, 200, 300, 400];
    for &x in &elements {
        enc.insert(&mut rng, &[x]);
    }
    elements.sort();
    assert_eq!(firsts(enc.decode().expect("decode")), elements);
}

#[test]
fn mse_union_via_pointwise_add() {
    let mut rng = ChaCha20Rng::from_seed([2u8; 32]);
    let pp = params_for(4, 32, 1, 3);
    let mut a = MseEncoding::new(pp);
    let mut b = MseEncoding::new(pp);
    for x in [1, 5, 9, 17] {
        a.insert(&mut rng, &[x]);
    }
    for x in [2, 6, 11, 23] {
        b.insert(&mut rng, &[x]);
    }
    a.add_assign(&b).unwrap();
    assert_eq!(firsts(a.decode().expect("decode")), vec![1, 2, 5, 6, 9, 11, 17, 23]);
}

#[test]
fn mse_add_assign_needs_equal_parameters() {
    let mut a = MseEncoding::new(params_for(4, 32, 1, 3));
    let b = MseEncoding::new(params_for(4, 32, 1, 4));
    assert_eq!(a.add_assign(&b), Err(MseError::ParamsMismatch));
}

#[test]
fn mse_pack_unpack_round_trip() {
    let mut rng = ChaCha20Rng::from_seed([4u8; 32]);
    let pp = params_for(4, 32, 1, 5);
    let mut enc = MseEncoding::new(pp);
    for x in [11, 22, 33, 44, 55] {
        enc.insert(&mut rng, &[x]);
    }
    let polys = enc.pack();
    assert_eq!(polys.len(), MseEncoding::n_polys(&pp));
    let restored = MseEncoding::unpack(&pp, &polys);
    assert_eq!(restored.params, enc.params);
    assert_eq!(restored.c, enc.c);
    assert_eq!(restored.k, enc.k);
    assert_eq!(restored.v, enc.v);
    assert_eq!(firsts(restored.decode().expect("decode")), vec![11, 22, 33, 44, 55]);
}

#[test]
fn mse_pack_sum_unpacks_to_union() {
    let mut rng = ChaCha20Rng::from_seed([6u8; 32]);
    let pp = params_for(4, 32, 1, 7);
    let mut a = MseEncoding::new(pp);
    let mut b = MseEncoding::new(pp);
    for x in [100, 200, 300] {
        a.insert(&mut rng, &[x]);
    }
    for x in [400, 500, 600] {
        b.insert(&mut rng, &[x]);
    }
    let pa = a.pack();
    let pb = b.pack();
    let summed: Vec<KahePoly> = pa.iter().zip(pb.iter()).map(|(x, y)| *x + *y).collect();
    let unioned = MseEncoding::unpack(&pp, &summed);
    assert_eq!(
        firsts(unioned.decode().expect("decode")),
        vec![100, 200, 300, 400, 500, 600]
    );
}

#[test]
fn multi_symbol_round_trip() {
    let mut rng = ChaCha20Rng::from_seed([13u8; 32]);
    let pp = params_for(4, 64, 4, 17);
    let mut enc = MseEncoding::new(pp);
    let mut messages: Vec<Vec<i64>> =
        (0..10).map(|i| vec![i * 11, i * 13 + 1, i * 17 + 2, i * 19 + 3]).collect();
    for m in &messages {
        enc.insert(&mut rng, m);
    }
    let mut recovered = enc.decode().expect("decode");
    messages.sort();
    recovered.sort();
    assert_eq!(recovered, messages);
}

#[test]
fn five_hundred_twelve_bit_message_round_trip() {
    let mut rng = ChaCha20Rng::from_seed([23u8; 32]);
    let xi = MseParams::payload_symbols_for_bits(512);
    assert_eq!(xi, 15);
    let pp = params_for(4, 32, xi, 31);
    let mut enc = MseEncoding::new(pp);
    let mut messages: Vec<Vec<i64>> =
        (0..5).map(|i| (0..xi).map(|s| (i * 7 + s * 13) as i64).collect()).collect();
    for m in &messages {
        enc.insert(&mut rng, m);
    }
    let mut recovered = enc.decode().expect("decode");
    messages.sort();
    recovered.sort();
    assert_eq!(recovered, messages);
}

#[test]
fn an_overfull_table_stalls() {
    let mut rng = ChaCha20Rng::from_seed([31u8; 32]);
    let mut enc = MseEncoding::new(params_for(2, 2, 1, 9));
    for x in 0..20 {
        enc.insert(&mut rng, &[x]);
    }
    assert_eq!(enc.decode(), Err(MseError::PeelStalled));
}

#[test]
fn field_and_poly_sanity() {
    let f = Fp::new(SMALL_P);
    assert_eq!(f.mul(f.inv(12345), 12345), 1);
    let poly = poly_mul(
        &poly_mul(&vec![f.sub(0, 2), 1], &vec![f.sub(0, 3), 1], f),
        &vec![f.sub(0, 5), 1],
        f,
    );
    assert_eq!(poly, vec![f.sub(0, 30), 31, f.sub(0, 10), 1]);
    assert_eq!(roots_of_split(&poly, f), Some(vec![2, 3, 5]));
    let g = poly_mul(&vec![f.sub(0, 2), 1], &poly, f);
    assert_eq!(roots_of_split(&g, f), None);
}

#[test]
fn barrett_matches_reference() {
    let mut rng = ChaCha20Rng::from_seed([41u8; 32]);
    for &p in &[SMALL_P, PRONY_PRIME, 3, 5] {
        let f = Fp::new(p);
        let pp = p as u128 * p as u128;
        for x in [0u128, 1, p as u128 - 1, p as u128, pp - 1] {
            assert_eq!(f.reduce(x), (x % p as u128) as u64, "reduce {x} mod {p}");
        }
        for _ in 0..20_000 {
            let x = rng.gen::<u128>() % pp;
            assert_eq!(f.reduce(x), (x % p as u128) as u64);
            let (a, w) = (x as u64 % p, (x >> 64) as u64 % p);
            assert_eq!(
                f.mul_shoup(a, w, f.shoup(w)),
                ((a as u128 * w as u128) % p as u128) as u64,
                "shoup {a}·{w} mod {p}",
            );
            assert_eq!(f.mul(x as u64 % p, (x >> 64) as u64 % p), {
                let a = (x as u64 % p) as u128;
                let b = ((x >> 64) as u64 % p) as u128;
                ((a * b) % p as u128) as u64
            });
        }
        for _ in 0..5_000 {
            let x = rng.gen::<u128>() >> 36;
            assert_eq!(f.reduce_wide(x), (x % p as u128) as u64);
        }
    }
}

#[test]
fn capacity_300_round_trip() {
    let mut rng = ChaCha20Rng::from_seed([47u8; 32]);
    let cap = 300;
    let mut sk = PronySketch::new(PronyParams::new(cap, 8));
    let mut msgs: Vec<Vec<i64>> = (0..cap)
        .map(|i| (0..8).map(|s| ((i * 31 + s * 7) % 100_000) as i64).collect())
        .collect();
    for m in &msgs {
        sk.insert(&mut rng, m);
    }
    let mut got = sk.decode().unwrap();
    msgs.sort();
    got.sort();
    assert_eq!(got, msgs);
}

#[test]
fn prony_single_element_round_trip() {
    let mut rng = ChaCha20Rng::from_seed([0u8; 32]);
    let pp = PronyParams::new(4, 1);
    let mut sk = PronySketch::new(pp);
    sk.insert(&mut rng, &[42]);
    assert_eq!(sk.decode().unwrap(), vec![vec![42]]);
}

#[test]
fn prony_multi_element_round_trip() {
    let mut rng = ChaCha20Rng::from_seed([1u8; 32]);
    let mut sk = PronySketch::new(PronyParams::new(8, 1));
    let mut elements = vec![1, 7, 13, 19, 100, 200, 300, 400];
    for &x in &elements {
        sk.insert(&mut rng, &[x]);
    }
    elements.sort();
    assert_eq!(firsts(sk.decode().unwrap()), elements);
}

#[test]
fn full_capacity_round_trip() {
    let mut rng = ChaCha20Rng::from_seed([9u8; 32]);
    let cap = 32;
    let mut sk = PronySketch::new(PronyParams::new(cap, 3));
    let mut msgs: Vec<Vec<i64>> =
        (0..cap).map(|i| vec![i as i64 * 7 + 1, i as i64 * 11, 1 << 31]).collect();
    for m in &msgs {
        sk.insert(&mut rng, m);
    }
    let mut got = sk.decode().unwrap();
    msgs.sort();
    got.sort();
    assert_eq!(got, msgs);
}

#[test]
fn prony_union_via_pointwise_add() {
    let mut rng = ChaCha20Rng::from_seed([2u8; 32]);
    let pp = PronyParams::new(8, 1);
    let mut a = PronySketch::new(pp);
    let mut b = PronySketch::new(pp);
    for x in [1, 5, 9, 17] {
        a.insert(&mut rng, &[x]);
    }
    for x in [2, 6, 11, 23] {
        b.insert(&mut rng, &[x]);
    }
    a.add_assign(&b).unwrap();
    assert_eq!(firsts(a.decode().unwrap()), vec![1, 2, 5, 6, 9, 11, 17, 23]);
}

#[test]
fn cover_adds_nothing() {
    let mut rng = ChaCha20Rng::from_seed([3u8; 32]);
    let pp = PronyParams::new(8, 2);
    let mut a = PronySketch::new(pp);
    a.insert(&mut rng, &[5, 6]);
    let cover = PronySketch::unpack(&pp, &PronySketch::cover(&pp));
    a.add_assign(&cover).unwrap();
    assert_eq!(a.decode().unwrap(), vec![vec![5, 6]]);
    assert_eq!(PronySketch::new(pp).decode().unwrap(), Vec::<Vec<i64>>::new());
}

#[test]
fn prony_pack_sum_unpacks_to_union() {
    let mut rng = ChaCha20Rng::from_seed([6u8; 32]);
    let pp = PronyParams::new(8, 2);
    let mut a = PronySketch::new(pp);
    let mut b = PronySketch::new(pp);
    for x in [100i64, 200, 300] {
        a.insert(&mut rng, &[x, x + 1]);
    }
    for x in [400i64, 500, 600] {
        b.insert(&mut rng, &[x, x + 1]);
    }
    let (pa, pb) = (a.pack(), b.pack());
    assert_eq!(pa.len(), PronySketch::n_polys(&pp));
    let summed: Vec<KahePoly> = pa.iter().zip(pb.iter()).map(|(x, y)| *x + *y).collect();
    let mut got = PronySketch::unpack(&pp, &summed).decode().unwrap();
    got.sort();
    assert_eq!(
        got,
        vec![
            vec![100, 101],
            vec![200, 201],
            vec![300, 301],
            vec![400, 401],
            vec![500, 501],
            vec![600, 601]
        ]
    );
}

#[test]
fn packed_cells_are_centered() {
    let mut rng = ChaCha20Rng::from_seed([8u8; 32]);
    let pp = PronyParams::new(16, 2);
    let mut sk = PronySketch::new(pp);
    for i in 0..16 {
        sk.insert(&mut rng, &[i, i * 3]);
    }
    let half = (pp.p / 2) as i64;
    for poly in sk.pack() {
        let mut q = poly;
        q.normalize();
        assert!(q.coeffs().iter().all(|&c| c >= -half - 1 && c < half + 1));
    }
}

#[test]
fn overflowing_capacity_is_detected() {
    let mut rng = ChaCha20Rng::from_seed([11u8; 32]);
    let pp = PronyParams::new(4, 1);
    let mut sk = PronySketch::new(pp);
    for i in 0..6 {
        sk.insert(&mut rng, &[i]);
    }
    assert_eq!(sk.decode(), Err(PronyError::CapacityExceeded { count: 6, capacity: 4 }));
}

#[test]
fn duplicate_point_is_detected() {
    let pp = PronyParams::new(8, 1);
    let mut sk = PronySketch::new(pp);
    sk.insert_with_z(&[11], 12345);
    sk.insert_with_z(&[22], 12345);
    sk.insert_with_z(&[33], 999);
    assert_eq!(sk.decode(), Err(PronyError::NotSplit));
}

#[test]
fn malformed_contribution_is_detected() {
    let mut rng = ChaCha20Rng::from_seed([13u8; 32]);
    let pp = PronyParams::with_slack(8, 1, 1, PRONY_PRIME);
    let mut sk = PronySketch::new(pp);
    for x in [3i64, 4, 5] {
        sk.insert(&mut rng, &[x]);
    }
    sk.w[0][2] += 7;
    assert_eq!(sk.decode(), Err(PronyError::CheckFailed));
}

#[test]
fn prony_add_assign_needs_equal_parameters() {
    let mut a = PronySketch::new(PronyParams::new(8, 1));
    let b = PronySketch::new(PronyParams::new(9, 1));
    assert_eq!(a.add_assign(&b), Err(PronyError::ParamsMismatch));
}

#[test]
fn decoding_names_the_points() {
    let mut sk = PronySketch::new(PronyParams::new(8, 1));
    sk.insert_with_z(&[11], 12345);
    sk.insert_with_z(&[22], 67);
    assert_eq!(sk.decode_with_points().unwrap(), vec![(67, vec![22]), (12345, vec![11])]);
}

#[test]
fn insertions_commute() {
    let pp = params_for(4, 32, 1, 9);
    let mut there = MseEncoding::new(pp);
    let mut back = MseEncoding::new(pp);
    let elements = [(5i64, 11u128), (-7, 1 << 40), (0, 3)];
    for (&(x, r), &(y, s)) in elements.iter().zip(elements.iter().rev()) {
        there.insert_with_r(&[x], r);
        back.insert_with_r(&[y], s);
    }
    assert_eq!((&there.c, &there.k, &there.v), (&back.c, &back.k, &back.v));
    let mut other = MseEncoding::new(pp);
    other.insert_with_r(&[9], 77);
    let mut left = there.clone();
    left.add_assign(&other).unwrap();
    other.add_assign(&there).unwrap();
    assert_eq!((&left.c, &left.k, &left.v), (&other.c, &other.k, &other.v));
}

#[test]
fn plain_sums_of_cells_unpack_to_the_union() {
    let pp = params_for(4, 32, 1, 10);
    let mut a = MseEncoding::new(pp);
    let mut b = MseEncoding::new(pp);
    a.insert_with_r(&[100], 1 << 30);
    b.insert_with_r(&[-400], 1 << 50);
    let sums: Vec<KahePoly> = a
        .pack()
        .iter()
        .zip(b.pack())
        .map(|(x, y)| {
            let mut c = *x.coeffs();
            for (s, t) in c.iter_mut().zip(y.coeffs()) {
                *s += *t;
            }
            KahePoly::from_coeffs(c)
        })
        .collect();
    let union = MseEncoding::unpack(&pp, &sums);
    assert_eq!(firsts(union.decode().expect("decode")), vec![-400, 100]);
}
