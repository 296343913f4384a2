use panetiere::bulletin::rs_poly_packed_len;
use panetiere::digest::{centered_within_bound, embed, to_kahe};
use panetiere::digits::BASE;
use panetiere::negacyclic::center_i64;
use panetiere::rings::{DgtNTTPoly, DGT_MODULUS, HVC_MODULUS, RS_MODULUS, RS_MODULUS_0, ZETA};
use panetiere::rs::{pack_share, unpack_share, Rs, RsError, RsParams, Share};
use panetiere::share_commitment::{
    check_setup, commit_shares, decompose_share_poly, ingest_share, key_seed, label_digits,
    project_share_poly, sum_openings, verify_aggregated, ShareCommitmentParams, ShareOpening,
    ShareSetupError, DGT_WIDTH,
};
use panetiere::{HVCPoly, KahePoly, RsNTTPoly, N};
use rand::SeedableRng;
use rand_chacha::ChaCha20Rng;

fn rand_ctxt(rng: &mut ChaCha20Rng, len: usize) -> Vec<RsNTTPoly> {
    (0..len).map(|_| RsNTTPoly::from_kahe(&KahePoly::rand_poly(rng))).collect()
}

fn rand_share(rng: &mut ChaCha20Rng, len: usize) -> Share {
    (0..len).map(|_| DgtNTTPoly::rand_ntt_poly(rng)).collect()
}

fn params(block_len: usize, n_lanes: usize, rho_max: usize) -> ShareCommitmentParams {
    ShareCommitmentParams::from_seed([7u8; 32], block_len, n_lanes, rho_max)
}

#[test]
fn systematic_shares_alias_the_blocks() {
    let mut rng = ChaCha20Rng::from_seed([1u8; 32]);
    let params = RsParams::new(4, 6);
    let ct = rand_ctxt(&mut rng, 9);
    let shares = Rs::encode(&params, &ct);
    let blocks = Rs::split_blocks(&params, &ct);
    assert_eq!(shares.len(), 6);
    for b in 0..4 {
        assert_eq!(shares[b], blocks[b]);
    }
}

#[test]
fn any_k_of_n_reconstruct() {
    let mut rng = ChaCha20Rng::from_seed([2u8; 32]);
    for (k, n, len) in [(1usize, 3usize, 5usize), (4, 6, 9), (3, 8, 12), (5, 5, 5)] {
        let params = RsParams::new(k, n);
        let ct = rand_ctxt(&mut rng, len);
        let shares = Rs::encode(&params, &ct);
        for start in 0..=(n - k) {
            let samples: Vec<(usize, &[RsNTTPoly])> =
                (start..start + k).map(|j| (j, shares[j].as_slice())).collect();
            let back = Rs::reconstruct(&params, len, &samples).unwrap();
            assert_eq!(back, ct, "k={k} n={n} len={len} start={start}");
        }
    }
}

#[test]
fn reconstruct_rejects_bad_sample_sets() {
    let mut rng = ChaCha20Rng::from_seed([3u8; 32]);
    let params = RsParams::new(3, 5);
    let ct = rand_ctxt(&mut rng, 7);
    let shares = Rs::encode(&params, &ct);
    let one: Vec<(usize, &[RsNTTPoly])> = vec![(0, shares[0].as_slice())];
    assert_eq!(Rs::reconstruct(&params, 7, &one), Err(RsError::NotEnoughShares));
    let dup: Vec<(usize, &[RsNTTPoly])> = vec![
        (1, shares[1].as_slice()),
        (1, shares[1].as_slice()),
        (2, shares[2].as_slice()),
    ];
    assert_eq!(Rs::reconstruct(&params, 7, &dup), Err(RsError::DuplicateIndex));
    let stub = [RsNTTPoly::default()];
    let short: Vec<(usize, &[RsNTTPoly])> = vec![
        (0, &stub[..]),
        (1, shares[1].as_slice()),
        (2, shares[2].as_slice()),
    ];
    assert_eq!(Rs::reconstruct(&params, 7, &short), Err(RsError::ShareLenMismatch));
}

#[test]
fn share_wire_round_trip() {
    let mut rng = ChaCha20Rng::from_seed([5u8; 32]);
    let share = rand_ctxt(&mut rng, 4);
    let mut bytes = Vec::new();
    pack_share(&share, &mut bytes);
    assert_eq!(bytes.len(), 4 * rs_poly_packed_len());
    assert_eq!(unpack_share(&bytes, 4).unwrap(), share);
    assert!(unpack_share(&bytes, 3).is_none());
    assert!(unpack_share(&bytes[..bytes.len() - 1], 4).is_none());
}

#[test]
fn share_wire_rejects_noncanonical_residue() {
    let mut rng = ChaCha20Rng::from_seed([15u8; 32]);
    let share = rand_ctxt(&mut rng, 1);
    let mut bytes = Vec::new();
    pack_share(&share, &mut bytes);
    bytes[..3].copy_from_slice(&RS_MODULUS_0.to_le_bytes()[..3]);
    assert!(unpack_share(&bytes, 1).is_none());
}

#[test]
fn summing_shares_reconstructs_the_integer_sum() {
    let mut rng = ChaCha20Rng::from_seed([4u8; 32]);
    let params = RsParams::new(4, 7);
    let len = 11;
    let cts: Vec<Vec<KahePoly>> = (0..6)
        .map(|_| (0..len).map(|_| KahePoly::rand_poly(&mut rng)).collect())
        .collect();
    let embedded: Vec<Vec<RsNTTPoly>> =
        cts.iter().map(|c| c.iter().map(RsNTTPoly::from_kahe).collect()).collect();
    let per_client: Vec<Vec<Vec<RsNTTPoly>>> =
        embedded.iter().map(|c| Rs::encode(&params, c)).collect();

    let lane_sums: Vec<Vec<RsNTTPoly>> = (0..params.n)
        .map(|j| {
            let col: Vec<&[RsNTTPoly]> = per_client.iter().map(|s| s[j].as_slice()).collect();
            Rs::sum_shares(&col)
        })
        .collect();

    let samples: Vec<(usize, &[RsNTTPoly])> =
        (3..3 + params.k).map(|j| (j, lane_sums[j].as_slice())).collect();
    let got = Rs::reconstruct(&params, len, &samples).unwrap();

    for pos in 0..len {
        let recovered = got[pos].to_centered_coeffs();
        for i in 0..N {
            let want: i64 = cts
                .iter()
                .map(|c| {
                    let mut p = c[pos];
                    p.normalize();
                    p.coeffs()[i]
                })
                .sum();
            let want = center_i64(want, RS_MODULUS);
            assert_eq!(recovered[i], want, "pos {pos} coeff {i}");
        }
    }
}

#[test]
fn digest_lanes_reconstruct_too() {
    let mut rng = ChaCha20Rng::from_seed([21u8; 32]);
    let params = RsParams::new(2, 4);
    let ct = rand_share(&mut rng, 3);
    let shares = Rs::encode(&params, &ct);
    let samples: Vec<(usize, &[DgtNTTPoly])> =
        [3usize, 1].iter().map(|&j| (j, shares[j].as_slice())).collect();
    assert_eq!(Rs::reconstruct(&params, 3, &samples).unwrap(), ct);
}

fn rand_ctxts(rng: &mut ChaCha20Rng, rho: usize, ell: usize) -> Vec<Vec<KahePoly>> {
    (0..rho).map(|_| (0..ell).map(|_| KahePoly::rand_poly(rng)).collect()).collect()
}

fn sum_ntt(cs: &[Vec<DgtNTTPoly>]) -> Vec<DgtNTTPoly> {
    let ell = cs[0].len();
    (0..ell).map(|j| cs.iter().fold(DgtNTTPoly::default(), |acc, c| acc + c[j])).collect()
}

#[test]
fn reduces_back_to_the_kahe_sum() {
    let mut rng = ChaCha20Rng::from_seed([11u8; 32]);
    let (rho, ell) = (300, 3);
    let cts = rand_ctxts(&mut rng, rho, ell);
    let summed = sum_ntt(&cts.iter().map(|c| embed(c)).collect::<Vec<_>>());
    let centered = centered_within_bound(rho, &summed).expect("within bound");
    let got = to_kahe(&centered);

    for j in 0..ell {
        let want = cts.iter().fold(KahePoly::default(), |acc, c| acc + c[j]);
        let (mut a, mut b) = (got[j], want);
        a.normalize();
        b.normalize();
        assert_eq!(a, b, "poly {j}");
    }
}

#[test]
fn rejects_a_sum_past_the_norm_bound() {
    let mut rng = ChaCha20Rng::from_seed([12u8; 32]);
    let cts = rand_ctxts(&mut rng, 40, 2);
    let summed = sum_ntt(&cts.iter().map(|c| embed(c)).collect::<Vec<_>>());
    assert!(centered_within_bound(4, &summed).is_none());
}

#[test]
fn decompose_project_round_trip() {
    let mut rng = ChaCha20Rng::from_seed([1u8; 32]);
    for _ in 0..8 {
        let p = DgtNTTPoly::rand_ntt_poly(&mut rng);
        let digits = decompose_share_poly(&p);
        assert!(digits.iter().all(|d| d.infinity_norm() <= ZETA));
        assert_eq!(project_share_poly(&digits), p);
    }
    let embedded = DgtNTTPoly::from_kahe(&KahePoly::rand_poly(&mut rng));
    assert_eq!(project_share_poly(&decompose_share_poly(&embedded)), embedded);
}

#[test]
fn projection_is_linear_and_i128_safe() {
    let mut rng = ChaCha20Rng::from_seed([2u8; 32]);
    let rho = 300;
    let polys: Vec<DgtNTTPoly> = (0..rho).map(|_| DgtNTTPoly::rand_ntt_poly(&mut rng)).collect();
    let mut digit_sum = vec![HVCPoly::default(); DGT_WIDTH];
    for p in &polys {
        for (acc, d) in digit_sum.iter_mut().zip(decompose_share_poly(p)) {
            *acc = *acc + d;
        }
    }
    assert!(digit_sum.iter().all(|d| d.infinity_norm() <= rho as u32 * ZETA));
    let want = polys.iter().skip(1).fold(polys[0], |acc, p| acc + *p);
    assert_eq!(project_share_poly(&digit_sum), want);

    let hi = HVCPoly::from_coeffs([10_200i32; N]);
    let lo = HVCPoly::from_coeffs([-10_200i32; N]);
    let extreme: Vec<HVCPoly> =
        (0..DGT_WIDTH).map(|w| if w % 2 == 0 { hi } else { lo }).collect();
    let mut acc: i128 = extreme[DGT_WIDTH - 1].coeffs()[0] as i128;
    for d in extreme.iter().rev().skip(1) {
        acc = acc * BASE as i128 + d.coeffs()[0] as i128;
    }
    let want = acc.rem_euclid(DGT_MODULUS as i128) as u64;
    assert_eq!(project_share_poly(&extreme).coeffs()[0], want);
}

#[test]
fn commit_verify_fresh_per_lane() {
    let mut rng = ChaCha20Rng::from_seed([3u8; 32]);
    for n_lanes in [2usize, 5, 6, 16] {
        let block_len = 3;
        let pp = params(block_len, n_lanes, 300);
        let shares: Vec<Share> = (0..n_lanes).map(|_| rand_share(&mut rng, block_len)).collect();
        let (root, paths) = commit_shares(&pp, &shares);
        for j in 0..n_lanes {
            assert!(
                ingest_share(&pp, &root, j, &shares[j], &paths[j]).is_some(),
                "n_lanes={n_lanes} lane={j}"
            );
        }
        if n_lanes >= 2 {
            assert!(ingest_share(&pp, &root, 1, &shares[0], &paths[0]).is_none());
            let mut bad_share = shares[0].clone();
            bad_share[0] = bad_share[0] + shares[1][0];
            assert!(ingest_share(&pp, &root, 0, &bad_share, &paths[0]).is_none());
            let mut bad_path = paths[0].clone();
            let mut c = *bad_path.nodes[0].coeffs();
            c[0] += 1;
            bad_path.nodes[0] = HVCPoly::from_coeffs(c);
            assert!(ingest_share(&pp, &root, 0, &shares[0], &bad_path).is_none());
        }
    }
}

#[test]
fn sum_of_openings_verifies_against_summed_roots() {
    let mut rng = ChaCha20Rng::from_seed([4u8; 32]);
    let (rho, block_len, n_lanes) = (20usize, 4usize, 16usize);
    let pp = params(block_len, n_lanes, 300);
    let rs = RsParams::new(14, n_lanes);

    let mut roots = Vec::with_capacity(rho);
    let mut per_lane: Vec<Vec<ShareOpening>> = (0..n_lanes).map(|_| Vec::new()).collect();
    let mut raw_shares: Vec<Vec<Share>> = (0..n_lanes).map(|_| Vec::new()).collect();
    for _ in 0..rho {
        let ctxt = rand_share(&mut rng, 56);
        let shares = Rs::encode(&rs, &ctxt);
        assert_eq!(shares[0].len(), block_len);
        let (root, paths) = commit_shares(&pp, &shares);
        for j in 0..n_lanes {
            let o = ingest_share(&pp, &root, j, &shares[j], &paths[j]).expect("honest share");
            per_lane[j].push(o);
            raw_shares[j].push(shares[j].clone());
        }
        roots.push(root);
    }
    let summed_root = roots.iter().skip(1).fold(roots[0], |acc, r| acc + *r);

    for j in 0..n_lanes {
        let refs: Vec<&ShareOpening> = per_lane[j].iter().collect();
        let agg = sum_openings(&refs);
        let share_refs: Vec<&[DgtNTTPoly]> = raw_shares[j].iter().map(|s| s.as_slice()).collect();
        let share_sum = Rs::sum_shares(&share_refs);
        assert!(verify_aggregated(&pp, &summed_root, &share_sum, &agg), "lane {j}");
        let mut bad = share_sum.clone();
        bad[0] = bad[0] + share_sum[0];
        assert!(!verify_aggregated(&pp, &summed_root, &bad, &agg));
    }
}

#[test]
fn out_of_range_digit_with_identical_hash_is_rejected() {
    let mut rng = ChaCha20Rng::from_seed([5u8; 32]);
    let (block_len, n_lanes) = (3usize, 16usize);
    let pp = params(block_len, n_lanes, 300);
    let shares: Vec<Share> = (0..n_lanes).map(|_| rand_share(&mut rng, block_len)).collect();
    let (root, paths) = commit_shares(&pp, &shares);
    let mut o = ingest_share(&pp, &root, 0, &shares[0], &paths[0]).unwrap();
    assert!(verify_aggregated(&pp, &root, &shares[0], &o));

    let before = o.project_labels();
    let mut c = *o.data[0].coeffs();
    c[0] -= HVC_MODULUS;
    o.data[0] = HVCPoly::from_coeffs(c);
    assert!(!verify_aggregated(&pp, &root, &shares[0], &o));
    assert_ne!(o.project_labels(), before);
}

#[test]
fn share_commitment_leaf_hash_is_linear() {
    let mut rng = ChaCha20Rng::from_seed([6u8; 32]);
    let pp = params(2, 4, 300);
    let a = label_digits(&pp.hash_share(&rand_share(&mut rng, 2)));
    let b = label_digits(&pp.hash_share(&rand_share(&mut rng, 2)));
    let sum: Vec<HVCPoly> = a.iter().zip(b.iter()).map(|(x, y)| *x + *y).collect();
    let hash = |u: &[HVCPoly]| panetiere::hvc::hvc_dot(&pp.leaf_key, u);
    assert_eq!(hash(&sum), hash(&a) + hash(&b));
}

#[test]
fn share_hash_is_linear() {
    let mut rng = ChaCha20Rng::from_seed([8u8; 32]);
    let pp = params(4, 16, 300);
    let a = rand_share(&mut rng, 4);
    let b = rand_share(&mut rng, 4);
    let sum: Share = a.iter().zip(b.iter()).map(|(x, y)| *x + *y).collect();
    let want: Vec<DgtNTTPoly> = pp
        .hash_share(&a)
        .iter()
        .zip(pp.hash_share(&b).iter())
        .map(|(x, y)| *x + *y)
        .collect();
    assert_eq!(pp.hash_share(&sum), want);
}

#[test]
fn setup_limits_are_checked() {
    assert_eq!(check_setup(4, 16, 300), None);
    assert_eq!(check_setup(4, 16, 1 << 20), Some(ShareSetupError::ExceedsDigestRing));
    assert_eq!(check_setup(4, 16, 603), Some(ShareSetupError::ExceedsDigitBudget));
}

#[test]
fn equal_seeds_give_equal_parameters() {
    let mut rng = ChaCha20Rng::from_seed([9u8; 32]);
    let share = rand_share(&mut rng, 3);
    let (a, b) = (params(3, 4, 300), params(3, 4, 300));
    assert_eq!(a.hash_share(&share), b.hash_share(&share));
}

#[test]
fn keys_are_drawn_under_a_masked_seed() {
    let masked = key_seed([7u8; 32]);
    assert_eq!(masked[0], 0xC7);
    assert_eq!(masked[1..], [7u8; 31]);
    assert_eq!(key_seed(masked), [7u8; 32]);
}

#[test]
fn keys_are_the_draws_of_the_masked_seed() {
    let (block_len, n_lanes) = (2, 3);
    let pp = ShareCommitmentParams::from_seed([7u8; 32], block_len, n_lanes, 20);
    let mut rng = ChaCha20Rng::from_seed(key_seed([7u8; 32]));
    for row in &pp.a_rows {
        assert_eq!(row.len(), block_len);
        for p in row {
            assert_eq!(p.coeffs, DgtNTTPoly::rand_ntt_poly(&mut rng).coeffs);
        }
    }
    for key in pp.leaf_key.iter().chain(&pp.hasher.keys) {
        assert_eq!(key.coeffs(), HVCPoly::rand_poly(&mut rng).coeffs());
    }
}

#[test]
fn the_values_of_a_constant_are_all_equal() {
    let mut coeffs = [0i64; N];
    coeffs[0] = -3;
    let p = KahePoly::from_coeffs(coeffs);
    assert_eq!(DgtNTTPoly::from_kahe(&p).coeffs, [DGT_MODULUS - 3; N]);
    let two = RsNTTPoly::from_kahe(&p);
    assert_eq!(two.first, [RS_MODULUS_0 - 3; N]);
    assert_eq!(two.to_centered_coeffs(), coeffs);
    let back = DgtNTTPoly::from_raw(&[3u64; N]).to_centered_coeffs();
    assert_eq!(back[0], 3);
    assert!(back[1..].iter().all(|&c| c == 0));
}

#[test]
fn the_values_of_a_monomial_are_distinct_roots() {
    let mut coeffs = [0i64; N];
    coeffs[1] = 1;
    let values = DgtNTTPoly::from_kahe(&KahePoly::from_coeffs(coeffs)).coeffs;
    let q = DGT_MODULUS as u128;
    for v in values {
        let mut x = v as u128;
        for _ in 0..11 {
            x = x * x % q;
        }
        assert_eq!(x, q - 1);
    }
    let mut sorted = values.to_vec();
    sorted.sort();
    sorted.dedup();
    assert_eq!(sorted.len(), N);
}
