use panetiere::sss::{AdditiveSharing, ShamirParams, ShamirSharing, SssError};
use panetiere::{CsPoly, CS_MODULUS};
use rand::SeedableRng;
use rand_chacha::ChaCha20Rng;

#[test]
fn sss_round_trip() {
    let mut rng = ChaCha20Rng::from_seed([3u8; 32]);
    for n in [1usize, 2, 4, 7] {
        let secret = CsPoly::rand_poly(&mut rng);
        let shares = AdditiveSharing::share(&mut rng, &secret, n);
        assert_eq!(shares.len(), n);
        assert_eq!(AdditiveSharing::recover(&shares), secret);
    }
}

#[test]
fn shamir_round_trip() {
    let mut rng = ChaCha20Rng::from_seed([7u8; 32]);
    for &(t, n) in &[(1usize, 1), (1, 4), (2, 3), (3, 5), (4, 7), (5, 7)] {
        let params = ShamirParams::new(t, n);
        let secret = CsPoly::rand_poly(&mut rng);
        let shares = ShamirSharing::share(&mut rng, &params, &secret);
        assert_eq!(shares.len(), n);
        let samples: Vec<_> = shares.iter().take(t).copied().enumerate().collect();
        assert_eq!(ShamirSharing::recover(&params, &samples).unwrap(), secret);
    }
}

#[test]
fn shamir_any_subset() {
    let mut rng = ChaCha20Rng::from_seed([11u8; 32]);
    let (t, n) = (3, 5);
    let params = ShamirParams::new(t, n);
    let secret = CsPoly::rand_poly(&mut rng);
    let shares = ShamirSharing::share(&mut rng, &params, &secret);
    for a in 0..n {
        for b in (a + 1)..n {
            for c in (b + 1)..n {
                let samples = vec![(a, shares[a]), (b, shares[b]), (c, shares[c])];
                assert_eq!(ShamirSharing::recover(&params, &samples).unwrap(), secret);
            }
        }
    }
}

#[test]
fn shamir_homomorphic_sum() {
    let mut rng = ChaCha20Rng::from_seed([13u8; 32]);
    let (t, n) = (3, 5);
    let params = ShamirParams::new(t, n);
    let secrets: Vec<CsPoly> = (0..4).map(|_| CsPoly::rand_poly(&mut rng)).collect();
    let all_shares: Vec<Vec<CsPoly>> =
        secrets.iter().map(|s| ShamirSharing::share(&mut rng, &params, s)).collect();
    let indices = [0usize, 2, 4];
    let summed: Vec<CsPoly> = indices
        .iter()
        .map(|&i| all_shares.iter().fold(CsPoly::default(), |a, sh| a + sh[i]))
        .collect();
    let samples: Vec<_> = indices.iter().copied().zip(summed.iter().copied()).collect();
    let recovered = ShamirSharing::recover(&params, &samples).unwrap();
    let expected = secrets.iter().fold(CsPoly::default(), |a, s| a + *s);
    assert_eq!(recovered, expected);
}

#[test]
fn shamir_recover_rejects_bad_samples() {
    let mut rng = ChaCha20Rng::from_seed([17u8; 32]);
    let (t, n) = (3, 5);
    let params = ShamirParams::new(t, n);
    let secret = CsPoly::rand_poly(&mut rng);
    let shares = ShamirSharing::share(&mut rng, &params, &secret);

    let dup = vec![(0, shares[0]), (0, shares[0]), (2, shares[2])];
    assert_eq!(ShamirSharing::recover(&params, &dup), Err(SssError::DuplicateIndex));

    let short = vec![(0, shares[0]), (1, shares[1])];
    assert_eq!(ShamirSharing::recover(&params, &short), Err(SssError::NotEnoughShares));

    let zero = vec![(CS_MODULUS as usize - 1, shares[0]), (1, shares[1]), (2, shares[2])];
    assert_eq!(ShamirSharing::recover(&params, &zero), Err(SssError::ZeroPoint));
}

#[test]
fn a_share_is_a_value_of_the_polynomial() {
    let mut secret = [0i32; panetiere::N];
    let mut slope = [0i32; panetiere::N];
    secret[0] = 5;
    slope[0] = 7;
    let params = ShamirParams::new(2, 3);
    let shares = ShamirSharing::share_with(
        &params,
        &CsPoly::from_coeffs(secret),
        &[CsPoly::from_coeffs(slope)],
    );
    let firsts: Vec<i32> = shares.iter().map(|s| s.coeffs()[0]).collect();
    assert_eq!(firsts, vec![12, 19, 26]);
}
