use panetiere::kahe::{
    kahe_to_cs_centered, lift_cs_to_kahe, poly_mod_t, Kahe, KaheAggKey, KaheKey, KaheParams,
    T_MODULUS_DEFAULT,
};
use panetiere::rings::mul_kahe;
use panetiere::sss::{ShamirParams, ShamirSharing};
use panetiere::{CsPoly, KaheNTTPoly, KahePoly, N};
use rand::{Rng, SeedableRng};
use rand_chacha::ChaCha20Rng;
use rand_distr::{Distribution, Normal};

const SIGMA: f64 = 15.72;

fn gaussian_poly(rng: &mut ChaCha20Rng) -> KahePoly {
    let normal = Normal::new(0.0, SIGMA).unwrap();
    let tail = (8.0 * SIGMA).ceil() as i64;
    let mut coeffs = [0i64; N];
    for c in coeffs.iter_mut() {
        *c = loop {
            let x = normal.sample(rng).round() as i64;
            if x.abs() <= tail {
                break x;
            }
        };
    }
    KahePoly::from_coeffs(coeffs)
}

fn gen(rng: &mut ChaCha20Rng) -> KaheKey {
    KaheKey(gaussian_poly(rng))
}

fn enc(rng: &mut ChaCha20Rng, pp: &KaheParams, k: &KaheKey, m: &[KahePoly]) -> Vec<KahePoly> {
    let errors: Vec<KahePoly> = m.iter().map(|_| gaussian_poly(rng)).collect();
    Kahe::enc(pp, k, m, &errors)
}

fn rand_message_poly(rng: &mut ChaCha20Rng, t: u64) -> KahePoly {
    let half = (t / 2) as i64;
    let mut coeffs = [0i64; N];
    for c in coeffs.iter_mut() {
        *c = rng.gen_range(0..t) as i64 - half;
    }
    KahePoly::from_coeffs(coeffs)
}

fn messages(rng: &mut ChaCha20Rng, n: usize, t: u64) -> Vec<KahePoly> {
    (0..n).map(|_| rand_message_poly(rng, t)).collect()
}

fn sum_decrypts(rng: &mut ChaCha20Rng, pp: &KaheParams, n: usize) {
    let keys: Vec<KaheKey> = (0..n).map(|_| gen(rng)).collect();
    let msgs: Vec<Vec<KahePoly>> =
        (0..n).map(|_| messages(rng, pp.mu_kahe, pp.t_modulus)).collect();
    let ctxts: Vec<Vec<KahePoly>> =
        keys.iter().zip(&msgs).map(|(k, m)| enc(rng, pp, k, m)).collect();
    let agg_c = Kahe::agg_ctxt(&ctxts);
    let agg_k = Kahe::agg_key(&keys);
    let expected: Vec<KahePoly> = (0..pp.mu_kahe)
        .map(|i| {
            let summed = msgs.iter().fold(KahePoly::default(), |a, x| a + x[i]);
            poly_mod_t(&summed, pp.t_modulus)
        })
        .collect();
    assert_eq!(Kahe::dec(pp, &agg_c, &agg_k), expected);
}

#[test]
fn kahe_round_trip() {
    let mut rng = ChaCha20Rng::from_seed([7u8; 32]);
    let pp = Kahe::setup(&mut rng);
    let k = gen(&mut rng);
    let m = messages(&mut rng, pp.mu_kahe, pp.t_modulus);
    let c = enc(&mut rng, &pp, &k, &m);
    let agg = Kahe::agg_key(std::slice::from_ref(&k));
    assert_eq!(Kahe::dec(&pp, &c, &agg), m);
}

#[test]
fn additive_homomorphism() {
    let mut rng = ChaCha20Rng::from_seed([11u8; 32]);
    let pp = Kahe::setup(&mut rng);
    sum_decrypts(&mut rng, &pp, 5);
}

#[test]
fn shamir_recovered_agg_key_round_trip() {
    let mut rng = ChaCha20Rng::from_seed([23u8; 32]);
    let pp = Kahe::setup(&mut rng);
    let n_servers = 4;
    let t = 3;
    let shamir = ShamirParams::new(t, n_servers);
    let k = gen(&mut rng);

    let secret_cs = kahe_to_cs_centered(k.inner());
    let shares = ShamirSharing::share(&mut rng, &shamir, &secret_cs);
    let samples: Vec<(usize, CsPoly)> = (0..t).map(|i| (i, shares[i])).collect();
    let recovered_cs = ShamirSharing::recover(&shamir, &samples).unwrap();
    let agg = KaheAggKey::from_component(lift_cs_to_kahe(&recovered_cs));

    let m = messages(&mut rng, pp.mu_kahe, pp.t_modulus);
    let c = enc(&mut rng, &pp, &k, &m);
    assert_eq!(Kahe::dec(&pp, &c, &agg), m);
}

#[test]
fn aggregate_200_decrypts() {
    let mut rng = ChaCha20Rng::from_seed([29u8; 32]);
    let pp = Kahe::setup(&mut rng);
    sum_decrypts(&mut rng, &pp, 200);
}

#[test]
fn round_trip_wide_mu() {
    let mut rng = ChaCha20Rng::from_seed([13u8; 32]);
    let pp = Kahe::setup_with_dims(&mut rng, 20, T_MODULUS_DEFAULT);
    let k = gen(&mut rng);
    let m = messages(&mut rng, pp.mu_kahe, pp.t_modulus);
    let c = enc(&mut rng, &pp, &k, &m);
    assert_eq!(c.len(), pp.mu_kahe);
    let agg = Kahe::agg_key(std::slice::from_ref(&k));
    assert_eq!(Kahe::dec(&pp, &c, &agg), m);
}

#[test]
fn round_trip_partial_width() {
    let mut rng = ChaCha20Rng::from_seed([19u8; 32]);
    let pp = Kahe::setup_with_dims(&mut rng, 20, T_MODULUS_DEFAULT);
    let k = gen(&mut rng);
    let m = messages(&mut rng, 13, pp.t_modulus);
    let c = enc(&mut rng, &pp, &k, &m);
    assert_eq!(c.len(), 13);
    let agg = Kahe::agg_key(std::slice::from_ref(&k));
    assert_eq!(Kahe::dec(&pp, &c, &agg), m);
}

#[test]
fn additive_homomorphism_wide_mu() {
    let mut rng = ChaCha20Rng::from_seed([17u8; 32]);
    let pp = Kahe::setup_with_dims(&mut rng, 12, T_MODULUS_DEFAULT);
    sum_decrypts(&mut rng, &pp, 5);
}

#[test]
fn bridge_round_trip_small_values() {
    let mut rng = ChaCha20Rng::from_seed([41u8; 32]);
    for _ in 0..50 {
        let mut coeffs = [0i32; N];
        for c in coeffs.iter_mut() {
            *c = rng.gen_range(-3600i32..=3600);
        }
        let cs = CsPoly::from_coeffs(coeffs);
        let kahe = lift_cs_to_kahe(&cs);
        for (a, b) in cs.coeffs().iter().zip(kahe.coeffs().iter()) {
            assert_eq!(*a as i64, *b);
        }
        let back = kahe_to_cs_centered(&kahe);
        for (a, b) in cs.coeffs().iter().zip(back.coeffs().iter()) {
            assert_eq!(*a, *b);
        }
    }
}

#[test]
fn plaintexts_reduce_to_half_open_representatives() {
    let mut coeffs = [0i64; N];
    coeffs[0] = 5;
    coeffs[1] = 8;
    coeffs[2] = -9;
    let r = poly_mod_t(&KahePoly::from_coeffs(coeffs), 16);
    assert_eq!(&r.coeffs()[..3], &[5, -8, 7]);
}

#[test]
fn products_wrap_with_a_sign() {
    let q = panetiere::KAHE_MODULUS;
    let mut top = [0i64; N];
    top[N - 1] = 1;
    let mut x = [0i64; N];
    x[1] = 1;
    let p = KahePoly::schoolbook(&KahePoly::from_coeffs(top), &KahePoly::from_coeffs(x));
    assert_eq!(p.coeffs()[0], q - 1);
    assert!(p.coeffs()[1..].iter().all(|&c| c == 0));
}

#[test]
fn products_take_any_word() {
    let q = panetiere::KAHE_MODULUS as i128;
    let (mut a, mut b) = ([0i64; N], [0i64; N]);
    a[0] = i64::MIN;
    b[0] = i64::MAX;
    b[5] = -3;
    let p = KahePoly::schoolbook(&KahePoly::from_coeffs(a), &KahePoly::from_coeffs(b));
    let min = i64::MIN as i128;
    assert_eq!(p.coeffs()[0] as i128, (min * i64::MAX as i128).rem_euclid(q));
    assert_eq!(p.coeffs()[5] as i128, (min * -3).rem_euclid(q));
}

#[test]
fn products_of_values_are_values_of_products() {
    let mut rng = ChaCha20Rng::from_seed([43u8; 32]);
    let (a, b) = (KahePoly::rand_poly(&mut rng), KahePoly::rand_poly(&mut rng));
    let (x, y) = (KaheNTTPoly::from_poly(&a), KaheNTTPoly::from_poly(&b));
    let q = panetiere::KAHE_MODULUS as u128;
    let product = mul_kahe(&x, &y);
    for i in 0..N {
        assert_eq!(product.coeffs[i] as u128, x.coeffs[i] as u128 * y.coeffs[i] as u128 % q);
    }
    let exact = KahePoly::schoolbook(&a, &b);
    for (c, d) in product.to_poly().coeffs().iter().zip(exact.coeffs()) {
        assert_eq!(c.rem_euclid(q as i64), *d);
    }
    let sum = (x + y).to_poly();
    let gap = (x - y).to_poly();
    for i in 0..N {
        let (s, d) = (a.coeffs()[i] + b.coeffs()[i], a.coeffs()[i] - b.coeffs()[i]);
        assert_eq!(sum.coeffs()[i].rem_euclid(q as i64), s.rem_euclid(q as i64));
        assert_eq!(gap.coeffs()[i].rem_euclid(q as i64), d.rem_euclid(q as i64));
    }
}

#[test]
fn a_constant_has_one_value() {
    let mut coeffs = [0i64; N];
    coeffs[0] = -5;
    let x = KaheNTTPoly::from_poly(&KahePoly::from_coeffs(coeffs));
    assert_eq!(x.coeffs, [panetiere::KAHE_MODULUS as u64 - 5; N]);
    assert_eq!(x.to_poly().coeffs(), &coeffs);
}
