use panetiere::hvc::{sum_hvc_polys, StreamingHvcDot};
use panetiere::rings::HVC_MODULUS;
use panetiere::{HVCPoly, N};
use rand::SeedableRng;
use rand_chacha::ChaCha20Rng;

fn naive_dot(keys: &[HVCPoly], inputs: &[HVCPoly]) -> HVCPoly {
    let q = HVC_MODULUS as i64;
    let mut acc = vec![0i64; N];
    for (a, b) in keys.iter().zip(inputs) {
        for (i, &x) in a.coeffs().iter().enumerate() {
            for (j, &y) in b.coeffs().iter().enumerate() {
                let v = x as i64 * y as i64;
                if i + j < N {
                    acc[i + j] += v;
                } else {
                    acc[i + j - N] -= v;
                }
            }
        }
        for v in acc.iter_mut() {
            *v %= q;
        }
    }
    let mut out = [0i32; N];
    for (o, v) in out.iter_mut().zip(&acc) {
        *o = *v as i32;
    }
    HVCPoly::from_coeffs(out)
}

#[test]
fn streaming_hash_matches_materialized_hash() {
    for width in [6, 24, 30, 63] {
        let mut basis_rng = ChaCha20Rng::seed_from_u64(0x4856_4300 + width as u64);
        let mut input_rng = ChaCha20Rng::seed_from_u64(0x494e_5000 + width as u64);
        let streaming = StreamingHvcDot::init(&mut basis_rng, width);

        let mut reference_rng = ChaCha20Rng::seed_from_u64(0x4856_4300 + width as u64);
        let bases: Vec<_> = (0..width).map(|_| HVCPoly::rand_poly(&mut reference_rng)).collect();
        let inputs: Vec<_> = (0..width).map(|_| HVCPoly::rand_poly(&mut input_rng)).collect();
        assert_eq!(streaming.hash(&inputs), naive_dot(&bases, &inputs), "width {width}");
    }
}

#[test]
fn optimized_sum_matches_chipmunk() {
    let q = HVC_MODULUS;
    let polys: Vec<_> = (0..300)
        .map(|seed: usize| {
            HVCPoly::from_coeffs(std::array::from_fn(|i| {
                let value = ((seed * 257 + i * 17) % (2 * q as usize - 1)) as i32;
                value - (q - 1)
            }))
        })
        .collect();

    for count in [0, 1, 2, 6, 16, 100, 300] {
        let refs: Vec<_> = polys[..count].iter().collect();
        let expected = HVCPoly::from_coeffs(std::array::from_fn(|i| {
            let total: i64 = refs.iter().map(|p| p.coeffs()[i] as i64).sum();
            (total % q as i64) as i32
        }));
        let actual = sum_hvc_polys(&refs);
        assert_eq!(actual, expected, "sum differs for {count} polynomials");
        assert!(actual.coeffs().iter().all(|&x| (-q / 2..=q / 2).contains(&x)));
    }
}

#[test]
fn the_product_wraps_with_a_sign() {
    let mut a = [0i32; N];
    let mut b = [0i32; N];
    a[N - 1] = 3;
    b[2] = 5;
    let r = panetiere::hvc::hvc_dot(&[HVCPoly::from_coeffs(a)], &[HVCPoly::from_coeffs(b)]);
    assert_eq!(r.coeffs()[1], -15);
    assert_eq!(r.coeffs().iter().filter(|&&x| x != 0).count(), 1);
}
