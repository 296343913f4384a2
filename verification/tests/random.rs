use panetiere::random::{residue_of, uniform_below, Stream, PERIOD};
use panetiere::rings::{DgtNTTPoly, DGT_MODULUS, HVC_MODULUS};
use panetiere::{
    CsPoly, HVCPoly, KaheNTTPoly, KahePoly, CS_MODULUS, CS_MODULUS_OVER_TWO,
    KAHE_MODULUS, KAHE_MODULUS_OVER_TWO, N,
};
use rand::{Rng, RngCore, SeedableRng};
use rand_chacha::ChaCha20Rng;

fn draws(rng: &mut ChaCha20Rng, q: u64) -> [u64; N] {
    let mut out = [0u64; N];
    for d in out.iter_mut() {
        *d = uniform_below(rng, q);
    }
    out
}

#[test]
fn words_past_the_last_multiple_are_rejected() {
    assert_eq!(residue_of(0, 10), Some(0));
    assert_eq!(residue_of(27, 10), Some(7));
    assert_eq!(residue_of(u64::MAX - 6, 10), Some(9));
    assert_eq!(residue_of(u64::MAX - 5, 10), None);
    assert_eq!(residue_of(u64::MAX, 10), None);
    assert_eq!(residue_of(u64::MAX, 1), Some(0));
    assert_eq!(residue_of(u64::MAX, 1 << 32), Some((1 << 32) - 1));
    assert_eq!(residue_of(u64::MAX - 1, u64::MAX), Some(u64::MAX - 1));
    assert_eq!(residue_of(u64::MAX, u64::MAX), None);
}

#[test]
fn the_first_word_not_rejected_gives_the_residue() {
    let q = (1u64 << 63) + 1;
    let mut rng = ChaCha20Rng::from_seed([1u8; 32]);
    let mut replay = rng.clone();
    let mut rejected = 0;
    for _ in 0..64 {
        let want = loop {
            match residue_of(replay.next_u64(), q) {
                Some(v) => break v,
                None => rejected += 1,
            }
        };
        assert_eq!(uniform_below(&mut rng, q), want);
    }
    assert!(rejected > 0);
}

#[test]
fn draws_shift_down_to_centered_coefficients() {
    let mut low = [0u64; N];
    low[1] = KAHE_MODULUS as u64 - 1;
    let p = KahePoly::from_draws(&low);
    assert_eq!(p.coeffs()[0], -KAHE_MODULUS_OVER_TWO);
    assert_eq!(p.coeffs()[1], KAHE_MODULUS_OVER_TWO);
    low[1] = CS_MODULUS as u64 - 1;
    let p = CsPoly::from_draws(&low);
    assert_eq!(p.coeffs()[0], -CS_MODULUS_OVER_TWO);
    assert_eq!(p.coeffs()[1], CS_MODULUS_OVER_TWO);
    low[1] = HVC_MODULUS as u64 - 1;
    let p = HVCPoly::from_draws(&low);
    assert_eq!(p.coeffs()[0], -20480);
    assert_eq!(p.coeffs()[1], 20480);
}

#[test]
fn random_elements_hold_their_draws_in_order() {
    let mut rng = ChaCha20Rng::from_seed([2u8; 32]);
    let mut replay = rng.clone();
    let (kahe, cs, hvc) = (KAHE_MODULUS as u64, CS_MODULUS as u64, HVC_MODULUS as u64);
    let p = KahePoly::rand_poly(&mut rng);
    assert_eq!(p.coeffs(), KahePoly::from_draws(&draws(&mut replay, kahe)).coeffs());
    let p = CsPoly::rand_poly(&mut rng);
    assert_eq!(p.coeffs(), CsPoly::from_draws(&draws(&mut replay, cs)).coeffs());
    let p = HVCPoly::rand_poly(&mut rng);
    assert_eq!(p.coeffs(), HVCPoly::from_draws(&draws(&mut replay, hvc)).coeffs());
    assert_eq!(KaheNTTPoly::rand_ntt_poly(&mut rng).coeffs, draws(&mut replay, kahe));
    assert_eq!(DgtNTTPoly::rand_ntt_poly(&mut rng).coeffs, draws(&mut replay, DGT_MODULUS));
    let p = CsPoly::rand_mod_p(&mut rng, 17);
    for c in p.coeffs() {
        assert_eq!(*c as i64, replay.gen_range(-17i64..=17));
    }
}

#[test]
fn a_stream_reads_the_words_of_its_seed() {
    let q = (1u64 << 63) + 1;
    let mut stream = Stream::new([3u8; 32]);
    let mut replay = ChaCha20Rng::from_seed([3u8; 32]);
    for _ in 0..1200 {
        assert_eq!(stream.below(q), uniform_below(&mut replay, q));
    }
    assert_eq!(stream.residues(97), draws(&mut replay, 97));
}

#[test]
fn a_stream_cycles() {
    let mut stream = Stream::new([4u8; 32]);
    stream.at = PERIOD - 2;
    let mut replay = ChaCha20Rng::from_seed([4u8; 32]);
    replay.set_word_pos(2 * (PERIOD - 2));
    for _ in 0..2 {
        assert_eq!(stream.below(1 << 32), replay.next_u64() % (1 << 32));
    }
    assert_eq!(stream.at, 0);
    let first = ChaCha20Rng::from_seed([4u8; 32]).next_u64();
    assert_eq!(replay.next_u64(), first);
    assert_eq!(stream.below(1 << 32), first % (1 << 32));
}
