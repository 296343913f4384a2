use panetiere::channel::{cover, decode_messages, encode_message, ChannelError, ChannelParams};
use panetiere::protocol::message_polys;
use panetiere::KahePoly;
use rand::SeedableRng;
use rand_chacha::ChaCha20Rng;

fn variants(rho: u32, bytes: usize) -> Vec<ChannelParams> {
    vec![
        ChannelParams::for_messages(rho, bytes, [0x5C; 32]),
        ChannelParams::prony_for_messages(rho, bytes),
    ]
}

fn sum(polys: &[Vec<KahePoly>]) -> Vec<KahePoly> {
    let mut acc = polys[0].clone();
    for p in &polys[1..] {
        for (a, b) in acc.iter_mut().zip(p) {
            *a = *a + *b;
        }
    }
    acc
}

#[test]
fn round_trip_at_capacity() {
    for p in variants(8, 64) {
        let mut rng = ChaCha20Rng::from_seed([1u8; 32]);
        assert_eq!(p.max_payload_bytes(), 64);

        let payloads: Vec<Vec<u8>> = (0..8u8)
            .map(|i| (0..64).map(|j| i.wrapping_mul(31).wrapping_add(j)).collect())
            .collect();
        let contributions: Vec<Vec<KahePoly>> =
            payloads.iter().map(|m| encode_message(&mut rng, &p, m).unwrap()).collect();

        let mut got = decode_messages(&p, &sum(&contributions), Some(8)).unwrap();
        let mut want = payloads;
        got.sort();
        want.sort();
        assert_eq!(got, want, "{p:?}");
    }
}

#[test]
fn payload_one_byte_over_capacity_rejected() {
    for p in variants(8, 64) {
        let mut rng = ChaCha20Rng::from_seed([2u8; 32]);
        let max = p.max_payload_bytes();
        assert!(encode_message(&mut rng, &p, &vec![7u8; max]).is_ok());
        assert_eq!(
            encode_message(&mut rng, &p, &vec![7u8; max + 1]),
            Err(ChannelError::PayloadTooLong { got: max + 1, max })
        );
    }
}

#[test]
fn cover_only_round_decodes_empty() {
    for p in variants(8, 32) {
        let covers: Vec<Vec<KahePoly>> = (0..8).map(|_| cover(&p)).collect();
        assert_eq!(decode_messages(&p, &sum(&covers), Some(0)).unwrap().len(), 0, "{p:?}");
    }
}

#[test]
fn oversubscribed_fails_loudly() {
    for p in variants(4, 16) {
        let mut rng = ChaCha20Rng::from_seed([3u8; 32]);
        let contributions: Vec<Vec<KahePoly>> = (0..40u8)
            .map(|i| encode_message(&mut rng, &p, &[i, i, i, i]).unwrap())
            .collect();
        assert!(decode_messages(&p, &sum(&contributions), None).is_err(), "{p:?}");
    }
}

#[test]
fn count_mismatch_reported() {
    for p in variants(8, 16) {
        let mut rng = ChaCha20Rng::from_seed([4u8; 32]);
        let contributions: Vec<Vec<KahePoly>> =
            (0..3u8).map(|i| encode_message(&mut rng, &p, &[i; 4]).unwrap()).collect();
        let plain = sum(&contributions);
        assert!(decode_messages(&p, &plain, Some(3)).is_ok(), "{p:?}");
        assert_eq!(
            decode_messages(&p, &plain, Some(5)),
            Err(ChannelError::CountMismatch { got: 3, expected: 5 })
        );
    }
}

#[test]
fn short_plaintext_reported() {
    for p in variants(8, 16) {
        let need = p.n_polys();
        assert_eq!(
            decode_messages(&p, &vec![KahePoly::default(); need - 1], None),
            Err(ChannelError::ShortPlaintext { got: need - 1, need })
        );
    }
}

#[test]
fn protocol_params_width_matches_encoding() {
    for p in variants(16, 128) {
        let mut rng = ChaCha20Rng::from_seed([5u8; 32]);
        let pp = p.protocol_params(&mut rng, 4);
        assert_eq!(message_polys(&pp), p.n_polys(), "{p:?}");
    }
}

#[test]
fn sketch_is_smaller_than_peeling() {
    let v = variants(300, 16 * 1024);
    assert!(v[1].n_polys() * 2 < v[0].n_polys(), "{:?}", v[1].n_polys());
}

#[test]
fn a_short_message_comes_back_filled_with_zeros() {
    for p in variants(2, 8) {
        let mut rng = ChaCha20Rng::from_seed([6u8; 32]);
        let polys = encode_message(&mut rng, &p, b"abc").unwrap();
        assert_eq!(decode_messages(&p, &polys, Some(1)).unwrap(), vec![b"abc\0\0\0\0\0".to_vec()]);
    }
}
