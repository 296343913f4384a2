use panetiere::bulletin::{ClientBulletinEntry, InMemoryBulletin, RsClientBulletinEntry};
use panetiere::cs::Commitment;
use panetiere::pke::{decrypt, encrypt, PkeError, PrivateKey, PublicKey, SEAL_OVERHEAD};
use panetiere::protocol::{opening_aad, ClientId, ServerId, SessionId};
use panetiere::rings::HVC_MODULUS;
use panetiere::sig::{SigError, SigningKey, VerifyingKey};
use panetiere::{HVCPoly, KahePoly, N};
use rand::SeedableRng;
use rand_chacha::ChaCha20Rng;

#[test]
fn roundtrip_tamper_and_wrong_key() {
    let mut rng = ChaCha20Rng::from_seed([7u8; 32]);
    let sk = PrivateKey::generate(&mut rng);
    let pk = sk.public();

    let sealed = encrypt(&mut rng, &pk, b"hello panetiere", b"ctx");
    assert_eq!(sealed.len(), b"hello panetiere".len() + SEAL_OVERHEAD);
    assert_eq!(decrypt(&sk, &sealed, b"ctx").unwrap(), b"hello panetiere");

    let mut tampered = sealed.clone();
    *tampered.last_mut().unwrap() ^= 1;
    assert_eq!(decrypt(&sk, &tampered, b"ctx"), Err(PkeError::Aead));

    let other = PrivateKey::generate(&mut rng);
    assert_eq!(decrypt(&other, &sealed, b"ctx"), Err(PkeError::Aead));

    let re = PrivateKey::from_bytes(&sk.to_bytes()).unwrap();
    assert_eq!(decrypt(&re, &sealed, b"ctx").unwrap(), b"hello panetiere");
    let re_pk = PublicKey::from_sec1_bytes(&pk.to_sec1_bytes()).unwrap();
    assert_eq!(re_pk, pk);
}

#[test]
fn wrong_aad_rejected() {
    let mut rng = ChaCha20Rng::from_seed([19u8; 32]);
    let sk = PrivateKey::generate(&mut rng);
    let pk = sk.public();

    let aad = b"panetiere/opening/v1:sid=1,client=2,server=3";
    let sealed = encrypt(&mut rng, &pk, b"opening bytes", aad);
    assert_eq!(decrypt(&sk, &sealed, aad).unwrap(), b"opening bytes");

    for i in 0..aad.len() {
        let mut other = aad.to_vec();
        other[i] ^= 1;
        assert_eq!(decrypt(&sk, &sealed, &other), Err(PkeError::Aead));
    }
    assert_eq!(decrypt(&sk, &sealed, b""), Err(PkeError::Aead));
    let bare = encrypt(&mut rng, &pk, b"opening bytes", b"");
    assert_eq!(decrypt(&sk, &bare, b"").unwrap(), b"opening bytes");
    assert_eq!(decrypt(&sk, &bare, aad), Err(PkeError::Aead));
}

#[test]
fn envelopes_and_keys_are_checked() {
    let mut rng = ChaCha20Rng::from_seed([20u8; 32]);
    let sk = PrivateKey::generate(&mut rng);
    assert_eq!(decrypt(&sk, &[0u8; SEAL_OVERHEAD - 1], b""), Err(PkeError::TooShort));
    assert_eq!(decrypt(&sk, &[0u8; SEAL_OVERHEAD], b""), Err(PkeError::BadKey));
    assert_eq!(PrivateKey::from_bytes(&[0u8; 32]).err(), Some(PkeError::BadKey));
    assert_eq!(PrivateKey::from_bytes(&[1u8; 23]).err(), Some(PkeError::BadKey));
    assert_eq!(PublicKey::from_sec1_bytes(&[4u8; 65]).err(), Some(PkeError::BadKey));
    let sealed = encrypt(&mut rng, &sk.public(), b"plain", b"");
    assert!(!sealed.windows(5).any(|w| w == b"plain"));
}

#[test]
fn a_known_scalar_has_the_known_point() {
    let mut one = [0u8; 32];
    one[31] = 1;
    let public = PrivateKey::from_bytes(&one).unwrap().public();
    let point = public.to_sec1_bytes();
    assert_eq!(point.len(), 65);
    assert_eq!(&point[..5], &[0x04, 0x6b, 0x17, 0xd1, 0xf2]);
    assert_eq!(&point[61..], &[0x37, 0xbf, 0x51, 0xf5]);
}

#[test]
fn sig_round_trip() {
    let mut rng = ChaCha20Rng::from_seed([5u8; 32]);
    let sk = SigningKey::generate(&mut rng);
    let vk = sk.verifying_key();
    let msg = b"panetiere/rs/v1 payload";
    let sig = sk.sign(msg);
    assert!(vk.verify(msg, &sig).is_ok());
    assert_eq!(vk.verify(b"other", &sig), Err(SigError::BadSignature));

    let encoded = vk.to_sec1_bytes();
    let back = VerifyingKey::from_sec1_bytes(&encoded).unwrap();
    assert_eq!(back, vk);
    assert!(back.verify(msg, &sig).is_ok());
}

#[test]
fn rejects_another_signer() {
    let mut rng = ChaCha20Rng::from_seed([6u8; 32]);
    let a = SigningKey::generate(&mut rng);
    let b = SigningKey::generate(&mut rng);
    let msg = b"bulletin post";
    assert_eq!(b.verifying_key().verify(msg, &a.sign(msg)), Err(SigError::BadSignature));
}

#[test]
fn verifying_keys_are_checked() {
    assert_eq!(VerifyingKey::from_sec1_bytes(&[9u8; 33]).err(), Some(SigError::BadKey));
}

#[test]
fn client_bulletin_entry_round_trip() {
    let mut rng = ChaCha20Rng::from_seed([3u8; 32]);
    for mu_kahe in [1usize, 2, 4] {
        let ctxt: Vec<KahePoly> = (0..mu_kahe).map(|_| KahePoly::rand_poly(&mut rng)).collect();
        let entry = ClientBulletinEntry {
            ctxt,
            comm: Commitment { root: HVCPoly::rand_poly(&mut rng) },
        };
        let bytes = entry.to_bytes();
        assert_eq!(bytes.len(), ClientBulletinEntry::packed_len(mu_kahe));
        let back = ClientBulletinEntry::from_bytes(&bytes).unwrap();
        assert_eq!(back.ctxt, entry.ctxt);
        assert_eq!(back.comm.root, entry.comm.root);
    }
    assert!(ClientBulletinEntry::from_bytes(&[0u8]).is_none());
}

#[test]
fn sharded_entry_round_trip() {
    let mut rng = ChaCha20Rng::from_seed([33u8; 32]);
    let sk = SigningKey::generate(&mut rng);
    let comm = Commitment { root: HVCPoly::rand_poly(&mut rng) };
    let share_root = HVCPoly::rand_poly(&mut rng);
    let sid = SessionId([8u8; 32]);
    let msg = RsClientBulletinEntry::signing_bytes(&sid, ClientId(4), &comm, &share_root);
    let entry = RsClientBulletinEntry {
        comm,
        share_root,
        pubkey: sk.verifying_key().to_sec1_bytes(),
        sig: sk.sign(&msg),
    };
    let bytes = entry.to_bytes();
    assert_eq!(bytes.len(), RsClientBulletinEntry::packed_len());
    let back = RsClientBulletinEntry::from_bytes(&bytes).unwrap();
    assert_eq!(back.comm.root, entry.comm.root);
    assert_eq!(back.share_root, entry.share_root);
    assert_eq!(back.pubkey, entry.pubkey);
    assert_eq!(back.sig, entry.sig);
    assert!(RsClientBulletinEntry::from_bytes(&bytes[1..]).is_none());
}

#[test]
fn the_board_keeps_posts_in_order() {
    let mut board = InMemoryBulletin::new();
    assert!(board.canonical().is_none());
    for i in 0..3u32 {
        board.publish_client(
            ClientId(i),
            ClientBulletinEntry { ctxt: vec![], comm: Commitment { root: HVCPoly::default() } },
        );
    }
    board.publish_canonical(vec![ClientId(2), ClientId(0)]);
    let ids: Vec<u32> = board.clients().iter().map(|(id, _)| id.0).collect();
    assert_eq!(ids, vec![0, 1, 2]);
    assert_eq!(board.canonical(), Some(vec![ClientId(2), ClientId(0)]));
    assert_eq!(board.servers().len(), 0);
}

#[test]
fn contexts_name_session_client_and_server() {
    let aad = opening_aad(&SessionId([9u8; 32]), ClientId(1), ServerId(258));
    assert_eq!(&aad[..20], b"panetiere/opening/v1");
    assert_eq!(&aad[20..52], &[9u8; 32]);
    assert_eq!(&aad[52..], &[1, 0, 0, 0, 2, 1, 0, 0]);
}

#[test]
fn posts_out_of_range_are_told() {
    let mut entry = ClientBulletinEntry {
        ctxt: vec![KahePoly::default()],
        comm: Commitment { root: HVCPoly::default() },
    };
    assert!(entry.check_fits());
    let mut coeffs = [0i64; N];
    coeffs[3] = -panetiere::KAHE_MODULUS;
    entry.ctxt[0] = KahePoly::from_coeffs(coeffs);
    assert!(entry.check_fits());
    coeffs[3] = panetiere::KAHE_MODULUS + 1;
    entry.ctxt[0] = KahePoly::from_coeffs(coeffs);
    assert!(!entry.check_fits());
    let mut root = [0i32; N];
    root[9] = HVC_MODULUS + 1;
    entry.ctxt.clear();
    entry.comm.root = HVCPoly::from_coeffs(root);
    assert!(!entry.check_fits());
    let mut rng = ChaCha20Rng::from_seed([34u8; 32]);
    let sk = SigningKey::generate(&mut rng);
    let mut post = RsClientBulletinEntry {
        comm: Commitment { root: HVCPoly::rand_poly(&mut rng) },
        share_root: HVCPoly::rand_poly(&mut rng),
        pubkey: sk.verifying_key().to_sec1_bytes(),
        sig: sk.sign(b"post"),
    };
    assert!(post.check_fits());
    post.share_root = HVCPoly::from_coeffs(root);
    assert!(!post.check_fits());
}
