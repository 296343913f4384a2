use panetiere::bits::bits_for_signed;
use panetiere::cs::{opening_data_polys, Commitment, HidingMerkleCommitment, LeafHash, Opening};
use panetiere::rings::{HVC_MODULUS, HVC_WIDTH, ZETA};
use panetiere::wire::{
    pack_cs_shares, poly_packed_len, unpack_cs_shares, OpeningDecodeError, PackedOpening,
    PACKED_OPENING_HEADER_LEN,
};
use panetiere::{CsPoly, HVCPoly, CS_MODULUS, N};
use rand::SeedableRng;
use rand_chacha::ChaCha20Rng;

fn rand_share_vec(rng: &mut ChaCha20Rng, mu: usize) -> Vec<CsPoly> {
    (0..mu).map(|_| CsPoly::rand_poly(rng)).collect()
}

fn rand_shares(rng: &mut ChaCha20Rng, n: usize, mu: usize) -> Vec<Vec<CsPoly>> {
    (0..n).map(|_| rand_share_vec(rng, mu)).collect()
}

#[test]
fn pack_cs_shares_round_trip() {
    let mut rng = ChaCha20Rng::from_seed([9u8; 32]);
    for count in [1usize, 3, 8] {
        let shares = rand_share_vec(&mut rng, count);
        let bytes = pack_cs_shares(&shares);
        assert_eq!(bytes.len(), count * poly_packed_len(CS_MODULUS));
        assert!(bytes.len() < count * N * 4, "tighter than 4 bytes/coeff");
        assert_eq!(unpack_cs_shares(&bytes, count).unwrap(), shares);
    }
    assert!(unpack_cs_shares(&[0u8; 3], 1).is_none());
}

#[test]
fn commitment_round_trip() {
    let mut rng = ChaCha20Rng::from_seed([10u8; 32]);
    let comm = Commitment { root: HVCPoly::rand_poly(&mut rng) };
    let bytes = comm.to_bytes();
    assert_eq!(bytes.len(), poly_packed_len(HVC_MODULUS));
    assert!(bytes.len() < N * 4);
    assert_eq!(Commitment::from_bytes(&bytes).unwrap().root, comm.root);
    assert!(Commitment::from_bytes(&[0u8; 3]).is_none());
}

#[test]
fn commit_verify_mu_1() {
    let mut rng = ChaCha20Rng::from_seed([1u8; 32]);
    for n_servers in [1usize, 2, 3, 4, 7] {
        let pp = HidingMerkleCommitment::setup(&mut rng, n_servers);
        assert_eq!(pp.mu_cs, 1);
        let shares = rand_shares(&mut rng, n_servers, pp.mu_cs);
        let (comm, openings) = HidingMerkleCommitment::commit(&mut rng, &pp, &shares);
        assert_eq!(openings.len(), n_servers);
        for o in &openings {
            assert!(HidingMerkleCommitment::verify(&pp, &comm, o));
        }
    }
}

#[test]
fn commit_verify_mu_3() {
    let mut rng = ChaCha20Rng::from_seed([10u8; 32]);
    for n_servers in [1usize, 2, 3, 5, 7] {
        let pp = HidingMerkleCommitment::setup_with_dims(&mut rng, n_servers, 3, 5);
        assert_eq!(pp.mu_cs, 3);
        assert_eq!(pp.xi(), 4);
        let shares = rand_shares(&mut rng, n_servers, pp.mu_cs);
        let (comm, openings) = HidingMerkleCommitment::commit(&mut rng, &pp, &shares);
        for o in &openings {
            assert!(
                HidingMerkleCommitment::verify(&pp, &comm, o),
                "verify failed for n_servers={}",
                n_servers
            );
        }
    }
}

#[test]
fn commit_verify_mu_4() {
    let mut rng = ChaCha20Rng::from_seed([11u8; 32]);
    let pp = HidingMerkleCommitment::setup_with_dims(&mut rng, 4, 4, 5);
    assert_eq!(pp.xi(), 5);
    let shares = rand_shares(&mut rng, 4, 4);
    let (comm, openings) = HidingMerkleCommitment::commit(&mut rng, &pp, &shares);
    for o in &openings {
        assert!(HidingMerkleCommitment::verify(&pp, &comm, o));
    }
}

#[test]
fn high_norm_r_rejected() {
    let mut rng = ChaCha20Rng::from_seed([2u8; 32]);
    let pp = HidingMerkleCommitment::setup(&mut rng, 4);
    let shares = rand_shares(&mut rng, 4, pp.mu_cs);
    let (comm, mut openings) = HidingMerkleCommitment::commit(&mut rng, &pp, &shares);
    openings[1].rs[0] = CsPoly::rand_poly(&mut rng);
    assert!(!HidingMerkleCommitment::verify(&pp, &comm, &openings[1]));
}

#[test]
fn high_norm_hvc_digit_rejected() {
    let mut rng = ChaCha20Rng::from_seed([12u8; 32]);
    let pp = HidingMerkleCommitment::setup(&mut rng, 4);
    let shares = rand_shares(&mut rng, 4, pp.mu_cs);
    let (comm, mut openings) = HidingMerkleCommitment::commit(&mut rng, &pp, &shares);
    assert!(HidingMerkleCommitment::verify(&pp, &comm, &openings[0]));
    let over = pp.beta_agg_hvc as i32 + 1;
    openings[0].data[0] = HVCPoly::from_coeffs([over; N]);
    assert!(!HidingMerkleCommitment::verify(&pp, &comm, &openings[0]));
}

#[test]
fn wrong_s_rejected() {
    let mut rng = ChaCha20Rng::from_seed([4u8; 32]);
    let pp = HidingMerkleCommitment::setup(&mut rng, 4);
    let shares = rand_shares(&mut rng, 4, pp.mu_cs);
    let (comm, mut openings) = HidingMerkleCommitment::commit(&mut rng, &pp, &shares);
    let at = openings[0].kappa_cs;
    openings[0].rs[at] = openings[0].rs[at] + CsPoly::rand_poly(&mut rng);
    assert!(!HidingMerkleCommitment::verify(&pp, &comm, &openings[0]));
}

#[test]
fn sum_homomorphism_mu_1() {
    let mut rng = ChaCha20Rng::from_seed([5u8; 32]);
    let n_servers = 4;
    let pp = HidingMerkleCommitment::setup(&mut rng, n_servers);
    let shares_a = rand_shares(&mut rng, n_servers, pp.mu_cs);
    let shares_b = rand_shares(&mut rng, n_servers, pp.mu_cs);
    let (comm_a, opens_a) = HidingMerkleCommitment::commit(&mut rng, &pp, &shares_a);
    let (comm_b, opens_b) = HidingMerkleCommitment::commit(&mut rng, &pp, &shares_b);
    let comm_sum = HidingMerkleCommitment::sum_commitments(&[comm_a, comm_b]);
    for i in 0..n_servers {
        let summed = HidingMerkleCommitment::sum_openings(&[&opens_a[i], &opens_b[i]]);
        assert_eq!(summed.s()[0], shares_a[i][0] + shares_b[i][0]);
        assert!(HidingMerkleCommitment::verify(&pp, &comm_sum, &summed));
    }
}

#[test]
fn sum_homomorphism_mu_4() {
    let mut rng = ChaCha20Rng::from_seed([6u8; 32]);
    let n_servers = 4;
    let pp = HidingMerkleCommitment::setup_with_dims(&mut rng, n_servers, 4, 5);
    let shares_a = rand_shares(&mut rng, n_servers, pp.mu_cs);
    let shares_b = rand_shares(&mut rng, n_servers, pp.mu_cs);
    let (comm_a, opens_a) = HidingMerkleCommitment::commit(&mut rng, &pp, &shares_a);
    let (comm_b, opens_b) = HidingMerkleCommitment::commit(&mut rng, &pp, &shares_b);
    let comm_sum = HidingMerkleCommitment::sum_commitments(&[comm_a, comm_b]);
    for i in 0..n_servers {
        let summed = HidingMerkleCommitment::sum_openings(&[&opens_a[i], &opens_b[i]]);
        for k in 0..pp.mu_cs {
            assert_eq!(summed.s()[k], shares_a[i][k] + shares_b[i][k]);
        }
        assert!(HidingMerkleCommitment::verify(&pp, &comm_sum, &summed));
    }
}

#[test]
fn pack_round_trip_fresh_opening() {
    let mut rng = ChaCha20Rng::from_seed([100u8; 32]);
    let n_servers = 4;
    let pp = HidingMerkleCommitment::setup_with_dims(&mut rng, n_servers, 5, 5);
    let shares = rand_shares(&mut rng, n_servers, pp.mu_cs);
    let (_, openings) = HidingMerkleCommitment::commit(&mut rng, &pp, &shares);
    for o in &openings {
        let packed = o.pack(pp.beta_cs, CS_MODULUS as u32 / 2, ZETA);
        let unpacked = Opening::from_packed(&packed).unwrap();
        assert_eq!(o.r(), unpacked.r());
        assert_eq!(o.s(), unpacked.s());
        assert_eq!(o.server_index, unpacked.server_index);
        assert_eq!(o.path_index, unpacked.path_index);
        assert_eq!(o.u(), unpacked.u());
        if o.stored_path_len() > 0 {
            let (l0, r0) = o.path_node(0);
            let (l1, r1) = unpacked.path_node(0);
            assert_eq!(l0, l1);
            assert_eq!(r0, r1);
        }
    }
}

#[test]
fn pack_round_trip_aggregated_opening() {
    let mut rng = ChaCha20Rng::from_seed([101u8; 32]);
    let n_servers = 4;
    let pp = HidingMerkleCommitment::setup_with_dims(&mut rng, n_servers, 5, 5);
    let shares_a = rand_shares(&mut rng, n_servers, pp.mu_cs);
    let shares_b = rand_shares(&mut rng, n_servers, pp.mu_cs);
    let (_, opens_a) = HidingMerkleCommitment::commit(&mut rng, &pp, &shares_a);
    let (_, opens_b) = HidingMerkleCommitment::commit(&mut rng, &pp, &shares_b);
    for i in 0..n_servers {
        let agg = HidingMerkleCommitment::sum_openings(&[&opens_a[i], &opens_b[i]]);
        let packed = agg.pack(2 * pp.beta_cs, CS_MODULUS as u32 / 2, 2 * ZETA);
        let unpacked = Opening::from_packed(&packed).unwrap();
        assert_eq!(agg.r(), unpacked.r());
        assert_eq!(agg.s(), unpacked.s());
        assert_eq!(agg.u(), unpacked.u());
    }
}

#[test]
fn cs_leaf_hash_is_linear() {
    let mut rng = ChaCha20Rng::from_seed([103u8; 32]);
    for xi in [1usize, 2, 5] {
        let lh = LeafHash::init(&mut rng, xi);
        let len = xi * HVC_WIDTH;
        let a: Vec<HVCPoly> = (0..len).map(|_| HVCPoly::rand_poly(&mut rng)).collect();
        let b: Vec<HVCPoly> = (0..len).map(|_| HVCPoly::rand_poly(&mut rng)).collect();
        let summed: Vec<HVCPoly> = a.iter().zip(&b).map(|(x, y)| *x + *y).collect();
        assert_eq!(lh.hash(&summed), lh.hash(&a) + lh.hash(&b), "xi={xi}");
    }
}

#[test]
fn opening_size_unchanged_at_mu_1() {
    for path in 0usize..5 {
        assert_eq!(opening_data_polys(2, path), 6 + 6 * path);
    }
}

#[test]
fn commit_verify_sum_across_widths() {
    let mut rng = ChaCha20Rng::from_seed([104u8; 32]);
    for mu_cs in [1usize, 2, 3, 4, 5] {
        let n_servers = 4;
        let pp = HidingMerkleCommitment::setup_with_dims(&mut rng, n_servers, mu_cs, 5);
        assert_eq!(pp.xi(), 1 + mu_cs);
        let shares_a = rand_shares(&mut rng, n_servers, mu_cs);
        let shares_b = rand_shares(&mut rng, n_servers, mu_cs);
        let (comm_a, opens_a) = HidingMerkleCommitment::commit(&mut rng, &pp, &shares_a);
        let (comm_b, opens_b) = HidingMerkleCommitment::commit(&mut rng, &pp, &shares_b);
        for o in &opens_a {
            assert!(
                HidingMerkleCommitment::verify(&pp, &comm_a, o),
                "fresh opening failed at mu_cs={mu_cs}"
            );
            assert_eq!(o.u().len(), pp.xi() * HVC_WIDTH);
        }
        let comm_sum = HidingMerkleCommitment::sum_commitments(&[comm_a, comm_b]);
        for i in 0..n_servers {
            let summed = HidingMerkleCommitment::sum_openings(&[&opens_a[i], &opens_b[i]]);
            for k in 0..mu_cs {
                assert_eq!(summed.s()[k], shares_a[i][k] + shares_b[i][k]);
            }
            assert!(
                HidingMerkleCommitment::verify(&pp, &comm_sum, &summed),
                "aggregate opening failed at mu_cs={mu_cs}"
            );
        }
    }
}

#[test]
fn pack_size_reduction() {
    let mut rng = ChaCha20Rng::from_seed([102u8; 32]);
    for mu_cs in [1usize, 5] {
        let pp = HidingMerkleCommitment::setup_with_dims(&mut rng, 4, mu_cs, 5);
        let shares = rand_shares(&mut rng, 4, pp.mu_cs);
        let (_, openings) = HidingMerkleCommitment::commit(&mut rng, &pp, &shares);
        let o = &openings[0];
        let data_polys = opening_data_polys(o.xi(), o.stored_path_len());
        let rs_polys = o.kappa_cs() + o.mu_cs();
        let in_mem_bytes = data_polys * std::mem::size_of::<HVCPoly>()
            + rs_polys * std::mem::size_of::<CsPoly>();
        let packed = o.pack(pp.beta_cs, CS_MODULUS as u32 / 2, ZETA);
        let packed_bytes = packed.body_len();

        let expected = (o.kappa_cs() * N * bits_for_signed(pp.beta_cs) as usize
            + o.mu_cs() * N * bits_for_signed(CS_MODULUS as u32 / 2) as usize
            + data_polys * N * bits_for_signed(ZETA) as usize)
            / 8;
        assert_eq!(packed_bytes, expected, "mu_cs={mu_cs}");
        assert!(
            packed_bytes * 3 <= in_mem_bytes,
            "mu_cs={mu_cs}: packed {packed_bytes} not within a third of {in_mem_bytes}"
        );
    }
}

#[test]
fn openings_are_read_with_care() {
    assert!(PackedOpening::from_bytes(&[0u8; PACKED_OPENING_HEADER_LEN - 1]).is_none());
    let zeros = PackedOpening::from_bytes(&[0u8; PACKED_OPENING_HEADER_LEN]).unwrap();
    assert_eq!(Opening::from_packed(&zeros).err(), Some(OpeningDecodeError::BadHeader));
    let mut bytes = [0u8; PACKED_OPENING_HEADER_LEN];
    bytes[8] = 1;
    bytes[12] = 1;
    let short = PackedOpening::from_bytes(&bytes).unwrap();
    assert_eq!(Opening::from_packed(&short).err(), Some(OpeningDecodeError::Truncated));
}

#[test]
fn another_share_at_the_same_place_is_refused() {
    let mut rng = ChaCha20Rng::from_seed([14u8; 32]);
    let pp = HidingMerkleCommitment::setup(&mut rng, 2);
    let first = rand_shares(&mut rng, 2, pp.mu_cs);
    let (comm, mut openings) = HidingMerkleCommitment::commit(&mut rng, &pp, &first);
    let second = rand_shares(&mut rng, 2, pp.mu_cs);
    let (_, others) = HidingMerkleCommitment::commit(&mut rng, &pp, &second);
    assert!(HidingMerkleCommitment::verify(&pp, &comm, &openings[1]));
    assert!(!HidingMerkleCommitment::verify(&pp, &comm, &others[1]));
    let at = openings[1].kappa_cs;
    openings[1].rs[at] = others[1].rs[at];
    assert!(!HidingMerkleCommitment::verify(&pp, &comm, &openings[1]));
}

#[test]
fn wide_commitments_open() {
    let mut rng = ChaCha20Rng::from_seed([15u8; 32]);
    let pp = HidingMerkleCommitment::setup_with_dims(&mut rng, 2, 40, 3);
    let shares = rand_shares(&mut rng, 2, 40);
    let (comm, openings) = HidingMerkleCommitment::commit(&mut rng, &pp, &shares);
    assert!(HidingMerkleCommitment::verify(&pp, &comm, &openings[0]));
    assert!(HidingMerkleCommitment::verify(&pp, &comm, &openings[1]));
}
