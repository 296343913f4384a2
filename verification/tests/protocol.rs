use panetiere::bulletin::{
    ClientBulletinEntry, RsClientBulletinEntry, RsNodeBulletinEntry, ServerBulletinEntry,
};
use panetiere::consensus::{ClientSetSelector, FixedSet};
use panetiere::kahe::{check_roomy, KaheKey};
use panetiere::pke::{PrivateKey, PublicKey};
use panetiere::protocol::aggregator::run_aggregator_round;
use panetiere::protocol::client::{check_key, run_client_round, run_client_round_rs};
use panetiere::protocol::dispute::{bisect_digest_failure, DisputeOutcome};
use panetiere::protocol::recipient::{
    recover_aggregated, recover_direct, recover_once, RecipientError, RejectReason, SetPolicy,
};
use panetiere::protocol::server::{
    run_rs_node_round, run_server_round, unseal_opening, RsNodeInbox, ServerInbox,
    ServerRoundError,
};
use panetiere::protocol::verify::{
    aggregate_and_decrypt, aggregate_and_decrypt_rs, decrypt_aggregate, VerifyError,
};
use panetiere::protocol::{
    round_wire_sizes, ClientId, NodeId, ProtocolParams, ServerId, SessionId,
};
use panetiere::rings::{DgtNTTPoly, DGT_MODULUS};
use panetiere::rs::Rs;
use panetiere::share_commitment::commit_shares;
use panetiere::sig::SigningKey;
use panetiere::{CsPoly, HVCPoly, KahePoly, N};
use rand::{Rng, SeedableRng};
use rand_chacha::ChaCha20Rng;

const SID: SessionId = SessionId([0x5C; 32]);

fn small_poly(rng: &mut ChaCha20Rng) -> KahePoly {
    let mut coeffs = [0i64; N];
    for c in coeffs.iter_mut() {
        *c = rng.gen_range(-60..=60);
    }
    KahePoly::from_coeffs(coeffs)
}

fn small_polys(rng: &mut ChaCha20Rng, n: usize) -> Vec<KahePoly> {
    (0..n).map(|_| small_poly(rng)).collect()
}

fn message(value: i64, width: usize) -> Vec<KahePoly> {
    (0..width)
        .map(|p| {
            let mut coeffs = [0i64; N];
            coeffs[0] = value;
            coeffs[N - 1] = value * 1000 + p as i64;
            KahePoly::from_coeffs(coeffs)
        })
        .collect()
}

struct Round {
    pp: ProtocolParams,
    ids: Vec<ClientId>,
    entries: Vec<(ClientId, ClientBulletinEntry)>,
    outputs: Vec<ServerBulletinEntry>,
}

fn servers(rng: &mut ChaCha20Rng, n: usize) -> (Vec<PrivateKey>, Vec<(ServerId, PublicKey)>) {
    let keys: Vec<PrivateKey> = (0..n).map(|_| PrivateKey::generate(rng)).collect();
    let list = keys.iter().enumerate().map(|(i, k)| (ServerId(i as u32), k.public())).collect();
    (keys, list)
}

fn direct_round(seed: u8, n_servers: usize, values: &[i64]) -> Round {
    let mut rng = ChaCha20Rng::from_seed([seed; 32]);
    let pp = ProtocolParams::setup_with_kahe_dims(&mut rng, n_servers, 2);
    let (keys, list) = servers(&mut rng, n_servers);
    let ids: Vec<ClientId> = (0..values.len() as u32).map(|i| ClientId(i * 3 + 1)).collect();
    let mut entries = Vec::new();
    let mut inboxes: Vec<ServerInbox> =
        list.iter().map(|(id, _)| ServerInbox { server_id: *id, items: vec![] }).collect();
    for (&id, &value) in ids.iter().zip(values) {
        let key = KaheKey(small_poly(&mut rng));
        let errors = small_polys(&mut rng, 2);
        let out =
            run_client_round(&mut rng, &pp, &SID, id, &message(value, 2), &list, &key, &errors);
        assert_eq!(out.client_id, id);
        for (j, (sid, sealed)) in out.sealed_openings.iter().enumerate() {
            let o = unseal_opening(&keys[j], &SID, id, *sid, sealed).unwrap();
            inboxes[j].items.push((id, o));
        }
        entries.push((id, out.encrypted_message));
    }
    let outputs = inboxes.iter().map(|inb| run_server_round(inb, &ids).unwrap()).collect();
    Round { pp, ids, entries, outputs }
}

#[test]
fn the_sum_of_the_messages_is_read() {
    let r = direct_round(1, 3, &[5, 7, -20]);
    let m = aggregate_and_decrypt(&r.pp, &r.ids, &r.entries, &r.outputs).unwrap();
    assert_eq!(m.len(), 2);
    assert_eq!(m[0].coeffs()[0], -8);
    assert_eq!(m[1].coeffs()[N - 1], -7997);
    assert_eq!(m[0].coeffs()[1], 0);
    let again = recover_once(&r.pp, &r.ids, &r.entries, &r.outputs).unwrap();
    assert_eq!(again, m);
}

#[test]
fn refusals_of_the_direct_flow() {
    let mut r = direct_round(2, 3, &[1, 2]);
    let (pp, ids) = (&r.pp, r.ids.clone());
    assert_eq!(
        aggregate_and_decrypt(pp, &ids, &r.entries, &[]).err(),
        Some(VerifyError::NoServers)
    );
    assert_eq!(
        aggregate_and_decrypt(pp, &ids, &r.entries, &r.outputs[..1]).err(),
        Some(VerifyError::BadServerCoverage)
    );
    assert_eq!(
        aggregate_and_decrypt(pp, &ids, &r.entries[..1], &r.outputs).err(),
        Some(VerifyError::MissingClient(ids[1]))
    );
    let swapped = vec![ids[1], ids[0]];
    assert_eq!(
        aggregate_and_decrypt(pp, &swapped, &r.entries, &r.outputs).err(),
        Some(VerifyError::InconsistentCanonical(ServerId(0)))
    );
    let twice = vec![r.outputs[0].clone(), r.outputs[0].clone()];
    assert_eq!(
        aggregate_and_decrypt(pp, &ids, &r.entries, &twice).err(),
        Some(VerifyError::BadServerCoverage)
    );
    r.outputs[1].agg_share = r.outputs[1].agg_share + CsPoly::from_coeffs([1; N]);
    assert_eq!(
        aggregate_and_decrypt(&r.pp, &ids, &r.entries, &r.outputs).err(),
        Some(VerifyError::ShareOpeningMismatch(1))
    );
    r.outputs[0].agg_open.path_index = 1;
    assert_eq!(
        aggregate_and_decrypt(&r.pp, &ids, &r.entries, &r.outputs).err(),
        Some(VerifyError::InvalidServerOpening(0))
    );
    r.entries[1].1.ctxt.pop();
    assert_eq!(
        aggregate_and_decrypt(&r.pp, &ids, &r.entries, &r.outputs).err(),
        Some(VerifyError::InconsistentCiphertextLen(ServerId(0)))
    );
    r.pp.min_clients = 3;
    assert_eq!(
        aggregate_and_decrypt(&r.pp, &ids, &r.entries, &r.outputs).err(),
        Some(VerifyError::AnonymitySetTooSmall { got: 2, min: 3 })
    );
}

#[test]
fn a_faulty_server_is_left_out() {
    let mut r = direct_round(3, 4, &[10, 20]);
    r.outputs[2].agg_share = CsPoly::default();
    let policy = SetPolicy::anchored(&r.ids, 1, 10);
    let lookup = |id: ClientId| {
        r.entries.iter().find(|(c, _)| *c == id).map(|(_, e)| e.clone())
    };
    let got = recover_direct(&r.pp, &policy, lookup, &r.outputs).unwrap();
    assert_eq!(got.culprits, vec![ServerId(2)]);
    assert_eq!(got.canonical, r.ids);
    assert_eq!(got.plaintext[0].coeffs()[0], 30);
    let mut worse: Vec<ServerBulletinEntry> = r.outputs.to_vec();
    worse[0].agg_share = CsPoly::default();
    assert_eq!(
        recover_direct(&r.pp, &policy, lookup, &worse).err(),
        Some(RecipientError::Rejected(RejectReason::ExhaustedShares {
            remaining: 2,
            need: 3,
            excluded: 2
        }))
    );
}

#[test]
fn refusals_of_the_recipient() {
    let r = direct_round(4, 3, &[1, 2]);
    let lookup = |id: ClientId| {
        r.entries.iter().find(|(c, _)| *c == id).map(|(_, e)| e.clone())
    };
    let run = |anchor: &[ClientId], min: usize, max: usize, outs: &[ServerBulletinEntry]| {
        recover_direct(&r.pp, &SetPolicy::anchored(anchor, min, max), lookup, outs).err()
    };
    assert_eq!(
        run(&r.ids, 1, 10, &r.outputs[..1]),
        Some(RecipientError::BelowShareThreshold { have: 1, need: 2 })
    );
    assert_eq!(
        run(&r.ids, 3, 10, &r.outputs),
        Some(RecipientError::Rejected(RejectReason::BelowAnonymityFloor { got: 2, min: 3 }))
    );
    assert_eq!(
        run(&r.ids, 1, 1, &r.outputs),
        Some(RecipientError::Rejected(RejectReason::AboveMaxClients { got: 2, max: 1 }))
    );
    assert_eq!(
        run(&[ClientId(1)], 1, 10, &r.outputs),
        Some(RecipientError::Rejected(RejectReason::TooFewAgreeingServers {
            agreeing: 0,
            need: 2
        }))
    );
    let blind = |_id: ClientId| -> Option<ClientBulletinEntry> { None };
    let policy = SetPolicy::anchored(&r.ids, 1, 10);
    assert_eq!(
        recover_direct(&r.pp, &policy, blind, &r.outputs).err(),
        Some(RecipientError::Rejected(RejectReason::MissingClientPublics { have: 0, need: 2 }))
    );
}

#[test]
fn groups_sum_to_the_same_plaintext() {
    let r = direct_round(5, 3, &[3, 4, 5]);
    let direct = aggregate_and_decrypt(&r.pp, &r.ids, &r.entries, &r.outputs).unwrap();
    let a = run_aggregator_round(&r.entries[..1]);
    let mut repeated: Vec<_> = r.entries[1..].to_vec();
    repeated.push(r.entries[1].clone());
    let b = run_aggregator_round(&repeated);
    assert_eq!(b.clients, vec![r.ids[1], r.ids[2]]);
    let groups = vec![
        (a.clients, ClientBulletinEntry { ctxt: a.summed_ctxt, comm: a.summed_comm }),
        (b.clients, ClientBulletinEntry { ctxt: b.summed_ctxt, comm: b.summed_comm }),
    ];
    let policy = SetPolicy::anchored(&r.ids, 1, 10);
    let got = recover_aggregated(&r.pp, &policy, &groups, &r.outputs).unwrap();
    assert_eq!(got.plaintext, direct);
    assert!(got.culprits.is_empty());
    let whole = run_aggregator_round(&r.entries);
    assert_eq!(
        decrypt_aggregate(&r.pp, &whole.summed_ctxt, &whole.summed_comm, &r.outputs).unwrap(),
        direct
    );
    assert_eq!(
        recover_aggregated(&r.pp, &policy, &groups[..1], &r.outputs).err(),
        Some(RecipientError::Rejected(RejectReason::GroupAggregateMissing {
            group_of: r.ids[1]
        }))
    );
    let mut extra = groups;
    extra[0].0.push(ClientId(99));
    assert_eq!(
        recover_aggregated(&r.pp, &policy, &extra, &r.outputs).err(),
        Some(RecipientError::Rejected(RejectReason::GroupMembershipMismatch {
            got: 4,
            expected: 3
        }))
    );
}

#[test]
fn servers_name_who_is_missing() {
    let inbox = ServerInbox { server_id: ServerId(0), items: vec![] };
    assert_eq!(
        run_server_round(&inbox, &[ClientId(4)]).err(),
        Some(ServerRoundError::MissingClient(ClientId(4)))
    );
    assert_eq!(run_server_round(&inbox, &[]).err(), Some(ServerRoundError::MalformedOpening));
}

struct Sharded {
    lanes: Vec<RsNodeInbox>,
    roots: Vec<(ClientId, HVCPoly)>,
    pp: ProtocolParams,
    ids: Vec<ClientId>,
    entries: Vec<(ClientId, RsClientBulletinEntry)>,
    inboxes: Vec<ServerInbox>,
    outputs: Vec<ServerBulletinEntry>,
    nodes: Vec<RsNodeBulletinEntry>,
}

fn sharded_round(seed: u8, values: &[i64]) -> Sharded {
    let mut r = sharded_posts(seed, values, 20);
    let scp = r.pp.share_comm.as_ref().unwrap();
    r.nodes =
        r.lanes.iter().map(|l| run_rs_node_round(scp, l, &r.ids, &r.roots).unwrap()).collect();
    r
}

fn sharded_posts(seed: u8, values: &[i64], rho_max: usize) -> Sharded {
    let mut rng = ChaCha20Rng::from_seed([seed; 32]);
    let (n_servers, polys, k, n) = (2, 2, 2, 3);
    let pp = ProtocolParams::setup_rs_mode(
        &mut rng,
        n_servers,
        polys,
        k,
        n,
        panetiere::kahe::T_MODULUS_DEFAULT,
        rho_max,
        [0x42; 32],
    );
    let (keys, list) = servers(&mut rng, n_servers);
    let ids: Vec<ClientId> = (0..values.len() as u32).map(ClientId).collect();
    let mut entries = Vec::new();
    let mut roots: Vec<(ClientId, HVCPoly)> = Vec::new();
    let mut inboxes: Vec<ServerInbox> =
        list.iter().map(|(id, _)| ServerInbox { server_id: *id, items: vec![] }).collect();
    let mut lanes: Vec<RsNodeInbox> = (0..n as u32)
        .map(|j| RsNodeInbox { node_id: NodeId(j), items: vec![] })
        .collect();
    for (&id, &value) in ids.iter().zip(values) {
        let signer = SigningKey::generate(&mut rng);
        let key = KaheKey(small_poly(&mut rng));
        let errors = small_polys(&mut rng, polys);
        let out = run_client_round_rs(
            &mut rng,
            &pp,
            &SID,
            id,
            &message(value, polys),
            &list,
            &signer,
            &key,
            &errors,
        );
        for (j, (sid, sealed)) in out.sealed_openings.iter().enumerate() {
            let o = unseal_opening(&keys[j], &SID, id, *sid, sealed).unwrap();
            inboxes[j].items.push((id, o));
        }
        roots.push((id, out.bulletin.share_root));
        entries.push((id, out.bulletin));
        for ((lane, share), path) in lanes.iter_mut().zip(out.rs_shares).zip(out.share_paths) {
            lane.items.push((id, share, path));
        }
    }
    let outputs = inboxes.iter().map(|inb| run_server_round(inb, &ids).unwrap()).collect();
    Sharded { lanes, roots, pp, ids, entries, inboxes, outputs, nodes: vec![] }
}

#[test]
fn the_sharded_flow_reads_the_sum() {
    let mut r = sharded_round(6, &[11, 31]);
    let m = aggregate_and_decrypt_rs(&r.pp, &SID, &r.ids, &r.entries, &r.outputs, &r.nodes)
        .unwrap();
    assert_eq!(m[0].coeffs()[0], 42);
    assert_eq!(m[1].coeffs()[N - 1], 42002);
    let without_first =
        aggregate_and_decrypt_rs(&r.pp, &SID, &r.ids, &r.entries, &r.outputs, &r.nodes[1..])
            .unwrap();
    assert_eq!(without_first, m);
    assert_eq!(
        aggregate_and_decrypt_rs(
            &r.pp,
            &SessionId([1; 32]),
            &r.ids,
            &r.entries,
            &r.outputs,
            &r.nodes
        )
        .err(),
        Some(VerifyError::BadSignature(r.ids[0]))
    );
    r.nodes[0].share_sum[0] = r.nodes[0].share_sum[0] + r.nodes[0].share_sum[0];
    assert_eq!(
        aggregate_and_decrypt_rs(&r.pp, &SID, &r.ids, &r.entries, &r.outputs, &r.nodes).err(),
        Some(VerifyError::LaneOpeningFailed(vec![NodeId(0)]))
    );
}

#[test]
fn refusals_of_the_sharded_flow() {
    let r = sharded_round(7, &[1]);
    let run = |nodes: &[RsNodeBulletinEntry], entries: &[(ClientId, RsClientBulletinEntry)]| {
        aggregate_and_decrypt_rs(&r.pp, &SID, &r.ids, entries, &r.outputs, nodes).err()
    };
    assert_eq!(run(&r.nodes[..1], &r.entries), Some(VerifyError::NotEnoughNodes));
    let twice = vec![r.nodes[0].clone(), r.nodes[0].clone()];
    assert_eq!(run(&twice, &r.entries), Some(VerifyError::BadNodeCoverage));
    let mut other = r.nodes.clone();
    other[1].clients = vec![];
    assert_eq!(run(&other, &r.entries), Some(VerifyError::InconsistentNodeCanonical(NodeId(1))));
    assert_eq!(run(&r.nodes, &[]), Some(VerifyError::MissingClient(r.ids[0])));
    let mut direct = direct_round(8, 2, &[1]);
    direct.pp.rs = None;
    assert_eq!(
        aggregate_and_decrypt_rs(
            &direct.pp,
            &SID,
            &direct.ids,
            &r.entries,
            &direct.outputs,
            &r.nodes
        )
        .err(),
        Some(VerifyError::NotRsMode)
    );
}

#[test]
fn lanes_name_the_culprit() {
    let mut r = sharded_posts(12, &[1, 2], 20);
    let scp = r.pp.share_comm.as_ref().unwrap();
    assert_eq!(
        run_rs_node_round(scp, &r.lanes[0], &[ClientId(7)], &r.roots).err(),
        Some(ServerRoundError::MissingClient(ClientId(7)))
    );
    let share = &mut r.lanes[0].items[1].1;
    share[0] = share[0] + share[0];
    assert_eq!(
        run_rs_node_round(scp, &r.lanes[0], &r.ids, &r.roots).err(),
        Some(ServerRoundError::BadShare(ClientId(1)))
    );
}

#[test]
fn too_many_clients_overflow_a_lane() {
    let r = sharded_posts(13, &[1, 2, 3], 1);
    let scp = r.pp.share_comm.as_ref().unwrap();
    assert_eq!(
        run_rs_node_round(scp, &r.lanes[2], &r.ids, &r.roots).err(),
        Some(ServerRoundError::AggregateOverCapacity)
    );
    assert!(run_rs_node_round(scp, &r.lanes[2], &r.ids[..1], &r.roots).is_ok());
}

#[test]
fn keys_and_messages_are_checked() {
    let mut coeffs = [0i64; N];
    coeffs[7] = -69_650;
    assert!(check_key(&KaheKey(KahePoly::from_coeffs(coeffs))));
    coeffs[7] = 69_651;
    assert!(!check_key(&KaheKey(KahePoly::from_coeffs(coeffs))));
    coeffs[7] = i64::MAX - panetiere::KAHE_MODULUS + 1;
    assert!(check_roomy(&[KahePoly::from_coeffs(coeffs)]));
    coeffs[7] = -coeffs[7] - 1;
    assert!(!check_roomy(&[KahePoly::default(), KahePoly::from_coeffs(coeffs)]));
}

#[test]
fn bisection_stops_at_the_floor() {
    let r = sharded_round(9, &[1]);
    let failing: Vec<ClientId> = [5u32, 1, 3, 1].iter().map(|&i| ClientId(i)).collect();
    let never = |_ids: &[ClientId]| None;
    assert_eq!(
        bisect_digest_failure(&r.pp, &SID, &r.entries, &failing, 2, never),
        DisputeOutcome::Culprits(vec![ClientId(1), ClientId(3), ClientId(5)])
    );
    assert_eq!(
        bisect_digest_failure(&r.pp, &SID, &r.entries, &failing, 1, never),
        DisputeOutcome::Inconclusive(vec![ClientId(1), ClientId(3), ClientId(5)])
    );
}

#[test]
fn a_fixed_set_is_chosen_as_given() {
    let set = FixedSet(vec![ClientId(2), ClientId(1)]);
    let chosen = set.canonical_set();
    assert_eq!(chosen, vec![ClientId(2), ClientId(1)]);
}

#[test]
fn wire_sizes_add_up() {
    let sizes = round_wire_sizes(4, 3, 300);
    let r = direct_round(10, 4, &[1]);
    assert_eq!(sizes.client_post, ClientBulletinEntry::packed_len(3));
    assert_eq!(sizes.server_entry, r.pp.cs.aggregated_server_crypto_len(300));
}

#[test]
fn thresholds_follow_the_number_of_servers() {
    let mut rng = ChaCha20Rng::from_seed([11; 32]);
    for (n, t) in [(1usize, 1usize), (2, 2), (3, 2), (4, 3), (7, 5), (9, 7)] {
        assert_eq!(ProtocolParams::setup(&mut rng, n).shamir.t, t, "n = {n}");
    }
}

#[test]
fn a_client_is_in_one_group_only() {
    let r = direct_round(14, 3, &[3, 4]);
    let a = run_aggregator_round(&r.entries[..1]);
    let b = run_aggregator_round(&r.entries);
    let groups = vec![
        (a.clients, ClientBulletinEntry { ctxt: a.summed_ctxt, comm: a.summed_comm }),
        (b.clients, ClientBulletinEntry { ctxt: b.summed_ctxt, comm: b.summed_comm }),
    ];
    let policy = SetPolicy::anchored(&r.ids, 1, 10);
    assert_eq!(
        recover_aggregated(&r.pp, &policy, &groups, &r.outputs).err(),
        Some(RecipientError::Rejected(RejectReason::GroupMembershipMismatch {
            got: 3,
            expected: 2
        }))
    );
}

#[test]
fn bisection_follows_the_failing_half() {
    let mut r = sharded_posts(15, &[1, 2, 3], 20);
    let mut rng = ChaCha20Rng::from_seed([16u8; 32]);
    let signer = SigningKey::generate(&mut rng);
    let scp = r.pp.share_comm.as_ref().unwrap();
    let wide = [DgtNTTPoly::default(), DgtNTTPoly::from_raw(&[DGT_MODULUS / 2; N])];
    let shares = Rs::encode(r.pp.rs.as_ref().unwrap(), &wide);
    let (share_root, paths) = commit_shares(scp, &shares);
    let comm = r.entries[2].1.comm.clone();
    let msg = RsClientBulletinEntry::signing_bytes(&SID, r.ids[2], &comm, &share_root);
    let (pubkey, sig) = (signer.verifying_key().to_sec1_bytes(), signer.sign(&msg));
    r.roots[2].1 = share_root;
    r.entries[2].1 = RsClientBulletinEntry { comm, share_root, pubkey, sig };
    for ((lane, share), path) in r.lanes.iter_mut().zip(shares).zip(paths) {
        lane.items[2] = (r.ids[2], share, path);
    }
    let rerun = |ids: &[ClientId]| {
        let mut outputs = Vec::new();
        for inbox in &r.inboxes {
            outputs.push(run_server_round(inbox, ids).ok()?);
        }
        let mut nodes = Vec::new();
        for lane in [&r.lanes[0], &r.lanes[2]] {
            nodes.push(run_rs_node_round(scp, lane, ids, &r.roots).ok()?);
        }
        Some((outputs, nodes))
    };
    let (outputs, nodes) = rerun(&r.ids).unwrap();
    assert_eq!(
        aggregate_and_decrypt_rs(&r.pp, &SID, &r.ids, &r.entries, &outputs, &nodes).err(),
        Some(VerifyError::CiphertextOutOfRange)
    );
    assert_eq!(
        bisect_digest_failure(&r.pp, &SID, &r.entries, &r.ids, 1, rerun),
        DisputeOutcome::Culprits(vec![ClientId(2)])
    );
}

#[test]
fn sizes_go_with_the_depth_of_the_tree() {
    let few = round_wire_sizes(2, 3, 300);
    let many = round_wire_sizes(1 << 40, 3, 300);
    assert_eq!(many.client_post, few.client_post);
    assert_eq!(many.server_entry - few.server_entry, 39 * 6 * 256 * 15);
}
