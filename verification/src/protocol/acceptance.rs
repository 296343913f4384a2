//! What the verifier's answers mean: when a round is accepted, and what each
//! refusal says.

use super::roster::{last_at, lemma_last_at};
use super::verify::{
    aggregate_fault, bad_node, bad_server, chosen_roots, client_fault, direct_fault, entry_of,
    failing_lanes, is_signed, key_samples, lane_agrees, lane_holds, law_every_opening_is_checked,
    lemma_points, lying_lanes, missing_fault, node_entry_fault, openings_fault, recovered_key,
    roster_fault, rs_fault, server_entry_fault, servers_cover, signature_fault, signed_comms,
    VerifyError,
};
use super::{ClientId, NodeId, ProtocolParams, ServerId, SessionId};
use crate::bulletin::{
    ClientBulletinEntry, RsClientBulletinEntry, RsNodeBulletinEntry, ServerBulletinEntry,
};
use crate::cs::opens;
use crate::field::{self, cong, eval, interpolate};
use crate::hvc::hvc_sum;
use crate::negacyclic::{lemma_centered, Coeffs, N};
use crate::primes;
use crate::rings::{DgtNTTPoly, CS_MODULUS};
use crate::rs::RsParams;
use crate::share_commitment::ShareCommitmentParams;
use crate::sss::{recovered, sample_points, sample_values};
use vstd::prelude::*;

verus! {

// ---------------------------------------------------------------
// The key
// ---------------------------------------------------------------

/// Whatever polynomials of degree below the threshold the committed shares of
/// the first `t` servers lie on, each at one more than the server's identifier,
/// the key that an accepted round decrypts with is their value at zero.
pub proof fn law_key_comes_from_committed_shares(
    pp: ProtocolParams,
    root: Coeffs,
    servers: Seq<ServerBulletinEntry>,
    k: int,
    c: Seq<int>,
)
    requires
        pp.wf(),
        pp.shamir.t <= servers.len() <= usize::MAX,
        forall|i: int|
            0 <= i < servers.len() ==> (#[trigger] servers[i]).server_id.0 < pp.cs.n_servers,
        forall|i: int, j: int|
            0 <= i < j < servers.len() ==> (#[trigger] servers[i]).server_id != (
            #[trigger] servers[j]).server_id,
        openings_fault(pp, root, servers, 0) is None,
        0 <= k < N,
        c.len() <= pp.shamir.t,
        forall|i: int|
            0 <= i < pp.shamir.t ==> cong(
                (#[trigger] servers[i]).agg_open.rs[pp.cs.kappa_cs as int]@[k],
                eval(c, servers[i].server_id.0 + 1),
                CS_MODULUS as int,
            ),
    ensures
        cong(recovered_key(pp, servers)[k], eval(c, 0), CS_MODULUS as int),
{
    let (q, t) = (CS_MODULUS as int, pp.shamir.t as int);
    lemma_cover(pp, servers);
    lemma_points(pp, servers);
    law_every_opening_is_checked(pp, root, servers, 0);
    primes::lemma_cs_modulus_prime();
    let samples = key_samples(servers, t);
    let xs = sample_points(samples, t);
    let ys = sample_values(samples, t, k);
    assert forall|i: int| 0 <= i < t implies #[trigger] xs[i] == servers[i].server_id.0 + 1 by {
        assert(servers[i].server_id.0 < pp.cs.n_servers);
        field::lemma_small(servers[i].server_id.0 + 1, q);
    }
    assert(field::distinct_mod(xs, q)) by {
        assert forall|i: int, j: int|
            0 <= i < xs.len() && 0 <= j < xs.len() && i != j implies !cong(
            #[trigger] xs[i],
            #[trigger] xs[j],
            q,
        ) by {
            assert(servers[i].server_id.0 < pp.cs.n_servers);
            assert(servers[j].server_id.0 < pp.cs.n_servers);
            let (a, b) = if i < j { (i, j) } else { (j, i) };
            assert(servers[a].server_id != servers[b].server_id);
            if cong(xs[i], xs[j], q) {
                field::lemma_cong_close(xs[i], xs[j], q);
            }
        }
    }
    assert forall|i: int| 0 <= i < xs.len() implies cong(#[trigger] ys[i], eval(c, xs[i]), q) by {
        assert(servers[i].agg_share@[k] % q == servers[i].agg_open.rs[pp.cs.kappa_cs as int]@[k]
            % q);
    }
    field::lemma_interpolation(c, xs, ys, 0, q);
    let v = interpolate(xs, ys, 0, q);
    lemma_centered(v, q);
    lemma_centered(recovered(samples, t)[k], q);
}

proof fn lemma_cover(pp: ProtocolParams, servers: Seq<ServerBulletinEntry>)
    ensures
        servers_cover(pp, servers) <==> (forall|i: int|
            0 <= i < servers.len() ==> (#[trigger] servers[i]).server_id.0 < pp.cs.n_servers) && (
        forall|i: int, j: int|
            0 <= i < j < servers.len() ==> (#[trigger] servers[i]).server_id != (
            #[trigger] servers[j]).server_id),
{
    if servers_cover(pp, servers) {
        assert forall|i: int| 0 <= i < servers.len() implies (#[trigger] servers[i]).server_id.0
            < pp.cs.n_servers by {
            assert(!bad_server(pp, servers, i));
        }
        assert forall|i: int, j: int| 0 <= i < j < servers.len() implies (
        #[trigger] servers[i]).server_id != (#[trigger] servers[j]).server_id by {
            assert(!bad_server(pp, servers, j));
        }
    }
}

// ---------------------------------------------------------------
// The direct flow
// ---------------------------------------------------------------

proof fn lemma_roster(servers: Seq<ServerBulletinEntry>, canonical: Seq<ClientId>, from: int)
    requires
        0 <= from <= servers.len(),
    ensures
        roster_fault(servers, canonical, from) is None <==> forall|i: int|
            from <= i < servers.len() ==> (#[trigger] servers[i]).clients@ == canonical,
        roster_fault(servers, canonical, from) matches Some(e) ==> exists|i: int|
            from <= i < servers.len() && (#[trigger] servers[i]).clients@ != canonical && e
                == VerifyError::InconsistentCanonical(servers[i].server_id),
    decreases servers.len() - from,
{
    if from < servers.len() {
        lemma_roster(servers, canonical, from + 1);
        if servers[from].clients@ == canonical {
            assert(forall|i: int|
                from <= i < servers.len() ==> (#[trigger] servers[i] == servers[from] || from + 1
                    <= i));
        }
    }
}

proof fn lemma_clients(
    pp: ProtocolParams,
    entries: Seq<(ClientId, ClientBulletinEntry)>,
    canonical: Seq<ClientId>,
    first: ServerId,
    from: int,
)
    requires
        0 <= from <= canonical.len(),
    ensures
        client_fault(pp, entries, canonical, first, from) is None <==> forall|i: int|
            from <= i < canonical.len() ==> last_at(entries, #[trigger] canonical[i]) is Some
                && entry_of(entries, canonical[i]).ctxt.len() == entry_of(
                entries,
                canonical[0],
            ).ctxt.len() && entry_of(entries, canonical[i]).ctxt.len() <= pp.kahe.mu_kahe,
        client_fault(pp, entries, canonical, first, from) matches Some(e) ==> exists|i: int|
            from <= i < canonical.len() && (if last_at(entries, #[trigger] canonical[i]) is None {
                e == VerifyError::MissingClient(canonical[i])
            } else {
                e == VerifyError::InconsistentCiphertextLen(first) && (entry_of(
                    entries,
                    canonical[i],
                ).ctxt.len() != entry_of(entries, canonical[0]).ctxt.len() || entry_of(
                    entries,
                    canonical[i],
                ).ctxt.len() > pp.kahe.mu_kahe)
            }),
    decreases canonical.len() - from,
{
    if from < canonical.len() {
        lemma_clients(pp, entries, canonical, first, from + 1);
        let id = canonical[from];
        if last_at(entries, id) is Some && entry_of(entries, id).ctxt.len() == entry_of(
            entries,
            canonical[0],
        ).ctxt.len() && entry_of(entries, id).ctxt.len() <= pp.kahe.mu_kahe {
            assert(forall|i: int|
                from <= i < canonical.len() ==> (#[trigger] canonical[i] == canonical[from]
                    || from + 1 <= i));
        }
    }
}

/// The direct flow decrypts exactly if enough distinct clients take part, at
/// least `t` servers with known and pairwise different identifiers posted, all
/// list the same clients in the same order, each of these clients posted, the
/// last posts carry ciphertexts of one length that is not too long, and every
/// server's opening and share hold against the sum of the clients' commitments.
pub proof fn law_direct_flow_accepts(
    pp: ProtocolParams,
    canonical: Seq<ClientId>,
    entries: Seq<(ClientId, ClientBulletinEntry)>,
    servers: Seq<ServerBulletinEntry>,
)
    requires
        servers.len() <= usize::MAX,
    ensures
        direct_fault(pp, canonical, entries, servers) is None <==> {
            &&& servers.len() >= 1
            &&& servers.len() >= pp.shamir.t
            &&& canonical.to_set().len() >= pp.min_clients
            &&& forall|i: int|
                0 <= i < servers.len() ==> (#[trigger] servers[i]).server_id.0 < pp.cs.n_servers
                    && servers[i].clients@ == canonical
            &&& forall|i: int, j: int|
                0 <= i < j < servers.len() ==> (#[trigger] servers[i]).server_id != (
                #[trigger] servers[j]).server_id
            &&& forall|i: int|
                0 <= i < canonical.len() ==> last_at(entries, #[trigger] canonical[i]) is Some
                    && entry_of(entries, canonical[i]).ctxt.len() == entry_of(
                    entries,
                    canonical[0],
                ).ctxt.len() && entry_of(entries, canonical[i]).ctxt.len() <= pp.kahe.mu_kahe
            &&& forall|i: int|
                0 <= i < servers.len() ==> opens(
                    pp.cs,
                    hvc_sum(
                        Seq::new(
                            canonical.len(),
                            |c: int| entry_of(entries, canonical[c]).comm.root@,
                        ),
                    ),
                    (#[trigger] servers[i]).agg_open,
                ) && servers[i].agg_open.path_index == servers[i].server_id.0 && (forall|k: int|
                    0 <= k < N ==> #[trigger] servers[i].agg_share@[k] % (CS_MODULUS as int)
                        == servers[i].agg_open.rs[pp.cs.kappa_cs as int]@[k] % (
                    CS_MODULUS as int))
        },
{
    lemma_cover(pp, servers);
    lemma_roster(servers, canonical, 0);
    let root = hvc_sum(chosen_roots(entries, canonical));
    assert(chosen_roots(entries, canonical) =~= Seq::new(
        canonical.len(),
        |c: int| entry_of(entries, canonical[c]).comm.root@,
    ));
    if servers.len() > 0 {
        lemma_clients(pp, entries, canonical, servers[0].server_id, 0);
        law_every_opening_is_checked(pp, root, servers, 0);
    }
}

/// What each refusal of the direct flow says.
pub proof fn law_direct_refusals(
    pp: ProtocolParams,
    canonical: Seq<ClientId>,
    entries: Seq<(ClientId, ClientBulletinEntry)>,
    servers: Seq<ServerBulletinEntry>,
)
    requires
        servers.len() <= usize::MAX,
    ensures
        match direct_fault(pp, canonical, entries, servers) {
            None => true,
            Some(VerifyError::NoServers) => servers.len() == 0,
            Some(VerifyError::AnonymitySetTooSmall { got, min }) => min == pp.min_clients && got
                == canonical.to_set().len() && got < min,
            Some(VerifyError::BadServerCoverage) => servers.len() < pp.shamir.t || (exists|i: int|
                0 <= i < servers.len() && (#[trigger] servers[i]).server_id.0
                    >= pp.cs.n_servers) || (exists|i: int, j: int|
                0 <= i < j < servers.len() && (#[trigger] servers[i]).server_id == (
                #[trigger] servers[j]).server_id),
            Some(VerifyError::InconsistentCanonical(id)) => exists|i: int|
                0 <= i < servers.len() && (#[trigger] servers[i]).server_id == id
                    && servers[i].clients@ != canonical,
            Some(VerifyError::MissingClient(id)) => canonical.contains(id) && forall|j: int|
                0 <= j < entries.len() ==> (#[trigger] entries[j]).0 != id,
            Some(VerifyError::InconsistentCiphertextLen(id)) => id == servers[0].server_id
                && exists|i: int|
                0 <= i < canonical.len() && (entry_of(
                    entries,
                    #[trigger] canonical[i],
                ).ctxt.len() != entry_of(entries, canonical[0]).ctxt.len() || entry_of(
                    entries,
                    canonical[i],
                ).ctxt.len() > pp.kahe.mu_kahe),
            Some(VerifyError::InvalidServerOpening(i)) => i < servers.len() && (!opens(
                pp.cs,
                hvc_sum(chosen_roots(entries, canonical)),
                servers[i as int].agg_open,
            ) || servers[i as int].agg_open.path_index != servers[i as int].server_id.0),
            Some(VerifyError::ShareOpeningMismatch(i)) => i < servers.len() && exists|k: int|
                0 <= k < N && #[trigger] servers[i as int].agg_share@[k] % (CS_MODULUS as int)
                    != servers[i as int].agg_open.rs[pp.cs.kappa_cs as int]@[k] % (
                CS_MODULUS as int),
            Some(_) => false,
        },
{
    lemma_cover(pp, servers);
    lemma_roster(servers, canonical, 0);
    if servers.len() > 0 {
        lemma_clients(pp, entries, canonical, servers[0].server_id, 0);
        law_every_opening_is_checked(pp, hvc_sum(chosen_roots(entries, canonical)), servers, 0);
        match client_fault(pp, entries, canonical, servers[0].server_id, 0) {
            Some(VerifyError::MissingClient(id)) => {
                lemma_last_at(entries, id);
            },
            _ => {},
        }
    }
}

/// The client's post that counts is the last one under its identifier.
pub proof fn law_last_post_counts<T>(entries: Seq<(ClientId, T)>, id: ClientId, at: int)
    requires
        0 <= at < entries.len(),
        entries[at].0 == id,
        forall|j: int| at < j < entries.len() ==> (#[trigger] entries[j]).0 != id,
    ensures
        last_at(entries, id) is Some,
        entry_of(entries, id) == entries[at].1,
{
    lemma_last_at(entries, id);
}

// ---------------------------------------------------------------
// The aggregated flow
// ---------------------------------------------------------------

/// The aggregated flow decrypts exactly if at least `t` servers with known and
/// pairwise different identifiers posted, all list the same clients, enough of
/// these are distinct, the summed ciphertext has an admissible length, and every
/// server's opening and share hold against the summed commitment.
pub proof fn law_aggregate_flow_accepts(
    pp: ProtocolParams,
    ctxt_len: int,
    root: Coeffs,
    servers: Seq<ServerBulletinEntry>,
)
    requires
        servers.len() <= usize::MAX,
        ctxt_len >= 0,
    ensures
        aggregate_fault(pp, ctxt_len, root, servers) is None <==> {
            &&& servers.len() >= 1
            &&& servers.len() >= pp.shamir.t
            &&& 1 <= ctxt_len <= pp.kahe.mu_kahe
            &&& servers[0].clients@.to_set().len() >= pp.min_clients
            &&& forall|i: int|
                0 <= i < servers.len() ==> (#[trigger] servers[i]).server_id.0 < pp.cs.n_servers
                    && servers[i].clients@ == servers[0].clients@
            &&& forall|i: int, j: int|
                0 <= i < j < servers.len() ==> (#[trigger] servers[i]).server_id != (
                #[trigger] servers[j]).server_id
            &&& forall|i: int|
                0 <= i < servers.len() ==> opens(pp.cs, root, (#[trigger] servers[i]).agg_open)
                    && servers[i].agg_open.path_index == servers[i].server_id.0 && (forall|k: int|
                    0 <= k < N ==> #[trigger] servers[i].agg_share@[k] % (CS_MODULUS as int)
                        == servers[i].agg_open.rs[pp.cs.kappa_cs as int]@[k] % (
                    CS_MODULUS as int))
        },
{
    lemma_cover(pp, servers);
    if servers.len() > 0 {
        lemma_roster(servers, servers[0].clients@, 0);
        law_every_opening_is_checked(pp, root, servers, 0);
    }
}

// ---------------------------------------------------------------
// The sharded flow
// ---------------------------------------------------------------

proof fn lemma_server_entries(
    pp: ProtocolParams,
    servers: Seq<ServerBulletinEntry>,
    canonical: Seq<ClientId>,
    from: int,
)
    requires
        0 <= from <= servers.len(),
    ensures
        server_entry_fault(pp, servers, canonical, from) is None <==> forall|i: int|
            from <= i < servers.len() ==> !#[trigger] bad_server(pp, servers, i)
                && servers[i].clients@ == canonical,
    decreases servers.len() - from,
{
    if from < servers.len() {
        lemma_server_entries(pp, servers, canonical, from + 1);
        if bad_server(pp, servers, from) || servers[from].clients@ != canonical {
            assert(!(!bad_server(pp, servers, from) && servers[from].clients@ == canonical));
        } else {
            assert forall|i: int|
                from <= i < servers.len() && server_entry_fault(
                    pp,
                    servers,
                    canonical,
                    from + 1,
                ) is None implies !#[trigger] bad_server(pp, servers, i) && servers[i].clients@
                == canonical by {
                if i > from {
                    assert(from + 1 <= i);
                }
            }
        }
    }
}

proof fn lemma_node_entries(
    rs: RsParams,
    nodes: Seq<RsNodeBulletinEntry>,
    canonical: Seq<ClientId>,
    from: int,
)
    requires
        0 <= from <= nodes.len(),
    ensures
        node_entry_fault(rs, nodes, canonical, from) is None <==> forall|i: int|
            from <= i < nodes.len() ==> !#[trigger] bad_node(rs, nodes, i) && nodes[i].clients@
                == canonical,
    decreases nodes.len() - from,
{
    if from < nodes.len() {
        lemma_node_entries(rs, nodes, canonical, from + 1);
        if bad_node(rs, nodes, from) || nodes[from].clients@ != canonical {
            assert(!(!bad_node(rs, nodes, from) && nodes[from].clients@ == canonical));
        } else {
            assert forall|i: int|
                from <= i < nodes.len() && node_entry_fault(rs, nodes, canonical, from + 1)
                    is None implies !#[trigger] bad_node(rs, nodes, i) && nodes[i].clients@
                == canonical by {
                if i > from {
                    assert(from + 1 <= i);
                }
            }
        }
    }
}

proof fn lemma_missing(
    entries: Seq<(ClientId, RsClientBulletinEntry)>,
    canonical: Seq<ClientId>,
    from: int,
)
    requires
        0 <= from <= canonical.len(),
    ensures
        missing_fault(entries, canonical, from) is None <==> forall|i: int|
            from <= i < canonical.len() ==> last_at(entries, #[trigger] canonical[i]) is Some,
    decreases canonical.len() - from,
{
    if from < canonical.len() {
        lemma_missing(entries, canonical, from + 1);
        if last_at(entries, canonical[from]) is Some {
            assert(forall|i: int|
                from <= i < canonical.len() ==> (#[trigger] canonical[i] == canonical[from]
                    || from + 1 <= i));
        }
    }
}

proof fn lemma_signatures(
    sid: SessionId,
    entries: Seq<(ClientId, RsClientBulletinEntry)>,
    canonical: Seq<ClientId>,
    from: int,
)
    requires
        0 <= from <= canonical.len(),
    ensures
        signature_fault(sid, entries, canonical, from) is None <==> forall|i: int|
            from <= i < canonical.len() ==> is_signed(
                sid,
                #[trigger] canonical[i],
                entry_of(entries, canonical[i]),
            ),
    decreases canonical.len() - from,
{
    if from < canonical.len() {
        lemma_signatures(sid, entries, canonical, from + 1);
        if is_signed(sid, canonical[from], entry_of(entries, canonical[from])) {
            assert(forall|i: int|
                from <= i < canonical.len() ==> (#[trigger] canonical[i] == canonical[from]
                    || from + 1 <= i));
        }
    }
}

/// The sharded flow goes on to the lanes' posts exactly if the session is in
/// the sharded mode, enough distinct clients take part, at least `t` servers and
/// `k` lanes with known and pairwise different identifiers posted, all list the
/// same clients, each of these posted and signed its post, and every server's
/// opening and share hold against the sum of the signed commitments.
pub proof fn law_sharded_flow_accepts(
    pp: ProtocolParams,
    sid: SessionId,
    canonical: Seq<ClientId>,
    entries: Seq<(ClientId, RsClientBulletinEntry)>,
    servers: Seq<ServerBulletinEntry>,
    nodes: Seq<RsNodeBulletinEntry>,
)
    requires
        servers.len() <= usize::MAX,
    ensures
        rs_fault(pp, sid, canonical, entries, servers, nodes) is None <==> {
            &&& pp.rs is Some
            &&& pp.share_comm is Some
            &&& servers.len() >= 1
            &&& servers.len() >= pp.shamir.t
            &&& nodes.len() >= pp.rs->0.k
            &&& canonical.to_set().len() >= pp.min_clients
            &&& forall|i: int|
                0 <= i < servers.len() ==> (#[trigger] servers[i]).server_id.0 < pp.cs.n_servers
                    && servers[i].clients@ == canonical
            &&& forall|i: int, j: int|
                0 <= i < j < servers.len() ==> (#[trigger] servers[i]).server_id != (
                #[trigger] servers[j]).server_id
            &&& forall|i: int|
                0 <= i < nodes.len() ==> (#[trigger] nodes[i]).node_id.0 < pp.rs->0.n
                    && nodes[i].clients@ == canonical
            &&& forall|i: int, j: int|
                0 <= i < j < nodes.len() ==> (#[trigger] nodes[i]).node_id != (
                #[trigger] nodes[j]).node_id
            &&& forall|i: int|
                0 <= i < canonical.len() ==> last_at(entries, #[trigger] canonical[i]) is Some
                    && is_signed(sid, canonical[i], entry_of(entries, canonical[i]))
            &&& forall|i: int|
                0 <= i < servers.len() ==> opens(
                    pp.cs,
                    hvc_sum(
                        Seq::new(
                            canonical.len(),
                            |c: int| entry_of(entries, canonical[c]).comm.root@,
                        ),
                    ),
                    (#[trigger] servers[i]).agg_open,
                ) && servers[i].agg_open.path_index == servers[i].server_id.0 && (forall|k: int|
                    0 <= k < N ==> #[trigger] servers[i].agg_share@[k] % (CS_MODULUS as int)
                        == servers[i].agg_open.rs[pp.cs.kappa_cs as int]@[k] % (
                    CS_MODULUS as int))
        },
{
    lemma_cover(pp, servers);
    lemma_server_entries(pp, servers, canonical, 0);
    lemma_missing(entries, canonical, 0);
    lemma_signatures(sid, entries, canonical, 0);
    let root = hvc_sum(signed_comms(entries, canonical));
    assert(signed_comms(entries, canonical) =~= Seq::new(
        canonical.len(),
        |c: int| entry_of(entries, canonical[c]).comm.root@,
    ));
    law_every_opening_is_checked(pp, root, servers, 0);
    if pp.rs is Some {
        let rs = pp.rs->0;
        lemma_node_entries(rs, nodes, canonical, 0);
        if node_entry_fault(rs, nodes, canonical, 0) is None {
            assert forall|i: int, j: int| 0 <= i < j < nodes.len() implies (
            #[trigger] nodes[i]).node_id != (#[trigger] nodes[j]).node_id by {
                assert(!bad_node(rs, nodes, j));
            }
            assert forall|i: int| 0 <= i < nodes.len() implies (#[trigger] nodes[i]).node_id.0
                < rs.n && nodes[i].clients@ == canonical by {
                assert(!bad_node(rs, nodes, i));
            }
        }
        if server_entry_fault(pp, servers, canonical, 0) is None {
            assert forall|i: int| 0 <= i < servers.len() implies (
            #[trigger] servers[i]).clients@ == canonical by {
                assert(!bad_server(pp, servers, i));
            }
        }
    }
}

/// The lanes listed as failing are exactly those whose posts do not hold: the
/// stated position is the lane's own, the sum of a systematic lane is in the
/// honest range, and the post opens the summed roots.
pub proof fn law_failing_lanes_are_named(
    scp: ShareCommitmentParams,
    rs: RsParams,
    root: Coeffs,
    nodes: Seq<RsNodeBulletinEntry>,
    n: nat,
)
    requires
        n <= nodes.len(),
    ensures
        forall|id: NodeId| #[trigger]
            failing_lanes(scp, rs, root, nodes, n).contains(id) <==> exists|i: int|
                0 <= i < n && (#[trigger] nodes[i]).node_id == id && !lane_holds(
                    scp,
                    rs,
                    root,
                    nodes[i],
                ),
        failing_lanes(scp, rs, root, nodes, n).len() == 0 <==> forall|i: int|
            0 <= i < n ==> lane_holds(scp, rs, root, #[trigger] nodes[i]),
    decreases n,
{
    if n > 0 {
        let m = (n - 1) as nat;
        law_failing_lanes_are_named(scp, rs, root, nodes, m);
        let (low, all) = (
            failing_lanes(scp, rs, root, nodes, m),
            failing_lanes(scp, rs, root, nodes, n),
        );
        assert forall|id: NodeId| #[trigger] all.contains(id) <==> exists|i: int|
            0 <= i < n && (#[trigger] nodes[i]).node_id == id && !lane_holds(
                scp,
                rs,
                root,
                nodes[i],
            ) by {
            lemma_contains_push(low, nodes[m as int].node_id, id);
            assert(low.contains(id) <==> exists|i: int|
                0 <= i < m && (#[trigger] nodes[i]).node_id == id && !lane_holds(
                    scp,
                    rs,
                    root,
                    nodes[i],
                ));
        }
        assert(nodes[m as int] == nodes[n - 1]);
    }
}

proof fn lemma_contains_push(s: Seq<NodeId>, x: NodeId, y: NodeId)
    ensures
        s.push(x).contains(y) <==> s.contains(y) || x == y,
{
    let t = s.push(x);
    assert(t[s.len() as int] == x);
    if s.contains(y) {
        let i = choose|i: int| 0 <= i < s.len() && s[i] == y;
        assert(t[i] == y);
    }
    if t.contains(y) {
        let i = choose|i: int| 0 <= i < t.len() && t[i] == y;
        if i < s.len() {
            assert(s[i] == y);
        }
    }
}

/// The lanes listed as lying are exactly those whose posts are not their shares
/// of the reconstructed word.
pub proof fn law_lying_lanes_are_named(
    rs: RsParams,
    flat: Seq<DgtNTTPoly>,
    nodes: Seq<RsNodeBulletinEntry>,
    n: nat,
)
    requires
        n <= nodes.len(),
    ensures
        forall|id: NodeId| #[trigger]
            lying_lanes(rs, flat, nodes, n).contains(id) <==> exists|i: int|
                0 <= i < n && (#[trigger] nodes[i]).node_id == id && !lane_agrees(
                    rs,
                    flat,
                    nodes[i],
                ),
        lying_lanes(rs, flat, nodes, n).len() == 0 <==> forall|i: int|
            0 <= i < n ==> lane_agrees(rs, flat, #[trigger] nodes[i]),
    decreases n,
{
    if n > 0 {
        let m = (n - 1) as nat;
        law_lying_lanes_are_named(rs, flat, nodes, m);
        let (low, all) = (lying_lanes(rs, flat, nodes, m), lying_lanes(rs, flat, nodes, n));
        assert forall|id: NodeId| #[trigger] all.contains(id) <==> exists|i: int|
            0 <= i < n && (#[trigger] nodes[i]).node_id == id && !lane_agrees(
                rs,
                flat,
                nodes[i],
            ) by {
            lemma_contains_push(low, nodes[m as int].node_id, id);
            assert(low.contains(id) <==> exists|i: int|
                0 <= i < m && (#[trigger] nodes[i]).node_id == id && !lane_agrees(
                    rs,
                    flat,
                    nodes[i],
                ));
        }
        assert(nodes[m as int] == nodes[n - 1]);
    }
}

/// A lane's post holds exactly if the stated position is the lane's own, the sum
/// is in the honest range where the lane carries a block as it is, and the post
/// is accepted against the summed roots.
pub proof fn law_lane_holds(
    scp: ShareCommitmentParams,
    rs: RsParams,
    root: Coeffs,
    np: RsNodeBulletinEntry,
)
    ensures
        lane_holds(scp, rs, root, np) <==> {
            &&& np.agg_open.lane_index == np.node_id.0
            &&& np.node_id.0 < rs.k ==> crate::digest::sum_is_honest(
                scp.rho_max as int,
                np.share_sum@,
            )
            &&& crate::share_commitment::accepts(
                scp,
                root,
                crate::share_commitment::dgt_views(np.share_sum@),
                np.agg_open,
            )
        },
{
}

} // verus!
