//! The verifier: checks what servers and lanes posted and decrypts the sum.

use super::roster::{count_distinct, distinct_count, last_at, last_of, lemma_last_at, same_ids};
use super::{ClientId, NodeId, ProtocolParams, ServerId, SessionId};
use crate::bulletin::{
    ClientBulletinEntry, RsClientBulletinEntry, RsNodeBulletinEntry, ServerBulletinEntry,
};
use crate::cs::{opens, Commitment, HidingMerkleCommitment};
use crate::digest::{centered_within_bound, sum_is_honest, to_kahe};
use crate::field;
use crate::hvc::{hvc_sum, sum_hvc_polys};
use crate::kahe::{
    aggregated_at, all_roomy, decrypted_at, lemma_roomy, lift_cs_to_kahe, Kahe, KaheAggKey,
};
use crate::negacyclic::{centered, cong_poly, Coeffs, N};
use crate::rings::{
    centered_poly, CsPoly, DgtNTTPoly, HVCPoly, KahePoly, CS_MODULUS, DGT_MODULUS, KAHE_MODULUS,
};
use crate::rs::{
    block_len_of, coded_residue, recovered_residue, Coded, Rs, RsError, RsParams,
};
use crate::share_commitment::{
    accepts, dgt_views, dgt_wf, verify_aggregated, ShareCommitmentParams,
};
use crate::sig::{compressed_of, is_signature, VerifyingKey};
use crate::sss::{points_fit, recovered, sample_points, ShamirSharing, SssError};
use vstd::prelude::*;

verus! {

#[derive(Debug, PartialEq, Eq)]
pub enum VerifyError {
    MissingClient(ClientId),
    InvalidServerOpening(usize),
    ShareOpeningMismatch(usize),
    NoServers,
    BadServerCoverage,
    InconsistentCanonical(ServerId),
    InconsistentCiphertextLen(ServerId),
    AnonymitySetTooSmall { got: usize, min: usize },
    ShareRecovery(SssError),
    /// The parameters are not those of the sharded mode.
    NotRsMode,
    NotEnoughNodes,
    BadNodeCoverage,
    InconsistentNodeCanonical(NodeId),
    BadSignature(ClientId),
    Reconstruct(RsError),
    /// These lanes' posts do not open the summed signed roots.
    LaneOpeningFailed(Vec<NodeId>),
    /// The reconstruction is not a sum of honest ciphertexts.
    CiphertextOutOfRange,
}

// ---------------------------------------------------------------
// Servers
// ---------------------------------------------------------------

/// Whether an earlier server has the same identifier.
pub open spec fn server_repeats(servers: Seq<ServerBulletinEntry>, i: int) -> bool {
    exists|j: int| 0 <= j < i && (#[trigger] servers[j]).server_id == servers[i].server_id
}

/// The identifier is unknown or repeated.
pub open spec fn bad_server(pp: ProtocolParams, servers: Seq<ServerBulletinEntry>, i: int) -> bool {
    servers[i].server_id.0 >= pp.cs.n_servers || server_repeats(servers, i)
}

/// Known, distinct identifiers.
pub open spec fn servers_cover(pp: ProtocolParams, servers: Seq<ServerBulletinEntry>) -> bool {
    forall|i: int| 0 <= i < servers.len() ==> !#[trigger] bad_server(pp, servers, i)
}

/// The first server from `i` that lists other clients.
pub open spec fn roster_fault(
    servers: Seq<ServerBulletinEntry>,
    canonical: Seq<ClientId>,
    i: int,
) -> Option<VerifyError>
    decreases servers.len() - i,
{
    if i >= servers.len() {
        None
    } else if servers[i].clients@ != canonical {
        Some(VerifyError::InconsistentCanonical(servers[i].server_id))
    } else {
        roster_fault(servers, canonical, i + 1)
    }
}

/// What is wrong with one server's opening.
pub open spec fn opening_fault(
    pp: ProtocolParams,
    root: Coeffs,
    sp: ServerBulletinEntry,
    i: usize,
) -> Option<VerifyError> {
    if !opens(pp.cs, root, sp.agg_open) || sp.agg_open.path_index != sp.server_id.0 {
        Some(VerifyError::InvalidServerOpening(i))
    } else if !cong_poly(
        sp.agg_share@,
        sp.agg_open.rs[sp.agg_open.kappa_cs as int]@,
        CS_MODULUS as int,
    ) {
        Some(VerifyError::ShareOpeningMismatch(i))
    } else {
        None
    }
}

/// What is wrong with the first faulty opening from `i`.
pub open spec fn openings_fault(
    pp: ProtocolParams,
    root: Coeffs,
    servers: Seq<ServerBulletinEntry>,
    i: int,
) -> Option<VerifyError>
    decreases servers.len() - i,
{
    if i >= servers.len() {
        None
    } else {
        match opening_fault(pp, root, servers[i], i as usize) {
            Some(e) => Some(e),
            None => openings_fault(pp, root, servers, i + 1),
        }
    }
}

/// No server is excused: nothing is wrong with the openings exactly if every
/// server's opening opens the root at the server's own position and the share
/// that it posts beside the opening is the opened one. A fault names a server
/// that fails, and how.
pub proof fn law_every_opening_is_checked(
    pp: ProtocolParams,
    root: Coeffs,
    servers: Seq<ServerBulletinEntry>,
    from: int,
)
    requires
        0 <= from <= servers.len() <= usize::MAX,
    ensures
        openings_fault(pp, root, servers, from) is None <==> forall|i: int|
            from <= i < servers.len() ==> opens(pp.cs, root, (#[trigger] servers[i]).agg_open)
                && servers[i].agg_open.path_index == servers[i].server_id.0 && (forall|k: int|
                0 <= k < N ==> #[trigger] servers[i].agg_share@[k] % (CS_MODULUS as int)
                    == servers[i].agg_open.rs[pp.cs.kappa_cs as int]@[k] % (CS_MODULUS as int)),
        match openings_fault(pp, root, servers, from) {
            None => true,
            Some(VerifyError::InvalidServerOpening(i)) => from <= i < servers.len() && (!opens(
                pp.cs,
                root,
                servers[i as int].agg_open,
            ) || servers[i as int].agg_open.path_index != servers[i as int].server_id.0),
            Some(VerifyError::ShareOpeningMismatch(i)) => from <= i < servers.len() && opens(
                pp.cs,
                root,
                servers[i as int].agg_open,
            ) && exists|k: int|
                0 <= k < N && #[trigger] servers[i as int].agg_share@[k] % (CS_MODULUS as int)
                    != servers[i as int].agg_open.rs[pp.cs.kappa_cs as int]@[k] % (
                CS_MODULUS as int),
            Some(_) => false,
        },
    decreases servers.len() - from,
{
    if from < servers.len() {
        law_every_opening_is_checked(pp, root, servers, from + 1);
        let sp = servers[from];
        let (a, b) = (sp.agg_share@, sp.agg_open.rs[sp.agg_open.kappa_cs as int]@);
        if opening_fault(pp, root, sp, from as usize) is None {
            assert forall|k: int| 0 <= k < N implies #[trigger] sp.agg_share@[k] % (
            CS_MODULUS as int) == sp.agg_open.rs[pp.cs.kappa_cs as int]@[k] % (
            CS_MODULUS as int) by {
                assert(field::cong(a[k], b[k], CS_MODULUS as int));
            }
            assert(forall|i: int|
                from <= i < servers.len() ==> (#[trigger] servers[i] == servers[from] || from + 1
                    <= i));
        } else if opens(pp.cs, root, sp.agg_open) && sp.agg_open.path_index == sp.server_id.0 {
            let k = choose|k: int|
                0 <= k < a.len() && !field::cong(#[trigger] a[k], b[k], CS_MODULUS as int);
            assert(sp.agg_share@[k] % (CS_MODULUS as int) != b[k] % (CS_MODULUS as int));
        }
    }
}

fn verify_one_server(
    pp: &ProtocolParams,
    summed_comm: &Commitment,
    i: usize,
    sp: &ServerBulletinEntry,
) -> (r: Result<(), VerifyError>)
    requires
        pp.wf(),
    ensures
        match r {
            Ok(_) => opening_fault(*pp, summed_comm.root@, *sp, i) is None,
            Err(e) => opening_fault(*pp, summed_comm.root@, *sp, i) == Some(e),
        },
        r is Ok <==> opens(pp.cs, summed_comm.root@, sp.agg_open) && sp.agg_open.path_index
            == sp.server_id.0 && cong_poly(
            sp.agg_share@,
            sp.agg_open.rs[pp.cs.kappa_cs as int]@,
            CS_MODULUS as int,
        ),
{
    if !HidingMerkleCommitment::verify(&pp.cs, summed_comm, &sp.agg_open) {
        return Err(VerifyError::InvalidServerOpening(i));
    }
    if sp.agg_open.path_index != sp.server_id.0 as usize {
        return Err(VerifyError::InvalidServerOpening(i));
    }
    let k: usize = sp.agg_open.kappa_cs;
    if !(sp.agg_share == sp.agg_open.rs[k]) {
        return Err(VerifyError::ShareOpeningMismatch(i));
    }
    Ok(())
}

fn verify_openings(
    pp: &ProtocolParams,
    summed_comm: &Commitment,
    servers: &[ServerBulletinEntry],
) -> (r: Result<(), VerifyError>)
    requires
        pp.wf(),
    ensures
        match r {
            Ok(_) => openings_fault(*pp, summed_comm.root@, servers@, 0) is None,
            Err(e) => openings_fault(*pp, summed_comm.root@, servers@, 0) == Some(e),
        },
        r is Ok <==> forall|i: int|
            0 <= i < servers.len() ==> opens(
                pp.cs,
                summed_comm.root@,
                (#[trigger] servers[i]).agg_open,
            ) && servers[i].agg_open.path_index == servers[i].server_id.0 && cong_poly(
                servers[i].agg_share@,
                servers[i].agg_open.rs[pp.cs.kappa_cs as int]@,
                CS_MODULUS as int,
            ),
{
    let n: usize = servers.len();
    for i in 0..n
        invariant
            pp.wf(),
            n == servers.len(),
            openings_fault(*pp, summed_comm.root@, servers@, 0) == openings_fault(
                *pp,
                summed_comm.root@,
                servers@,
                i as int,
            ),
            forall|k: int|
                0 <= k < i ==> opens(
                    pp.cs,
                    summed_comm.root@,
                    (#[trigger] servers[k]).agg_open,
                ) && servers[k].agg_open.path_index == servers[k].server_id.0 && cong_poly(
                    servers[k].agg_share@,
                    servers[k].agg_open.rs[pp.cs.kappa_cs as int]@,
                    CS_MODULUS as int,
                ),
    {
        match verify_one_server(pp, summed_comm, i, &servers[i]) {
            Err(e) => {
                return Err(e);
            },
            Ok(_) => {},
        }
    }
    Ok(())
}

fn server_is_bad(pp: &ProtocolParams, servers: &[ServerBulletinEntry], i: usize) -> (r: bool)
    requires
        i < servers.len(),
    ensures
        r == bad_server(*pp, servers@, i as int),
{
    let id: ServerId = servers[i].server_id;
    if id.0 as usize >= pp.cs.n_servers {
        return true;
    }
    for j in 0..i
        invariant
            i < servers.len(),
            id == servers[i as int].server_id,
            forall|k: int| 0 <= k < j ==> (#[trigger] servers[k]).server_id != id,
    {
        if servers[j].server_id == id {
            assert(servers@[j as int].server_id == servers@[i as int].server_id);
            return true;
        }
    }
    false
}

fn check_coverage(pp: &ProtocolParams, servers: &[ServerBulletinEntry]) -> (r: bool)
    ensures
        r == servers_cover(*pp, servers@),
{
    let n: usize = servers.len();
    for i in 0..n
        invariant
            n == servers.len(),
            forall|k: int| 0 <= k < i ==> !#[trigger] bad_server(*pp, servers@, k),
    {
        if server_is_bad(pp, servers, i) {
            assert(bad_server(*pp, servers@, i as int));
            return false;
        }
    }
    true
}

fn check_rosters(servers: &[ServerBulletinEntry], canonical: &[ClientId]) -> (r: Result<
    (),
    VerifyError,
>)
    ensures
        match r {
            Ok(_) => roster_fault(servers@, canonical@, 0) is None,
            Err(e) => roster_fault(servers@, canonical@, 0) == Some(e),
        },
{
    let n: usize = servers.len();
    for i in 0..n
        invariant
            n == servers.len(),
            roster_fault(servers@, canonical@, 0) == roster_fault(
                servers@,
                canonical@,
                i as int,
            ),
    {
        if !same_ids(&servers[i].clients, canonical) {
            return Err(VerifyError::InconsistentCanonical(servers[i].server_id));
        }
    }
    Ok(())
}

// ---------------------------------------------------------------
// The key
// ---------------------------------------------------------------

/// The shares of the first `t` servers.
pub open spec fn key_samples(servers: Seq<ServerBulletinEntry>, t: int) -> Seq<(usize, CsPoly)> {
    Seq::new(t as nat, |i: int| (servers[i].server_id.0 as usize, servers[i].agg_share))
}

/// The key that the shares of the first servers interpolate to.
pub open spec fn recovered_key(pp: ProtocolParams, servers: Seq<ServerBulletinEntry>) -> Coeffs {
    let t = pp.shamir.t as int;
    centered_poly(recovered(key_samples(servers, t), t), CS_MODULUS as int)
}

pub(crate) proof fn lemma_points(pp: ProtocolParams, servers: Seq<ServerBulletinEntry>)
    requires
        pp.wf(),
        servers_cover(pp, servers),
        servers.len() >= pp.shamir.t,
    ensures
        points_fit(sample_points(key_samples(servers, pp.shamir.t as int), pp.shamir.t as int)),
{
    let t = pp.shamir.t as int;
    let xs = sample_points(key_samples(servers, t), t);
    assert forall|i: int| 0 <= i < t implies #[trigger] xs[i] == servers[i].server_id.0 + 1 by {
        assert(!bad_server(pp, servers, i));
        field::lemma_small(servers[i].server_id.0 + 1, CS_MODULUS as int);
    }
    assert forall|i: int| 0 <= i < xs.len() implies #[trigger] crate::sss::point_fault(xs, i)
        is None by {
        assert(xs[i] == servers[i].server_id.0 + 1);
        assert forall|j: int| i < j < xs.len() implies #[trigger] xs[j] != xs[i] by {
            assert(xs[j] == servers[j].server_id.0 + 1);
            assert(!bad_server(pp, servers, j));
            assert(servers[i].server_id != servers[j].server_id);
        }
    }
}

/// Interpolates the aggregate key from the first `t` servers' shares.
fn recover_agg_key(pp: &ProtocolParams, servers: &[ServerBulletinEntry]) -> (r: Result<
    KahePoly,
    VerifyError,
>)
    requires
        pp.wf(),
        servers_cover(*pp, servers@),
        servers.len() >= pp.shamir.t,
    ensures
        r matches Ok(k) && k@ == recovered_key(*pp, servers@),
{
    let t: usize = pp.shamir.t;
    let mut samples: Vec<(usize, CsPoly)> = Vec::with_capacity(t);
    for i in 0..t
        invariant
            pp.wf(),
            servers_cover(*pp, servers@),
            t == pp.shamir.t,
            t <= servers.len(),
            samples.len() == i,
            forall|k: int|
                0 <= k < i ==> #[trigger] samples[k] == key_samples(servers@, t as int)[k],
            forall|k: int| 0 <= k < i ==> (#[trigger] samples[k]).0 < i64::MAX,
    {
        assert(!bad_server(*pp, servers@, i as int));
        samples.push((servers[i].server_id.0 as usize, servers[i].agg_share));
    }
    proof {
        assert(samples@ =~= key_samples(servers@, t as int));
        lemma_points(*pp, servers@);
    }
    match ShamirSharing::recover(&pp.shamir, &samples) {
        Err(e) => Err(VerifyError::ShareRecovery(e)),
        Ok(p) => Ok(lift_cs_to_kahe(&p)),
    }
}

/// `m` is the decryption of the ciphertext with coefficients `c` under `key`.
pub open spec fn is_plaintext(
    pp: ProtocolParams,
    c: Seq<Coeffs>,
    key: Coeffs,
    m: Seq<KahePoly>,
) -> bool {
    &&& m.len() == c.len()
    &&& forall|i: int, j: int|
        0 <= i < m.len() && 0 <= j < N ==> #[trigger] m[i]@[j] == decrypted_at(
            pp.kahe.a_ntt[i]@,
            key,
            c[i],
            pp.kahe.t_modulus as int,
            j,
        )
}

/// Fewer distinct clients than the session asks for.
pub open spec fn floor_fault(pp: ProtocolParams, clients: Seq<ClientId>) -> Option<VerifyError> {
    if distinct_count(clients) < pp.min_clients {
        Some(
            VerifyError::AnonymitySetTooSmall {
                got: distinct_count(clients) as usize,
                min: pp.min_clients,
            },
        )
    } else {
        None
    }
}

pub(crate) fn check_anonymity_floor(pp: &ProtocolParams, clients: &[ClientId]) -> (r: Result<
    (),
    VerifyError,
>)
    ensures
        match r {
            Ok(_) => floor_fault(*pp, clients@) is None,
            Err(e) => floor_fault(*pp, clients@) == Some(e),
        },
{
    let got: usize = count_distinct(clients);
    if got < pp.min_clients {
        return Err(VerifyError::AnonymitySetTooSmall { got, min: pp.min_clients });
    }
    Ok(())
}

// ---------------------------------------------------------------
// The direct flow
// ---------------------------------------------------------------

/// The entry that counts for `id`: the last one posted.
pub open spec fn entry_of<T>(entries: Seq<(ClientId, T)>, id: ClientId) -> T {
    entries[last_at(entries, id)->0].1
}

/// The ciphertexts of the listed clients.
pub open spec fn chosen_ctxts(
    entries: Seq<(ClientId, ClientBulletinEntry)>,
    canonical: Seq<ClientId>,
) -> Seq<Seq<KahePoly>> {
    Seq::new(canonical.len(), |i: int| entry_of(entries, canonical[i]).ctxt@)
}

/// The commitments of the listed clients.
pub open spec fn chosen_roots(
    entries: Seq<(ClientId, ClientBulletinEntry)>,
    canonical: Seq<ClientId>,
) -> Seq<Coeffs> {
    Seq::new(canonical.len(), |i: int| entry_of(entries, canonical[i]).comm.root@)
}

/// The first listed client, from `i`, that posted nothing or a ciphertext of
/// another length than the first, or one too long.
pub open spec fn client_fault(
    pp: ProtocolParams,
    entries: Seq<(ClientId, ClientBulletinEntry)>,
    canonical: Seq<ClientId>,
    first: ServerId,
    i: int,
) -> Option<VerifyError>
    decreases canonical.len() - i,
{
    if i >= canonical.len() {
        None
    } else if last_at(entries, canonical[i]) is None {
        Some(VerifyError::MissingClient(canonical[i]))
    } else {
        let len = entry_of(entries, canonical[i]).ctxt.len();
        if len != entry_of(entries, canonical[0]).ctxt.len() || len > pp.kahe.mu_kahe {
            Some(VerifyError::InconsistentCiphertextLen(first))
        } else {
            client_fault(pp, entries, canonical, first, i + 1)
        }
    }
}

/// The summed ciphertext.
pub open spec fn summed(ctxts: Seq<Seq<KahePoly>>) -> Seq<Coeffs> {
    Seq::new(
        if ctxts.len() == 0 {
            0
        } else {
            ctxts[0].len()
        },
        |pos: int| Seq::new(N as nat, |k: int| aggregated_at(ctxts, pos, k)),
    )
}

/// Why the direct flow refuses, if it does.
pub open spec fn direct_fault(
    pp: ProtocolParams,
    canonical: Seq<ClientId>,
    entries: Seq<(ClientId, ClientBulletinEntry)>,
    servers: Seq<ServerBulletinEntry>,
) -> Option<VerifyError> {
    if servers.len() == 0 {
        Some(VerifyError::NoServers)
    } else if floor_fault(pp, canonical) is Some {
        floor_fault(pp, canonical)
    } else if servers.len() < pp.shamir.t || !servers_cover(pp, servers) {
        Some(VerifyError::BadServerCoverage)
    } else if roster_fault(servers, canonical, 0) is Some {
        roster_fault(servers, canonical, 0)
    } else if client_fault(pp, entries, canonical, servers[0].server_id, 0) is Some {
        client_fault(pp, entries, canonical, servers[0].server_id, 0)
    } else {
        openings_fault(pp, hvc_sum(chosen_roots(entries, canonical)), servers, 0)
    }
}

/// The listed clients' ciphertexts and commitments.
fn collect_posts<'a>(
    pp: &ProtocolParams,
    canonical: &[ClientId],
    client_entries: &'a [(ClientId, ClientBulletinEntry)],
    first: ServerId,
) -> (r: Result<(Vec<&'a [KahePoly]>, Vec<&'a Commitment>), VerifyError>)
    ensures
        match r {
            Err(e) => client_fault(*pp, client_entries@, canonical@, first, 0) == Some(e),
            Ok(posts) => {
                let all = chosen_ctxts(client_entries@, canonical@);
                &&& client_fault(*pp, client_entries@, canonical@, first, 0) is None
                &&& posts.0.len() == canonical.len()
                &&& posts.1.len() == canonical.len()
                &&& forall|k: int|
                    0 <= k < canonical.len() ==> (#[trigger] posts.0[k])@ == all[k] && all[k].len()
                        == all[0].len()
                &&& canonical.len() > 0 ==> all[0].len() <= pp.kahe.mu_kahe
                &&& forall|k: int|
                    0 <= k < canonical.len() ==> (#[trigger] posts.1[k]).root@ == chosen_roots(
                        client_entries@,
                        canonical@,
                    )[k]
            },
        },
{
    let ghost all = chosen_ctxts(client_entries@, canonical@);
    let n: usize = canonical.len();
    let mut ctxts: Vec<&[KahePoly]> = Vec::with_capacity(n);
    let mut comms: Vec<&Commitment> = Vec::with_capacity(n);
    let mut expected: usize = 0;
    for i in 0..n
        invariant
            n == canonical.len(),
            all == chosen_ctxts(client_entries@, canonical@),
            ctxts.len() == i,
            comms.len() == i,
            i > 0 ==> expected == all[0].len(),
            i > 0 ==> expected <= pp.kahe.mu_kahe,
            forall|k: int| 0 <= k < i ==> (#[trigger] ctxts[k])@ == all[k],
            forall|k: int| 0 <= k < i ==> (#[trigger] ctxts[k])@.len() == expected,
            forall|k: int|
                0 <= k < i ==> (#[trigger] comms[k]).root@ == chosen_roots(
                    client_entries@,
                    canonical@,
                )[k],
            client_fault(*pp, client_entries@, canonical@, first, 0) == client_fault(
                *pp,
                client_entries@,
                canonical@,
                first,
                i as int,
            ),
    {
        let id: ClientId = canonical[i];
        match last_of(client_entries, id) {
            None => {
                return Err(VerifyError::MissingClient(id));
            },
            Some(at) => {
                let e: &ClientBulletinEntry = &client_entries[at].1;
                assert(*e == entry_of(client_entries@, id));
                if i == 0 {
                    expected = e.ctxt.len();
                }
                if e.ctxt.len() != expected || e.ctxt.len() > pp.kahe.mu_kahe {
                    return Err(VerifyError::InconsistentCiphertextLen(first));
                }
                ctxts.push(e.ctxt.as_slice());
                comms.push(&e.comm);
            },
        }
    }
    proof {
        assert forall|k: int| 0 <= k < canonical.len() implies (#[trigger] ctxts[k])@ == all[k]
            && all[k].len() == all[0].len() by {
            assert(ctxts[0]@ == all[0]);
            assert(ctxts[k]@.len() == expected);
        }
    }
    Ok((ctxts, comms))
}

/// Sums the listed clients' posts, checks every server against the sum, and
/// decrypts with the key that the servers' shares give.
pub fn aggregate_and_decrypt(
    pp: &ProtocolParams,
    canonical: &[ClientId],
    client_entries: &[(ClientId, ClientBulletinEntry)],
    server_outputs: &[ServerBulletinEntry],
) -> (r: Result<Vec<KahePoly>, VerifyError>)
    requires
        pp.wf(),
    ensures
        match r {
            Ok(m) => direct_fault(*pp, canonical@, client_entries@, server_outputs@) is None
                && is_plaintext(
                *pp,
                summed(chosen_ctxts(client_entries@, canonical@)),
                recovered_key(*pp, server_outputs@),
                m@,
            ),
            Err(e) => direct_fault(*pp, canonical@, client_entries@, server_outputs@) == Some(e),
        },
        r is Ok ==> forall|i: int|
            0 <= i < server_outputs.len() ==> opens(
                pp.cs,
                hvc_sum(chosen_roots(client_entries@, canonical@)),
                (#[trigger] server_outputs[i]).agg_open,
            ) && server_outputs[i].agg_open.path_index == server_outputs[i].server_id.0
                && cong_poly(
                server_outputs[i].agg_share@,
                server_outputs[i].agg_open.rs[pp.cs.kappa_cs as int]@,
                CS_MODULUS as int,
            ),
{
    if server_outputs.len() == 0 {
        return Err(VerifyError::NoServers);
    }
    match check_anonymity_floor(pp, canonical) {
        Err(e) => {
            return Err(e);
        },
        Ok(_) => {},
    }
    if server_outputs.len() < pp.shamir.t {
        return Err(VerifyError::BadServerCoverage);
    }
    if !check_coverage(pp, server_outputs) {
        return Err(VerifyError::BadServerCoverage);
    }
    match check_rosters(server_outputs, canonical) {
        Err(e) => {
            return Err(e);
        },
        Ok(_) => {},
    }
    let ghost all = chosen_ctxts(client_entries@, canonical@);
    let first: ServerId = server_outputs[0].server_id;
    let (ctxts, comms): (Vec<&[KahePoly]>, Vec<&Commitment>) = match collect_posts(
        pp,
        canonical,
        client_entries,
        first,
    ) {
        Err(e) => {
            return Err(e);
        },
        Ok(posts) => posts,
    };
    proof {
        assert forall|k: int| 0 <= k < ctxts.len() implies (#[trigger] ctxts[k])@.len()
            >= ctxts[0]@.len() by {
            assert(ctxts[0]@.len() == all[0].len());
        }
    }
    let summed_ctxt: Vec<KahePoly> = Kahe::agg_ctxt_refs(&ctxts);
    let summed_comm: Commitment = HidingMerkleCommitment::sum_commitment_refs(&comms);
    proof {
        assert(ctxts@.map(|_i: int, s: &[KahePoly]| s@) =~= all);
        assert(comms@.map(|_i: int, c: &Commitment| c.root@) =~= chosen_roots(
            client_entries@,
            canonical@,
        ));
        lemma_summed(all, summed_ctxt@);
    }
    match verify_openings(pp, &summed_comm, server_outputs) {
        Err(e) => {
            return Err(e);
        },
        Ok(_) => {},
    }
    let key: KahePoly = match recover_agg_key(pp, server_outputs) {
        Err(e) => {
            return Err(e);
        },
        Ok(k) => k,
    };
    let agg_key = KaheAggKey::from_component(key);
    proof {
        lemma_roomy(summed_ctxt@);
    }
    Ok(Kahe::dec(&pp.kahe, &summed_ctxt, &agg_key))
}

/// The coefficient vectors of a sum.
pub(crate) proof fn lemma_summed(ctxts: Seq<Seq<KahePoly>>, c: Seq<KahePoly>)
    requires
        c.len() == (if ctxts.len() == 0 {
            0
        } else {
            ctxts[0].len() as int
        }),
        forall|pos: int, k: int|
            0 <= pos < c.len() && 0 <= k < N ==> #[trigger] c[pos]@[k] == aggregated_at(
                ctxts,
                pos,
                k,
            ),
    ensures
        summed(ctxts).len() == c.len(),
        forall|pos: int| 0 <= pos < c.len() ==> (#[trigger] c[pos])@ == summed(ctxts)[pos],
{
    assert forall|pos: int| 0 <= pos < c.len() implies (#[trigger] c[pos])@ == summed(ctxts)[pos] by {
        assert(c[pos]@ =~= summed(ctxts)[pos]);
    }
}

// ---------------------------------------------------------------
// The aggregated flow
// ---------------------------------------------------------------

/// Why the aggregated flow refuses, if it does.
pub open spec fn aggregate_fault(
    pp: ProtocolParams,
    ctxt_len: int,
    root: Coeffs,
    servers: Seq<ServerBulletinEntry>,
) -> Option<VerifyError> {
    if servers.len() == 0 {
        Some(VerifyError::NoServers)
    } else if servers.len() < pp.shamir.t {
        Some(VerifyError::BadServerCoverage)
    } else if ctxt_len == 0 || ctxt_len > pp.kahe.mu_kahe {
        Some(VerifyError::InconsistentCiphertextLen(servers[0].server_id))
    } else if !servers_cover(pp, servers) {
        Some(VerifyError::BadServerCoverage)
    } else if roster_fault(servers, servers[0].clients@, 0) is Some {
        roster_fault(servers, servers[0].clients@, 0)
    } else if floor_fault(pp, servers[0].clients@) is Some {
        floor_fault(pp, servers[0].clients@)
    } else {
        openings_fault(pp, root, servers, 0)
    }
}

/// As [`aggregate_and_decrypt`], with the sums over all clients already formed.
pub fn decrypt_aggregate(
    pp: &ProtocolParams,
    summed_ctxt: &[KahePoly],
    summed_comm: &Commitment,
    server_outputs: &[ServerBulletinEntry],
) -> (r: Result<Vec<KahePoly>, VerifyError>)
    requires
        pp.wf(),
        all_roomy(summed_ctxt@),
    ensures
        match r {
            Ok(m) => aggregate_fault(
                *pp,
                summed_ctxt.len() as int,
                summed_comm.root@,
                server_outputs@,
            ) is None && is_plaintext(
                *pp,
                crate::kahe::kahe_views(summed_ctxt@),
                recovered_key(*pp, server_outputs@),
                m@,
            ),
            Err(e) => aggregate_fault(
                *pp,
                summed_ctxt.len() as int,
                summed_comm.root@,
                server_outputs@,
            ) == Some(e),
        },
        r is Ok ==> forall|i: int|
            0 <= i < server_outputs.len() ==> opens(
                pp.cs,
                summed_comm.root@,
                (#[trigger] server_outputs[i]).agg_open,
            ) && server_outputs[i].agg_open.path_index == server_outputs[i].server_id.0
                && cong_poly(
                server_outputs[i].agg_share@,
                server_outputs[i].agg_open.rs[pp.cs.kappa_cs as int]@,
                CS_MODULUS as int,
            ),
{
    if server_outputs.len() == 0 {
        return Err(VerifyError::NoServers);
    }
    if server_outputs.len() < pp.shamir.t {
        return Err(VerifyError::BadServerCoverage);
    }
    if summed_ctxt.len() == 0 || summed_ctxt.len() > pp.kahe.mu_kahe {
        return Err(VerifyError::InconsistentCiphertextLen(server_outputs[0].server_id));
    }
    if !check_coverage(pp, server_outputs) {
        return Err(VerifyError::BadServerCoverage);
    }
    match check_rosters(server_outputs, &server_outputs[0].clients) {
        Err(e) => {
            return Err(e);
        },
        Ok(_) => {},
    }
    match check_anonymity_floor(pp, &server_outputs[0].clients) {
        Err(e) => {
            return Err(e);
        },
        Ok(_) => {},
    }
    match verify_openings(pp, summed_comm, server_outputs) {
        Err(e) => {
            return Err(e);
        },
        Ok(_) => {},
    }
    let key: KahePoly = match recover_agg_key(pp, server_outputs) {
        Err(e) => {
            return Err(e);
        },
        Ok(k) => k,
    };
    let agg_key = KaheAggKey::from_component(key);
    Ok(Kahe::dec(&pp.kahe, summed_ctxt, &agg_key))
}

proof fn lemma_client_lengths(
    pp: ProtocolParams,
    entries: Seq<(ClientId, ClientBulletinEntry)>,
    canonical: Seq<ClientId>,
    first: ServerId,
)
    requires
        client_fault(pp, entries, canonical, first, 0) is None,
    ensures
        summed(chosen_ctxts(entries, canonical)).len() <= pp.kahe.mu_kahe,
{
    if canonical.len() > 0 {
        assert(chosen_ctxts(entries, canonical)[0] == entry_of(entries, canonical[0]).ctxt@);
    }
}

/// What the direct flow accepts, the aggregated flow accepts of the same sums,
/// unless the ciphertexts are empty. Both then decrypt the same sum with the
/// same key.
pub proof fn law_aggregate_flow_agrees(
    pp: ProtocolParams,
    canonical: Seq<ClientId>,
    entries: Seq<(ClientId, ClientBulletinEntry)>,
    servers: Seq<ServerBulletinEntry>,
)
    requires
        direct_fault(pp, canonical, entries, servers) is None,
        summed(chosen_ctxts(entries, canonical)).len() > 0,
    ensures
        aggregate_fault(
            pp,
            summed(chosen_ctxts(entries, canonical)).len() as int,
            hvc_sum(chosen_roots(entries, canonical)),
            servers,
        ) is None,
{
    lemma_client_lengths(pp, entries, canonical, servers[0].server_id);
    assert(servers[0].clients@ == canonical);
}

// ---------------------------------------------------------------
// The sharded flow
// ---------------------------------------------------------------

/// The first server from `i` with a bad identifier or other clients.
pub open spec fn server_entry_fault(
    pp: ProtocolParams,
    servers: Seq<ServerBulletinEntry>,
    canonical: Seq<ClientId>,
    i: int,
) -> Option<VerifyError>
    decreases servers.len() - i,
{
    if i >= servers.len() {
        None
    } else if bad_server(pp, servers, i) {
        Some(VerifyError::BadServerCoverage)
    } else if servers[i].clients@ != canonical {
        Some(VerifyError::InconsistentCanonical(servers[i].server_id))
    } else {
        server_entry_fault(pp, servers, canonical, i + 1)
    }
}

/// Whether an earlier lane has the same identifier.
pub open spec fn node_repeats(nodes: Seq<RsNodeBulletinEntry>, i: int) -> bool {
    exists|j: int| 0 <= j < i && (#[trigger] nodes[j]).node_id == nodes[i].node_id
}

/// The lane is unknown or repeated.
pub open spec fn bad_node(rs: RsParams, nodes: Seq<RsNodeBulletinEntry>, i: int) -> bool {
    nodes[i].node_id.0 >= rs.n || node_repeats(nodes, i)
}

/// The first lane from `i` with a bad identifier or other clients.
pub open spec fn node_entry_fault(
    rs: RsParams,
    nodes: Seq<RsNodeBulletinEntry>,
    canonical: Seq<ClientId>,
    i: int,
) -> Option<VerifyError>
    decreases nodes.len() - i,
{
    if i >= nodes.len() {
        None
    } else if bad_node(rs, nodes, i) {
        Some(VerifyError::BadNodeCoverage)
    } else if nodes[i].clients@ != canonical {
        Some(VerifyError::InconsistentNodeCanonical(nodes[i].node_id))
    } else {
        node_entry_fault(rs, nodes, canonical, i + 1)
    }
}

/// The first listed client from `i` that posted nothing.
pub open spec fn missing_fault(
    entries: Seq<(ClientId, RsClientBulletinEntry)>,
    canonical: Seq<ClientId>,
    i: int,
) -> Option<VerifyError>
    decreases canonical.len() - i,
{
    if i >= canonical.len() {
        None
    } else if last_at(entries, canonical[i]) is None {
        Some(VerifyError::MissingClient(canonical[i]))
    } else {
        missing_fault(entries, canonical, i + 1)
    }
}

/// The post carries a valid signature of its commitment and root by its key.
pub open spec fn is_signed(sid: SessionId, id: ClientId, e: RsClientBulletinEntry) -> bool {
    compressed_of(e.pubkey@) matches Some(key) && is_signature(
        key,
        RsClientBulletinEntry::signed(sid, id, e.comm, e.share_root),
        e.sig@,
    )
}

/// The first listed client from `i` whose post is not signed.
pub open spec fn signature_fault(
    sid: SessionId,
    entries: Seq<(ClientId, RsClientBulletinEntry)>,
    canonical: Seq<ClientId>,
    i: int,
) -> Option<VerifyError>
    decreases canonical.len() - i,
{
    if i >= canonical.len() {
        None
    } else if !is_signed(sid, canonical[i], entry_of(entries, canonical[i])) {
        Some(VerifyError::BadSignature(canonical[i]))
    } else {
        signature_fault(sid, entries, canonical, i + 1)
    }
}

/// The commitments of the listed clients.
pub open spec fn signed_comms(
    entries: Seq<(ClientId, RsClientBulletinEntry)>,
    canonical: Seq<ClientId>,
) -> Seq<Coeffs> {
    Seq::new(canonical.len(), |i: int| entry_of(entries, canonical[i]).comm.root@)
}

/// The share roots of the listed clients.
pub open spec fn signed_roots(
    entries: Seq<(ClientId, RsClientBulletinEntry)>,
    canonical: Seq<ClientId>,
) -> Seq<Coeffs> {
    Seq::new(canonical.len(), |i: int| entry_of(entries, canonical[i]).share_root@)
}

/// Why the sharded flow refuses before it looks at the lanes' posts, if it does.
pub open spec fn rs_fault(
    pp: ProtocolParams,
    sid: SessionId,
    canonical: Seq<ClientId>,
    entries: Seq<(ClientId, RsClientBulletinEntry)>,
    servers: Seq<ServerBulletinEntry>,
    nodes: Seq<RsNodeBulletinEntry>,
) -> Option<VerifyError> {
    if !pp.is_rs_mode() {
        Some(VerifyError::NotRsMode)
    } else if servers.len() == 0 {
        Some(VerifyError::NoServers)
    } else if floor_fault(pp, canonical) is Some {
        floor_fault(pp, canonical)
    } else if servers.len() < pp.shamir.t {
        Some(VerifyError::BadServerCoverage)
    } else if nodes.len() < pp.rs->0.k {
        Some(VerifyError::NotEnoughNodes)
    } else if server_entry_fault(pp, servers, canonical, 0) is Some {
        server_entry_fault(pp, servers, canonical, 0)
    } else if node_entry_fault(pp.rs->0, nodes, canonical, 0) is Some {
        node_entry_fault(pp.rs->0, nodes, canonical, 0)
    } else if missing_fault(entries, canonical, 0) is Some {
        missing_fault(entries, canonical, 0)
    } else if signature_fault(sid, entries, canonical, 0) is Some {
        signature_fault(sid, entries, canonical, 0)
    } else {
        openings_fault(pp, hvc_sum(signed_comms(entries, canonical)), servers, 0)
    }
}

/// A lane's post opens the summed roots at the lane's position; the sums of the
/// first `k` lanes are in the honest range.
pub open spec fn lane_holds(
    scp: ShareCommitmentParams,
    rs: RsParams,
    root: Coeffs,
    np: RsNodeBulletinEntry,
) -> bool {
    &&& np.agg_open.lane_index == np.node_id.0
    &&& np.node_id.0 >= rs.k || sum_is_honest(scp.rho_max as int, np.share_sum@)
    &&& accepts(scp, root, dgt_views(np.share_sum@), np.agg_open)
}

/// The lanes among the first `n` whose posts do not hold, in order.
pub open spec fn failing_lanes(
    scp: ShareCommitmentParams,
    rs: RsParams,
    root: Coeffs,
    nodes: Seq<RsNodeBulletinEntry>,
    n: nat,
) -> Seq<NodeId>
    decreases n,
{
    if n == 0 {
        Seq::empty()
    } else {
        let low = failing_lanes(scp, rs, root, nodes, (n - 1) as nat);
        if lane_holds(scp, rs, root, nodes[n - 1]) {
            low
        } else {
            low.push(nodes[n - 1].node_id)
        }
    }
}

/// `order` lists all lanes by ascending identifier.
pub open spec fn lanes_ascend(nodes: Seq<RsNodeBulletinEntry>, order: Seq<int>) -> bool {
    &&& order.len() == nodes.len()
    &&& forall|i: int| 0 <= i < order.len() ==> 0 <= #[trigger] order[i] < nodes.len()
    &&& forall|i: int, j: int|
        0 <= i < j < order.len() ==> nodes[#[trigger] order[i]].node_id.0
            < nodes[#[trigger] order[j]].node_id.0
}

/// `flat` is what the lanes first in `order` reconstruct to.
pub open spec fn interpolates(
    pp: ProtocolParams,
    nodes: Seq<RsNodeBulletinEntry>,
    order: Seq<int>,
    flat: Seq<DgtNTTPoly>,
) -> bool {
    let k = pp.rs->0.k as int;
    let bl = block_len_of(pp.kahe.mu_kahe as int, k);
    &&& lanes_ascend(nodes, order)
    &&& flat.len() == pp.kahe.mu_kahe
    &&& dgt_wf(flat)
    &&& forall|b: int, pos: int, i: int|
        0 <= b < k && 0 <= pos < bl && b * bl + pos < pp.kahe.mu_kahe && 0 <= i < N
            ==> #[trigger] flat[b * bl + pos]@[i] == recovered_residue(
            Seq::new(k as nat, |t: int| nodes[order[t]].node_id.0 as int),
            Seq::new(k as nat, |t: int| nodes[order[t]].share_sum[pos]@[i]),
            b,
            DGT_MODULUS as int,
        )
}

/// `flat` is what the lanes reconstruct to, systematic lanes first.
pub open spec fn reconstructs(
    pp: ProtocolParams,
    nodes: Seq<RsNodeBulletinEntry>,
    flat: Seq<DgtNTTPoly>,
) -> bool {
    exists|order: Seq<int>| interpolates(pp, nodes, order, flat)
}

/// The post is the lane's share of the code word of `flat`.
pub open spec fn lane_agrees(rs: RsParams, flat: Seq<DgtNTTPoly>, np: RsNodeBulletinEntry) -> bool {
    let bl = block_len_of(flat.len() as int, rs.k as int);
    &&& np.share_sum.len() == bl
    &&& forall|t: int, i: int|
        0 <= t < bl && 0 <= i < N ==> #[trigger] np.share_sum[t]@[i] == coded_residue(
            flat,
            rs.k as int,
            bl,
            np.node_id.0 as int,
            t,
            0,
            i,
        )
}

/// The lanes among the first `n` whose posts are not their shares, in order.
pub open spec fn lying_lanes(
    rs: RsParams,
    flat: Seq<DgtNTTPoly>,
    nodes: Seq<RsNodeBulletinEntry>,
    n: nat,
) -> Seq<NodeId>
    decreases n,
{
    if n == 0 {
        Seq::empty()
    } else {
        let low = lying_lanes(rs, flat, nodes, (n - 1) as nat);
        if lane_agrees(rs, flat, nodes[n - 1]) {
            low
        } else {
            low.push(nodes[n - 1].node_id)
        }
    }
}

/// Why the lanes' posts are refused.
pub open spec fn lanes_refused(
    pp: ProtocolParams,
    root: Coeffs,
    nodes: Seq<RsNodeBulletinEntry>,
    e: VerifyError,
) -> bool {
    let (rs, scp) = (pp.rs->0, pp.share_comm->0);
    let failing = failing_lanes(scp, rs, root, nodes, nodes.len());
    if failing.len() > 0 {
        e matches VerifyError::LaneOpeningFailed(v) && v@ == failing
    } else {
        exists|flat: Seq<DgtNTTPoly>| #[trigger]
            reconstructs(pp, nodes, flat) && if !sum_is_honest(scp.rho_max as int, flat) {
                e == VerifyError::CiphertextOutOfRange
            } else {
                let lying = lying_lanes(rs, flat, nodes, nodes.len());
                lying.len() > 0 && (e matches VerifyError::LaneOpeningFailed(v) && v@ == lying)
            }
    }
}

/// The ciphertext that an exact sum reduces to.
pub open spec fn reduced_sum(flat: Seq<DgtNTTPoly>) -> Seq<Coeffs> {
    Seq::new(
        flat.len(),
        |j: int|
            Seq::new(
                N as nat,
                |i: int|
                    centered(centered(flat[j].poly()[i], DGT_MODULUS as int), KAHE_MODULUS as int),
            ),
    )
}

/// `m` is the decryption of what the lanes' posts, all of which hold and agree,
/// reconstruct to.
pub open spec fn lanes_decrypt(
    pp: ProtocolParams,
    root: Coeffs,
    nodes: Seq<RsNodeBulletinEntry>,
    key: Coeffs,
    m: Seq<KahePoly>,
) -> bool {
    let (rs, scp) = (pp.rs->0, pp.share_comm->0);
    &&& failing_lanes(scp, rs, root, nodes, nodes.len()).len() == 0
    &&& exists|flat: Seq<DgtNTTPoly>| #[trigger]
        reconstructs(pp, nodes, flat) && sum_is_honest(scp.rho_max as int, flat) && lying_lanes(
            rs,
            flat,
            nodes,
            nodes.len(),
        ).len() == 0 && is_plaintext(pp, reduced_sum(flat), key, m)
}

fn check_server_entries(
    pp: &ProtocolParams,
    servers: &[ServerBulletinEntry],
    canonical: &[ClientId],
) -> (r: Result<(), VerifyError>)
    ensures
        match r {
            Ok(_) => server_entry_fault(*pp, servers@, canonical@, 0) is None && servers_cover(
                *pp,
                servers@,
            ),
            Err(e) => server_entry_fault(*pp, servers@, canonical@, 0) == Some(e),
        },
{
    let n: usize = servers.len();
    for i in 0..n
        invariant
            n == servers.len(),
            forall|k: int| 0 <= k < i ==> !#[trigger] bad_server(*pp, servers@, k),
            server_entry_fault(*pp, servers@, canonical@, 0) == server_entry_fault(
                *pp,
                servers@,
                canonical@,
                i as int,
            ),
    {
        if server_is_bad(pp, servers, i) {
            return Err(VerifyError::BadServerCoverage);
        }
        if !same_ids(&servers[i].clients, canonical) {
            return Err(VerifyError::InconsistentCanonical(servers[i].server_id));
        }
    }
    Ok(())
}

fn node_is_bad(rs: &RsParams, nodes: &[RsNodeBulletinEntry], i: usize) -> (r: bool)
    requires
        i < nodes.len(),
    ensures
        r == bad_node(*rs, nodes@, i as int),
{
    let id: NodeId = nodes[i].node_id;
    if id.0 as usize >= rs.n {
        return true;
    }
    for j in 0..i
        invariant
            i < nodes.len(),
            id == nodes[i as int].node_id,
            forall|k: int| 0 <= k < j ==> (#[trigger] nodes[k]).node_id != id,
    {
        if nodes[j].node_id == id {
            assert(nodes@[j as int].node_id == nodes@[i as int].node_id);
            return true;
        }
    }
    false
}

fn check_node_entries(
    rs: &RsParams,
    nodes: &[RsNodeBulletinEntry],
    canonical: &[ClientId],
) -> (r: Result<(), VerifyError>)
    ensures
        match r {
            Ok(_) => node_entry_fault(*rs, nodes@, canonical@, 0) is None && forall|k: int|
                0 <= k < nodes.len() ==> !#[trigger] bad_node(*rs, nodes@, k),
            Err(e) => node_entry_fault(*rs, nodes@, canonical@, 0) == Some(e),
        },
{
    let n: usize = nodes.len();
    for i in 0..n
        invariant
            n == nodes.len(),
            forall|k: int| 0 <= k < i ==> !#[trigger] bad_node(*rs, nodes@, k),
            node_entry_fault(*rs, nodes@, canonical@, 0) == node_entry_fault(
                *rs,
                nodes@,
                canonical@,
                i as int,
            ),
    {
        if node_is_bad(rs, nodes, i) {
            return Err(VerifyError::BadNodeCoverage);
        }
        if !same_ids(&nodes[i].clients, canonical) {
            return Err(VerifyError::InconsistentNodeCanonical(nodes[i].node_id));
        }
    }
    Ok(())
}

/// The listed clients' posts.
fn collect_signed<'a>(
    canonical: &[ClientId],
    client_entries: &'a [(ClientId, RsClientBulletinEntry)],
) -> (r: Result<Vec<&'a RsClientBulletinEntry>, VerifyError>)
    ensures
        match r {
            Ok(v) => missing_fault(client_entries@, canonical@, 0) is None && v.len()
                == canonical.len() && forall|k: int|
                0 <= k < v.len() ==> *#[trigger] v[k] == entry_of(
                    client_entries@,
                    canonical[k],
                ) && client_entries@.contains((canonical[k], *v[k])),
            Err(e) => missing_fault(client_entries@, canonical@, 0) == Some(e),
        },
{
    let n: usize = canonical.len();
    let mut out: Vec<&RsClientBulletinEntry> = Vec::with_capacity(n);
    for i in 0..n
        invariant
            n == canonical.len(),
            out.len() == i,
            forall|k: int|
                0 <= k < i ==> *#[trigger] out[k] == entry_of(client_entries@, canonical[k])
                    && client_entries@.contains((canonical[k], *out[k])),
            missing_fault(client_entries@, canonical@, 0) == missing_fault(
                client_entries@,
                canonical@,
                i as int,
            ),
    {
        let id: ClientId = canonical[i];
        match last_of(client_entries, id) {
            None => {
                return Err(VerifyError::MissingClient(id));
            },
            Some(at) => {
                let e: &RsClientBulletinEntry = &client_entries[at].1;
                proof {
                    lemma_last_at(client_entries@, id);
                    assert(client_entries@[at as int] == (id, *e));
                }
                out.push(e);
            },
        }
    }
    Ok(out)
}

fn check_signatures(
    sid: &SessionId,
    canonical: &[ClientId],
    posts: &Vec<&RsClientBulletinEntry>,
    Ghost(entries): Ghost<Seq<(ClientId, RsClientBulletinEntry)>>,
) -> (r: Result<(), VerifyError>)
    requires
        posts.len() == canonical.len(),
        forall|k: int| 0 <= k < posts.len() ==> (#[trigger] posts[k]).fits(),
        forall|k: int| 0 <= k < posts.len() ==> *#[trigger] posts[k] == entry_of(
            entries,
            canonical[k],
        ),
    ensures
        match r {
            Ok(_) => signature_fault(*sid, entries, canonical@, 0) is None,
            Err(e) => signature_fault(*sid, entries, canonical@, 0) == Some(e),
        },
{
    let n: usize = canonical.len();
    for i in 0..n
        invariant
            n == canonical.len(),
            n == posts.len(),
            forall|k: int| 0 <= k < posts.len() ==> (#[trigger] posts[k]).fits(),
            forall|k: int|
                0 <= k < posts.len() ==> *#[trigger] posts[k] == entry_of(entries, canonical[k]),
            signature_fault(*sid, entries, canonical@, 0) == signature_fault(
                *sid,
                entries,
                canonical@,
                i as int,
            ),
    {
        let id: ClientId = canonical[i];
        let e: &RsClientBulletinEntry = posts[i];
        assert(posts[i as int].fits());
        match VerifyingKey::from_sec1_bytes(e.pubkey.as_slice()) {
            Err(_) => {
                return Err(VerifyError::BadSignature(id));
            },
            Ok(vk) => {
                let msg: Vec<u8> = RsClientBulletinEntry::signing_bytes(
                    sid,
                    id,
                    &e.comm,
                    &e.share_root,
                );
                match vk.verify(&msg, &e.sig) {
                    Err(_) => {
                        return Err(VerifyError::BadSignature(id));
                    },
                    Ok(_) => {},
                }
            },
        }
    }
    Ok(())
}

fn lane_is_good(
    scp: &ShareCommitmentParams,
    rs: &RsParams,
    root: &HVCPoly,
    np: &RsNodeBulletinEntry,
) -> (r: bool)
    requires
        scp.wf(),
        dgt_wf(np.share_sum@),
    ensures
        r == lane_holds(*scp, *rs, root@, *np),
{
    let id: usize = np.node_id.0 as usize;
    if np.agg_open.lane_index != id {
        return false;
    }
    if id < rs.k {
        match centered_within_bound(scp.rho_max, &np.share_sum) {
            None => {
                return false;
            },
            Some(_) => {},
        }
    }
    verify_aggregated(scp, root, &np.share_sum, &np.agg_open)
}

fn find_failing(
    scp: &ShareCommitmentParams,
    rs: &RsParams,
    root: &HVCPoly,
    nodes: &[RsNodeBulletinEntry],
) -> (r: Vec<NodeId>)
    requires
        scp.wf(),
        forall|i: int| 0 <= i < nodes.len() ==> dgt_wf((#[trigger] nodes[i]).share_sum@),
    ensures
        r@ == failing_lanes(*scp, *rs, root@, nodes@, nodes.len() as nat),
        r.len() == 0 ==> forall|i: int|
            0 <= i < nodes.len() ==> lane_holds(*scp, *rs, root@, #[trigger] nodes[i]),
{
    let n: usize = nodes.len();
    let mut bad: Vec<NodeId> = Vec::new();
    for i in 0..n
        invariant
            scp.wf(),
            n == nodes.len(),
            forall|i: int| 0 <= i < nodes.len() ==> dgt_wf((#[trigger] nodes[i]).share_sum@),
            bad@ == failing_lanes(*scp, *rs, root@, nodes@, i as nat),
            bad.len() == 0 ==> forall|k: int|
                0 <= k < i ==> lane_holds(*scp, *rs, root@, #[trigger] nodes[k]),
    {
        assert(dgt_wf(nodes[i as int].share_sum@));
        if !lane_is_good(scp, rs, root, &nodes[i]) {
            bad.push(nodes[i].node_id);
        }
    }
    bad
}

/// Indices of the lanes by ascending identifier.
fn lane_order(nodes: &[RsNodeBulletinEntry]) -> (r: Vec<usize>)
    requires
        forall|i: int, j: int|
            0 <= i < j < nodes.len() ==> (#[trigger] nodes[i]).node_id != (
            #[trigger] nodes[j]).node_id,
    ensures
        lanes_ascend(nodes@, indices(r@)),
{
    let n: usize = nodes.len();
    let mut r: Vec<usize> = Vec::with_capacity(n);
    for i in 0..n
        invariant
            n == nodes.len(),
            r.len() == i,
            forall|a: int, b: int|
                0 <= a < b < nodes.len() ==> (#[trigger] nodes[a]).node_id != (
                #[trigger] nodes[b]).node_id,
            forall|k: int| 0 <= k < i ==> 0 <= #[trigger] r[k] < i,
            forall|a: int, b: int|
                0 <= a < b < i ==> nodes[(#[trigger] r[a]) as int].node_id.0
                    < nodes[(#[trigger] r[b]) as int].node_id.0,
    {
        let id: u32 = nodes[i].node_id.0;
        let mut at: usize = 0;
        while at < r.len() && nodes[r[at]].node_id.0 < id
            invariant
                at <= r.len(),
                r.len() == i,
                i < n,
                n == nodes.len(),
                id == nodes[i as int].node_id.0,
                forall|k: int| 0 <= k < i ==> 0 <= #[trigger] r[k] < i,
                forall|k: int| 0 <= k < at ==> nodes[(#[trigger] r[k]) as int].node_id.0 < id,
            decreases r.len() - at,
        {
            at = at + 1;
        }
        let ghost before = r@;
        r.insert(at, i);
        proof {
            assert forall|k: int| 0 <= k < i + 1 implies 0 <= #[trigger] r[k] < i + 1 by {
                if k != at {
                    let k0 = if k < at { k } else { k - 1 };
                    assert(0 <= before[k0] < i);
                }
            }
            assert forall|a: int, b: int| 0 <= a < b < i + 1 implies nodes[(
            #[trigger] r[a]) as int].node_id.0 < nodes[(#[trigger] r[b]) as int].node_id.0 by {
                let (p, q) = (if a < at { a } else { a - 1 }, if b < at { b } else { b - 1 });
                if a != at && b != at {
                    assert(nodes[before[p] as int].node_id.0 < nodes[before[q] as int].node_id.0);
                } else if a == at {
                    let m = before[at as int] as int;
                    assert(0 <= before[at as int] < i);
                    assert(nodes[m].node_id != nodes[i as int].node_id);
                    if q > at {
                        assert(nodes[before[at as int] as int].node_id.0
                            < nodes[before[q] as int].node_id.0);
                    }
                } else {
                    assert(nodes[before[p] as int].node_id.0 < id);
                }
            }
        }
    }
    proof {
        assert forall|k: int| 0 <= k < n implies 0 <= #[trigger] indices(r@)[k] < nodes.len() by {
            assert(0 <= r[k] < n);
        }
        assert forall|a: int, b: int| 0 <= a < b < n implies nodes[#[trigger] indices(
            r@,
        )[a]].node_id.0 < nodes[#[trigger] indices(r@)[b]].node_id.0 by {
            assert(nodes[r[a] as int].node_id.0 < nodes[r[b] as int].node_id.0);
        }
    }
    r
}

pub open spec fn indices(s: Seq<usize>) -> Seq<int> {
    s.map_values(|x: usize| x as int)
}

/// Reconstructs the summed ciphertext, systematic lanes first.
fn reconstruct_sum(
    pp: &ProtocolParams,
    rs: &RsParams,
    nodes: &[RsNodeBulletinEntry],
) -> (r: Result<Vec<DgtNTTPoly>, VerifyError>)
    requires
        pp.wf(),
        pp.rs == Some(*rs),
        nodes.len() >= rs.k,
        forall|i: int| 0 <= i < nodes.len() ==> !#[trigger] bad_node(*rs, nodes@, i),
        forall|i: int| 0 <= i < nodes.len() ==> dgt_wf((#[trigger] nodes[i]).share_sum@),
        forall|i: int|
            0 <= i < nodes.len() ==> (#[trigger] nodes[i]).share_sum.len() == block_len_of(
                pp.kahe.mu_kahe as int,
                rs.k as int,
            ),
    ensures
        r matches Ok(flat) && reconstructs(*pp, nodes@, flat@) && dgt_wf(flat@) && flat.len()
            == pp.kahe.mu_kahe,
{
    let ell: usize = pp.kahe.mu_kahe;
    proof {
        assert forall|i: int, j: int| 0 <= i < j < nodes.len() implies (
        #[trigger] nodes[i]).node_id != (#[trigger] nodes[j]).node_id by {
            assert(!bad_node(*rs, nodes@, j));
        }
    }
    let order: Vec<usize> = lane_order(nodes);
    let ghost ord = indices(order@);
    let n: usize = nodes.len();
    let mut samples: Vec<(usize, &[DgtNTTPoly])> = Vec::with_capacity(n);
    for i in 0..n
        invariant
            n == nodes.len(),
            order.len() == n,
            ord == indices(order@),
            lanes_ascend(nodes@, ord),
            forall|i: int| 0 <= i < nodes.len() ==> dgt_wf((#[trigger] nodes[i]).share_sum@),
            samples.len() == i,
            forall|k: int|
                0 <= k < i ==> (#[trigger] samples[k]).0 == nodes[ord[k]].node_id.0
                    && samples[k].1@ == nodes[ord[k]].share_sum@,
            forall|k: int|
                0 <= k < i ==> crate::rs::all_canonical((#[trigger] samples[k]).1@),
    {
        assert(0 <= ord[i as int] < nodes.len());
        let at: usize = order[i];
        assert(dgt_wf(nodes[at as int].share_sum@));
        samples.push((nodes[at].node_id.0 as usize, nodes[at].share_sum.as_slice()));
    }
    proof {
        let bl = block_len_of(ell as int, rs.k as int);
        assert forall|i: int| 0 <= i < rs.k implies #[trigger] crate::rs::sample_fault(
            *rs,
            bl,
            samples@,
            i,
        ) is None by {
            assert(0 <= ord[i] < nodes.len());
            assert(!bad_node(*rs, nodes@, ord[i]));
            assert(samples[i].0 == nodes[ord[i]].node_id.0);
            assert(nodes[ord[i]].share_sum.len() == bl);
            assert forall|j: int| 0 <= j < i implies (#[trigger] samples@[j]).0 != samples@[i].0 by {
                assert(nodes[ord[j]].node_id.0 < nodes[ord[i]].node_id.0);
                assert(samples[j].0 == nodes[ord[j]].node_id.0);
            }
        }
    }
    match Rs::reconstruct(rs, ell, &samples) {
        Err(e) => Err(VerifyError::Reconstruct(e)),
        Ok(flat) => {
            proof {
                let k = rs.k as int;
                let bl = block_len_of(ell as int, k);
                let ids = Seq::new(k as nat, |t: int| nodes@[ord[t]].node_id.0 as int);
                assert(crate::rs::sample_nodes(samples@, k) =~= ids) by {
                    assert forall|t: int| 0 <= t < k implies crate::rs::sample_nodes(
                        samples@,
                        k,
                    )[t] == ids[t] by {
                        assert(samples[t].0 == nodes[ord[t]].node_id.0);
                    }
                }
                assert forall|b: int, pos: int, i: int|
                    0 <= b < k && 0 <= pos < bl && b * bl + pos < ell && 0 <= i < N implies
                    #[trigger] flat[b * bl + pos]@[i] == recovered_residue(
                    ids,
                    Seq::new(k as nat, |t: int| nodes@[ord[t]].share_sum[pos]@[i]),
                    b,
                    DGT_MODULUS as int,
                ) by {
                    let col = Seq::new(k as nat, |t: int| nodes@[ord[t]].share_sum[pos]@[i]);
                    assert(crate::rs::sample_column(samples@, k, pos, 0, i) =~= col) by {
                        assert forall|t: int| 0 <= t < k implies crate::rs::sample_column(
                            samples@,
                            k,
                            pos,
                            0,
                            i,
                        )[t] == col[t] by {
                            assert(samples[t].1@ == nodes[ord[t]].share_sum@);
                        }
                    }
                    assert(flat[b * bl + pos].residue(0, i) == flat[b * bl + pos]@[i]);
                }
                assert(interpolates(*pp, nodes@, ord, flat@));
            }
            Ok(flat)
        },
    }
}

/// Lanes whose posts are not their shares of the code word of `flat`.
fn find_lying(rs: &RsParams, flat: &Vec<DgtNTTPoly>, nodes: &[RsNodeBulletinEntry]) -> (r: Vec<
    NodeId,
>)
    requires
        rs.wf(),
        dgt_wf(flat@),
        flat.len() + rs.k <= usize::MAX,
        forall|i: int| 0 <= i < nodes.len() ==> (#[trigger] nodes[i]).node_id.0 < rs.n,
    ensures
        r@ == lying_lanes(*rs, flat@, nodes@, nodes.len() as nat),
{
    let ghost bl = block_len_of(flat.len() as int, rs.k as int);
    let expected: Vec<Vec<DgtNTTPoly>> = Rs::encode(rs, flat);
    let n: usize = nodes.len();
    let mut bad: Vec<NodeId> = Vec::new();
    for i in 0..n
        invariant
            n == nodes.len(),
            bl == block_len_of(flat.len() as int, rs.k as int),
            expected.len() == rs.n,
            forall|j: int| 0 <= j < rs.n ==> (#[trigger] expected[j]).len() == bl,
            forall|j: int, t: int, c: int, k: int|
                0 <= j < rs.n && 0 <= t < expected[j].len() && 0 <= c < 1 && 0 <= k < N
                    ==> #[trigger] expected[j][t].residue(c, k) == coded_residue(
                    flat@,
                    rs.k as int,
                    bl,
                    j,
                    t,
                    c,
                    k,
                ),
            forall|i: int| 0 <= i < nodes.len() ==> (#[trigger] nodes[i]).node_id.0 < rs.n,
            bad@ == lying_lanes(*rs, flat@, nodes@, i as nat),
    {
        let np: &RsNodeBulletinEntry = &nodes[i];
        assert(nodes[i as int].node_id.0 < rs.n);
        let id: usize = np.node_id.0 as usize;
        let same: bool = same_polys(&expected[id], &np.share_sum);
        proof {
            assert(expected[id as int].len() == bl);
            if same {
                assert forall|t: int, k: int| 0 <= t < bl && 0 <= k < N implies
                    #[trigger] np.share_sum[t]@[k] == coded_residue(
                    flat@,
                    rs.k as int,
                    bl,
                    id as int,
                    t,
                    0,
                    k,
                ) by {
                    assert(expected[id as int][t]@ == np.share_sum[t]@);
                    assert(expected[id as int][t].residue(0, k) == expected[id as int][t]@[k]);
                }
            } else if np.share_sum.len() == bl {
                let t = choose|t: int|
                    0 <= t < bl && (#[trigger] expected[id as int][t])@ != np.share_sum[t]@;
                if lane_agrees(*rs, flat@, *np) {
                    assert forall|k: int| 0 <= k < N implies expected[id as int][t]@[k]
                        == np.share_sum[t]@[k] by {
                        assert(expected[id as int][t].residue(0, k) == expected[id as int][t]@[k]);
                        assert(np.share_sum[t]@[k] == coded_residue(
                            flat@,
                            rs.k as int,
                            bl,
                            id as int,
                            t,
                            0,
                            k,
                        ));
                    }
                    assert(expected[id as int][t]@ =~= np.share_sum[t]@);
                }
            }
        }
        if !same {
            bad.push(np.node_id);
        }
    }
    bad
}

fn same_polys(a: &Vec<DgtNTTPoly>, b: &Vec<DgtNTTPoly>) -> (r: bool)
    ensures
        r ==> a.len() == b.len() && forall|t: int|
            0 <= t < a.len() ==> (#[trigger] a[t])@ == b[t]@,
        !r && a.len() == b.len() ==> exists|t: int|
            0 <= t < a.len() && (#[trigger] a[t])@ != b[t]@,
{
    if a.len() != b.len() {
        return false;
    }
    let n: usize = a.len();
    for t in 0..n
        invariant
            n == a.len(),
            n == b.len(),
            forall|k: int| 0 <= k < t ==> (#[trigger] a[k])@ == b[k]@,
    {
        if !(a[t] == b[t]) {
            assert(a[t as int]@ != b[t as int]@);
            return false;
        }
    }
    true
}

/// What the sharded flow answers: the decryption, or the first fault.
pub open spec fn is_rs_answer(
    pp: ProtocolParams,
    sid: SessionId,
    canonical: Seq<ClientId>,
    entries: Seq<(ClientId, RsClientBulletinEntry)>,
    servers: Seq<ServerBulletinEntry>,
    nodes: Seq<RsNodeBulletinEntry>,
    r: Result<Vec<KahePoly>, VerifyError>,
) -> bool {
    let fault = rs_fault(pp, sid, canonical, entries, servers, nodes);
    let root = hvc_sum(signed_roots(entries, canonical));
    match r {
        Ok(m) => fault is None && lanes_decrypt(pp, root, nodes, recovered_key(pp, servers), m@),
        Err(e) => fault == Some(e) || (fault is None && lanes_refused(pp, root, nodes, e)),
    }
}

/// The sharded flow: checks signatures, server openings and lane posts,
/// reconstructs the exact summed ciphertext, and decrypts it.
pub fn aggregate_and_decrypt_rs(
    pp: &ProtocolParams,
    sid: &SessionId,
    canonical: &[ClientId],
    client_entries: &[(ClientId, RsClientBulletinEntry)],
    server_outputs: &[ServerBulletinEntry],
    node_outputs: &[RsNodeBulletinEntry],
) -> (r: Result<Vec<KahePoly>, VerifyError>)
    requires
        pp.wf(),
        forall|i: int| 0 <= i < client_entries.len() ==> (#[trigger] client_entries[i]).1.fits(),
        forall|i: int|
            0 <= i < node_outputs.len() ==> dgt_wf((#[trigger] node_outputs[i]).share_sum@),
    ensures
        is_rs_answer(
            *pp,
            *sid,
            canonical@,
            client_entries@,
            server_outputs@,
            node_outputs@,
            r,
        ),
        r is Ok ==> forall|i: int|
            0 <= i < server_outputs.len() ==> opens(
                pp.cs,
                hvc_sum(signed_comms(client_entries@, canonical@)),
                (#[trigger] server_outputs[i]).agg_open,
            ) && server_outputs[i].agg_open.path_index == server_outputs[i].server_id.0
                && cong_poly(
                server_outputs[i].agg_share@,
                server_outputs[i].agg_open.rs[pp.cs.kappa_cs as int]@,
                CS_MODULUS as int,
            ),
{
    let rs: &RsParams = match &pp.rs {
        None => {
            return Err(VerifyError::NotRsMode);
        },
        Some(rs) => rs,
    };
    let scp: &ShareCommitmentParams = match &pp.share_comm {
        None => {
            return Err(VerifyError::NotRsMode);
        },
        Some(scp) => scp,
    };
    if server_outputs.len() == 0 {
        return Err(VerifyError::NoServers);
    }
    match check_anonymity_floor(pp, canonical) {
        Err(e) => {
            return Err(e);
        },
        Ok(_) => {},
    }
    if server_outputs.len() < pp.shamir.t {
        return Err(VerifyError::BadServerCoverage);
    }
    if node_outputs.len() < rs.k {
        return Err(VerifyError::NotEnoughNodes);
    }
    match check_server_entries(pp, server_outputs, canonical) {
        Err(e) => {
            return Err(e);
        },
        Ok(_) => {},
    }
    match check_node_entries(rs, node_outputs, canonical) {
        Err(e) => {
            return Err(e);
        },
        Ok(_) => {},
    }
    let posts: Vec<&RsClientBulletinEntry> = match collect_signed(canonical, client_entries) {
        Err(e) => {
            return Err(e);
        },
        Ok(v) => v,
    };
    proof {
        assert forall|k: int| 0 <= k < posts.len() implies (#[trigger] posts[k]).fits() by {
            let at = choose|at: int|
                0 <= at < client_entries@.len() && client_entries@[at] == (
                    canonical[k],
                    *posts[k],
                );
            assert(client_entries[at].1.fits());
        }
    }
    match check_signatures(sid, canonical, &posts, Ghost(client_entries@)) {
        Err(e) => {
            return Err(e);
        },
        Ok(_) => {},
    }
    let (summed_comm, summed_root): (Commitment, HVCPoly) = sum_signed(&posts);
    proof {
        assert(posts@.map(|_i: int, e: &RsClientBulletinEntry| e.comm.root@) =~= signed_comms(
            client_entries@,
            canonical@,
        ));
        assert(posts@.map(|_i: int, e: &RsClientBulletinEntry| e.share_root@) =~= signed_roots(
            client_entries@,
            canonical@,
        ));
    }
    match verify_openings(pp, &summed_comm, server_outputs) {
        Err(e) => {
            return Err(e);
        },
        Ok(_) => {},
    }
    let key: KahePoly = match recover_agg_key(pp, server_outputs) {
        Err(e) => {
            return Err(e);
        },
        Ok(k) => k,
    };
    let agg_key = KaheAggKey::from_component(key);
    let failing: Vec<NodeId> = find_failing(scp, rs, &summed_root, node_outputs);
    if failing.len() > 0 {
        return Err(VerifyError::LaneOpeningFailed(failing));
    }
    proof {
        assert forall|i: int| 0 <= i < node_outputs.len() implies (
        #[trigger] node_outputs[i]).share_sum.len() == block_len_of(
            pp.kahe.mu_kahe as int,
            rs.k as int,
        ) by {
            assert(lane_holds(*scp, *rs, summed_root@, node_outputs[i]));
            assert(dgt_views(node_outputs[i].share_sum@).len() == node_outputs[i].share_sum.len());
        }
    }
    let flat: Vec<DgtNTTPoly> = match reconstruct_sum(pp, rs, node_outputs) {
        Err(e) => {
            return Err(e);
        },
        Ok(v) => v,
    };
    let exact: Vec<[i64; N]> = match centered_within_bound(scp.rho_max, &flat) {
        None => {
            assert(lanes_refused(
                *pp,
                summed_root@,
                node_outputs@,
                VerifyError::CiphertextOutOfRange,
            ));
            return Err(VerifyError::CiphertextOutOfRange);
        },
        Some(v) => v,
    };
    proof {
        assert forall|i: int| 0 <= i < node_outputs.len() implies (
        #[trigger] node_outputs[i]).node_id.0 < rs.n by {
            assert(!bad_node(*rs, node_outputs@, i));
        }
    }
    let liars: Vec<NodeId> = find_lying(rs, &flat, node_outputs);
    if liars.len() > 0 {
        return Err(VerifyError::LaneOpeningFailed(liars));
    }
    let summed_ctxt: Vec<KahePoly> = to_kahe(&exact);
    proof {
        lemma_roomy(summed_ctxt@);
    }
    let m: Vec<KahePoly> = Kahe::dec(&pp.kahe, &summed_ctxt, &agg_key);
    proof {
        let c = reduced_sum(flat@);
        assert forall|i: int| 0 <= i < m.len() implies (#[trigger] summed_ctxt[i])@ == c[i] by {
            assert(summed_ctxt[i]@ =~= c[i]) by {
                assert forall|j: int| 0 <= j < N implies summed_ctxt[i]@[j] == c[i][j] by {
                    assert(exact[i]@[j] == centered(flat[i].poly()[j], DGT_MODULUS as int));
                }
            }
        }
        assert(is_plaintext(*pp, c, key@, m@)) by {
            assert forall|i: int, j: int| 0 <= i < m.len() && 0 <= j < N implies
                #[trigger] m@[i]@[j] == decrypted_at(
                pp.kahe.a_ntt[i]@,
                key@,
                c[i],
                pp.kahe.t_modulus as int,
                j,
            ) by {
                assert(summed_ctxt[i]@ == c[i]);
                assert(m[i]@[j] == decrypted_at(
                    pp.kahe.a_ntt[i]@,
                    key@,
                    summed_ctxt[i]@,
                    pp.kahe.t_modulus as int,
                    j,
                ));
            }
        }
    }
    Ok(m)
}

/// The sums of the commitments and of the roots.
fn sum_signed(posts: &Vec<&RsClientBulletinEntry>) -> (r: (Commitment, HVCPoly))
    ensures
        r.0.root@ == hvc_sum(posts@.map(|_i: int, e: &RsClientBulletinEntry| e.comm.root@)),
        r.1@ == hvc_sum(posts@.map(|_i: int, e: &RsClientBulletinEntry| e.share_root@)),
{
    let n: usize = posts.len();
    let mut comms: Vec<&Commitment> = Vec::with_capacity(n);
    let mut roots: Vec<&HVCPoly> = Vec::with_capacity(n);
    for i in 0..n
        invariant
            n == posts.len(),
            comms.len() == i,
            roots.len() == i,
            forall|k: int| 0 <= k < i ==> (#[trigger] comms[k]).root@ == posts[k].comm.root@,
            forall|k: int| 0 <= k < i ==> (#[trigger] roots[k])@ == posts[k].share_root@,
    {
        let e: &RsClientBulletinEntry = posts[i];
        comms.push(&e.comm);
        roots.push(&e.share_root);
    }
    proof {
        assert(comms@.map(|_i: int, c: &Commitment| c.root@) =~= posts@.map(
            |_i: int, e: &RsClientBulletinEntry| e.comm.root@,
        ));
        assert(roots@.map(|_i: int, p: &HVCPoly| p@) =~= posts@.map(
            |_i: int, e: &RsClientBulletinEntry| e.share_root@,
        ));
    }
    (HidingMerkleCommitment::sum_commitment_refs(&comms), sum_hvc_polys(&roots))
}

} // verus!
