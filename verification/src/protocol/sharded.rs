//! What a sharded round of honest parties achieves: the verifier accepts it and
//! reads the sum of the messages.

use super::client::{
    are_coded, is_embedding, is_encryption, lanes_added, lanes_committed, lanes_fit,
    law_late_message, zeros,
};
use super::honest::{
    all_honest_servers, is_dealt, is_honest_server, keys, law_honest_key_recovers, lemma_key_sum,
    lemma_no_opening_fault, messages, noises, roots, shared_keys, sums_fit, HonestClient,
};
use super::roster::{distinct_count, last_at};
use super::server::{
    is_lane_sum, lane_column, lane_culprit, lane_misfit, lane_missing, lane_refuses, root_by,
    sent_by, RsNodeInbox, ServerRoundError,
};
use super::verify::{
    bad_node, bad_server, entry_of, failing_lanes, interpolates, is_plaintext, is_signed,
    lane_agrees, lane_holds, lanes_decrypt, lanes_refused, lying_lanes, missing_fault,
    node_entry_fault, recovered_key, reconstructs, reduced_sum, rs_fault, server_entry_fault,
    signature_fault, signed_comms, signed_roots, VerifyError,
};
use super::{ClientId, ProtocolParams, SessionId};
use crate::bulletin::{RsClientBulletinEntry, RsNodeBulletinEntry, ServerBulletinEntry};
use crate::cs::Opening;
use crate::digest::{honest_bound, sum_is_honest};
use crate::field::{self, cong, interpolate, sum};
use crate::hvc::hvc_sum;
use crate::kahe::{
    ciphertext_sum, decrypted_at, encrypted_at, law_aggregate_decrypts, lemma_vector_sum_len,
    message_sum, noisy_sum,
};
use crate::negacyclic::{
    centered, centered_half_open, lemma_centered, lemma_centered_cong, lemma_centered_id,
    lemma_truncated, Coeffs, N,
};
use crate::primes;
use crate::rings::{
    centered_poly, embedding, lemma_values_of, DgtNTTPoly, HVCPoly, KahePoly, DGT_MODULUS, DGT_PSI,
    KAHE_MODULUS, KAHE_MODULUS_OVER_TWO,
};
use crate::rs::{
    block_len_of, coded_residue, data_column, lemma_distinct_points, points, recovered_residue,
    Coded, Share,
};
use crate::share_commitment::{accepts, dgt_views, ingests, SharePath};
use vstd::prelude::*;

verus! {

/// Everything one honest client chose and sent in the sharded mode. The
/// ciphertext of `base` is not used.
pub struct ShardedClient {
    pub base: HonestClient,
    pub pad_residues: Seq<DgtNTTPoly>,
    pub message_residues: Seq<DgtNTTPoly>,
    pub pad_lanes: Seq<Share>,
    pub message_lanes: Seq<Share>,
    pub lanes: Seq<Share>,
    pub paths: Seq<SharePath>,
    pub root: Coeffs,
}

/// The client followed its steps.
pub open spec fn is_honest_sharded(pp: ProtocolParams, c: ShardedClient) -> bool {
    &&& is_dealt(pp, c.base)
    &&& c.base.message.len() == pp.kahe.mu_kahe
    &&& c.base.errors.len() == pp.kahe.mu_kahe
    &&& is_encryption(pp, c.base.key.0@, zeros(pp), c.base.errors, c.base.pad)
    &&& is_embedding(c.pad_residues, c.base.pad)
    &&& is_embedding(c.message_residues, c.base.message)
    &&& lanes_fit(pp, c.pad_lanes)
    &&& lanes_fit(pp, c.message_lanes)
    &&& lanes_fit(pp, c.lanes)
    &&& are_coded(pp.rs->0, c.pad_residues, c.pad_lanes)
    &&& are_coded(pp.rs->0, c.message_residues, c.message_lanes)
    &&& lanes_added(c.pad_lanes, c.message_lanes, c.lanes)
    &&& lanes_committed(pp.share_comm->0, c.root, c.lanes, c.paths)
}

pub open spec fn all_honest_sharded(pp: ProtocolParams, clients: Seq<ShardedClient>) -> bool {
    forall|j: int| 0 <= j < clients.len() ==> is_honest_sharded(pp, #[trigger] clients[j])
}

/// What the clients share with the direct mode.
pub open spec fn bases(clients: Seq<ShardedClient>) -> Seq<HonestClient> {
    clients.map_values(|c: ShardedClient| c.base)
}

/// The listed clients posted, and signed, what `clients` sent, in that order.
pub open spec fn all_signed(
    sid: SessionId,
    clients: Seq<ShardedClient>,
    canonical: Seq<ClientId>,
    entries: Seq<(ClientId, RsClientBulletinEntry)>,
) -> bool {
    &&& canonical.len() == clients.len()
    &&& forall|j: int|
        #![trigger clients[j]]
        0 <= j < clients.len() ==> {
            &&& last_at(entries, canonical[j]) is Some
            &&& entry_of(entries, canonical[j]).comm.root@ == clients[j].base.comm.root@
            &&& entry_of(entries, canonical[j]).share_root@ == clients[j].root
            &&& is_signed(sid, canonical[j], entry_of(entries, canonical[j]))
        }
}

/// The lane received the clients' shares and posted the sum that its round
/// accepted.
pub open spec fn is_honest_lane(
    pp: ProtocolParams,
    clients: Seq<ShardedClient>,
    canonical: Seq<ClientId>,
    entries: Seq<(ClientId, RsClientBulletinEntry)>,
    items: Seq<(ClientId, Share, SharePath)>,
    np: RsNodeBulletinEntry,
) -> bool {
    let (scp, lane) = (pp.share_comm->0, np.node_id.0 as int);
    &&& lane < pp.rs->0.n
    &&& np.clients@ == canonical
    &&& forall|j: int|
        #![trigger clients[j]]
        0 <= j < clients.len() ==> sent_by(items, canonical[j]).0@ == clients[j].lanes[lane]@
    &&& is_lane_sum(scp, lane, items, canonical, np.share_sum@, np.agg_open)
    &&& accepts(
        scp,
        hvc_sum(signed_roots(entries, canonical)),
        dgt_views(np.share_sum@),
        np.agg_open,
    )
}

pub open spec fn all_honest_lanes(
    pp: ProtocolParams,
    clients: Seq<ShardedClient>,
    canonical: Seq<ClientId>,
    entries: Seq<(ClientId, RsClientBulletinEntry)>,
    received: Seq<Seq<(ClientId, Share, SharePath)>>,
    nodes: Seq<RsNodeBulletinEntry>,
) -> bool {
    &&& received.len() == nodes.len()
    &&& forall|i: int| 0 <= i < nodes.len() ==> !#[trigger] bad_node(pp.rs->0, nodes, i)
    &&& forall|i: int|
        #![trigger nodes[i]]
        0 <= i < nodes.len() ==> is_honest_lane(
            pp,
            clients,
            canonical,
            entries,
            received[i],
            nodes[i],
        )
}

/// What the clients' pads and messages add up to at one coefficient, as
/// integers.
pub open spec fn exact_total(clients: Seq<ShardedClient>, p: int, i: int) -> int
    decreases clients.len(),
{
    if clients.len() == 0 {
        0
    } else {
        exact_total(clients.drop_last(), p, i) + (centered(
            clients.last().base.pad[p]@[i],
            KAHE_MODULUS as int,
        ) + centered(clients.last().base.message[p]@[i], KAHE_MODULUS as int))
    }
}

/// The sums stay within the range that the session's number of clients allows.
pub open spec fn totals_fit(pp: ProtocolParams, clients: Seq<ShardedClient>) -> bool {
    forall|p: int, i: int|
        0 <= p < pp.kahe.mu_kahe && 0 <= i < N ==> -honest_bound(pp.share_comm->0.rho_max as int)
            <= #[trigger] exact_total(clients, p, i) <= honest_bound(
            pp.share_comm->0.rho_max as int,
        )
}

// ---------------------------------------------------------------
// Lanes
// ---------------------------------------------------------------

/// A lane's round on shares that honest clients sent it succeeds: the only
/// refusal that its openings leave is that the clients are too many.
pub proof fn law_honest_lane_succeeds(
    pp: ProtocolParams,
    clients: Seq<ShardedClient>,
    canonical: Seq<ClientId>,
    inbox: RsNodeInbox,
    tops: Seq<(ClientId, HVCPoly)>,
    e: ServerRoundError,
)
    requires
        pp.wf(),
        pp.is_rs_mode(),
        all_honest_sharded(pp, clients),
        canonical.len() == clients.len(),
        inbox.node_id.0 < pp.rs->0.n,
        lane_missing(inbox.items@, tops, canonical, 0) is None,
        forall|j: int|
            #![trigger clients[j]]
            0 <= j < clients.len() ==> sent_by(inbox.items@, canonical[j]) == (
                clients[j].lanes[inbox.node_id.0 as int],
                clients[j].paths[inbox.node_id.0 as int],
            ) && root_by(tops, canonical[j]) == clients[j].root,
        lane_refuses(pp.share_comm->0, inbox, canonical, tops, e),
    ensures
        e == ServerRoundError::AggregateOverCapacity,
{
    lemma_lane_opens(pp, clients, canonical, inbox, tops, 0);
}

proof fn lemma_lane_opens(
    pp: ProtocolParams,
    clients: Seq<ShardedClient>,
    canonical: Seq<ClientId>,
    inbox: RsNodeInbox,
    tops: Seq<(ClientId, HVCPoly)>,
    i: int,
)
    requires
        pp.wf(),
        pp.is_rs_mode(),
        all_honest_sharded(pp, clients),
        canonical.len() == clients.len(),
        inbox.node_id.0 < pp.rs->0.n,
        forall|j: int|
            #![trigger clients[j]]
            0 <= j < clients.len() ==> sent_by(inbox.items@, canonical[j]) == (
                clients[j].lanes[inbox.node_id.0 as int],
                clients[j].paths[inbox.node_id.0 as int],
            ) && root_by(tops, canonical[j]) == clients[j].root,
        0 <= i <= canonical.len(),
    ensures
        lane_misfit(
            pp.share_comm->0,
            inbox.node_id.0 as int,
            inbox.items@,
            canonical,
            i,
        ) is None,
        lane_culprit(
            pp.share_comm->0,
            inbox.node_id.0 as int,
            inbox.items@,
            tops,
            canonical,
            i,
        ) == ServerRoundError::AggregateOverCapacity,
    decreases canonical.len() - i,
{
    if i < canonical.len() {
        lemma_lane_opens(pp, clients, canonical, inbox, tops, i + 1);
        let lane = inbox.node_id.0 as int;
        let c = clients[i];
        assert(is_honest_sharded(pp, clients[i]));
        assert(ingests(pp.share_comm->0, c.root, lane, dgt_views(c.lanes[lane]@), c.paths[lane]));
    }
}

/// What one client adds to value `i` of element `p`.
spec fn client_residue(c: ShardedClient, p: int, i: int) -> int {
    c.pad_residues[p]@[i] + c.message_residues[p]@[i]
}

spec fn total_residue(clients: Seq<ShardedClient>, p: int, i: int) -> int
    decreases clients.len(),
{
    if clients.len() == 0 {
        0
    } else {
        total_residue(clients.drop_last(), p, i) + client_residue(clients.last(), p, i)
    }
}

/// The residues at one position across the data blocks, summed over clients.
spec fn total_column(
    clients: Seq<ShardedClient>,
    mu: int,
    k: int,
    bl: int,
    t: int,
    i: int,
) -> Seq<int> {
    Seq::new(
        k as nat,
        |b: int|
            if b * bl + t < mu {
                total_residue(clients, b * bl + t, i)
            } else {
                0
            },
    )
}

spec fn client_column(c: ShardedClient, mu: int, k: int, bl: int, t: int, i: int) -> Seq<int> {
    Seq::new(
        k as nat,
        |b: int|
            if b * bl + t < mu {
                client_residue(c, b * bl + t, i)
            } else {
                0
            },
    )
}

proof fn lemma_client_lane(pp: ProtocolParams, c: ShardedClient, lane: int, t: int, i: int)
    requires
        pp.wf(),
        pp.is_rs_mode(),
        is_honest_sharded(pp, c),
        0 <= lane < pp.rs->0.n,
        0 <= t < block_len_of(pp.kahe.mu_kahe as int, pp.rs->0.k as int),
        0 <= i < N,
    ensures
        cong(
            c.lanes[lane][t]@[i],
            interpolate(
                points(pp.rs->0.k as int),
                client_column(
                    c,
                    pp.kahe.mu_kahe as int,
                    pp.rs->0.k as int,
                    block_len_of(pp.kahe.mu_kahe as int, pp.rs->0.k as int),
                    t,
                    i,
                ),
                lane + 1,
                DGT_MODULUS as int,
            ),
            DGT_MODULUS as int,
        ),
{
    let m = DGT_MODULUS as int;
    let (mu, k) = (pp.kahe.mu_kahe as int, pp.rs->0.k as int);
    let bl = block_len_of(mu, k);
    let ps = points(k);
    let (x, y) = (c.pad_residues, c.message_residues);
    assert(x.len() == mu && y.len() == mu);
    let (cx, cy) = (data_column(x, k, bl, t, 0, i), data_column(y, k, bl, t, 0, i));
    let (u, v) = (interpolate(ps, cx, lane + 1, m), interpolate(ps, cy, lane + 1, m));
    assert(c.lanes[lane].len() == bl);
    assert(c.pad_lanes[lane].len() == bl);
    assert(c.message_lanes[lane].len() == bl);
    assert(c.lanes[lane][t]@[i] == (c.pad_lanes[lane][t]@[i] + c.message_lanes[lane][t]@[i]) % m);
    assert(c.pad_lanes[lane][t]@[i] == coded_residue(x, k, bl, lane, t, 0, i));
    assert(c.message_lanes[lane][t]@[i] == coded_residue(y, k, bl, lane, t, 0, i));
    field::lemma_cong_mod(u, m);
    field::lemma_cong_mod(v, m);
    field::lemma_cong_ops(u % m, u, v % m, v, m);
    field::lemma_cong_mod(u % m + v % m, m);
    field::lemma_interpolate_add(ps, cx, cy, lane + 1, m);
    let both = Seq::new(ps.len(), |b: int| cx[b] + cy[b]);
    assert(both =~= client_column(c, mu, k, bl, t, i)) by {
        assert forall|b: int| 0 <= b < k implies both[b] == client_column(
            c,
            mu,
            k,
            bl,
            t,
            i,
        )[b] by {
            assert(b * bl >= 0) by (nonlinear_arith)
                requires
                    b >= 0,
                    bl >= 0,
            ;
            let p = b * bl + t;
            if p < mu {
                assert(x[p].residue(0, i) == x[p]@[i]);
                assert(y[p].residue(0, i) == y[p]@[i]);
            }
        }
    }
}

proof fn lemma_lane_sum(
    pp: ProtocolParams,
    clients: Seq<ShardedClient>,
    lane: int,
    t: int,
    i: int,
)
    requires
        pp.wf(),
        pp.is_rs_mode(),
        all_honest_sharded(pp, clients),
        0 <= lane < pp.rs->0.n,
        0 <= t < block_len_of(pp.kahe.mu_kahe as int, pp.rs->0.k as int),
        0 <= i < N,
    ensures
        cong(
            sum(Seq::new(clients.len(), |j: int| clients[j].lanes[lane][t]@[i])),
            interpolate(
                points(pp.rs->0.k as int),
                total_column(
                    clients,
                    pp.kahe.mu_kahe as int,
                    pp.rs->0.k as int,
                    block_len_of(pp.kahe.mu_kahe as int, pp.rs->0.k as int),
                    t,
                    i,
                ),
                lane + 1,
                DGT_MODULUS as int,
            ),
            DGT_MODULUS as int,
        ),
    decreases clients.len(),
{
    let m = DGT_MODULUS as int;
    let (mu, k) = (pp.kahe.mu_kahe as int, pp.rs->0.k as int);
    let bl = block_len_of(mu, k);
    let ps = points(k);
    let col = Seq::new(clients.len(), |j: int| clients[j].lanes[lane][t]@[i]);
    let total = total_column(clients, mu, k, bl, t, i);
    if clients.len() == 0 {
        let terms = Seq::new(
            ps.len(),
            |b: int| total[b] * field::lagrange_weight(ps, b, lane + 1, m),
        );
        assert forall|b: int| 0 <= b < terms.len() implies #[trigger] terms[b] % m == 0 by {
            assert(total[b] == 0);
            assert(terms[b] == 0 * field::lagrange_weight(ps, b, lane + 1, m));
            field::lemma_small(0, m);
        }
        field::lemma_sum_zero(terms, m);
        assert(col =~= Seq::<int>::empty());
        field::lemma_small(0, m);
    } else {
        let (low, c) = (clients.drop_last(), clients.last());
        assert forall|j: int| 0 <= j < low.len() implies is_honest_sharded(
            pp,
            #[trigger] low[j],
        ) by {
            assert(is_honest_sharded(pp, clients[j]));
        }
        assert(is_honest_sharded(pp, clients[clients.len() - 1]));
        lemma_lane_sum(pp, low, lane, t, i);
        lemma_client_lane(pp, c, lane, t, i);
        let part = Seq::new(low.len(), |j: int| low[j].lanes[lane][t]@[i]);
        let x = c.lanes[lane][t]@[i];
        assert(col =~= part.push(x));
        field::lemma_sum_push(part, x);
        let (a, b) = (total_column(low, mu, k, bl, t, i), client_column(c, mu, k, bl, t, i));
        field::lemma_interpolate_add(ps, a, b, lane + 1, m);
        assert(Seq::new(ps.len(), |j: int| a[j] + b[j]) =~= total);
        field::lemma_cong_ops(
            sum(part),
            interpolate(ps, a, lane + 1, m),
            x,
            interpolate(ps, b, lane + 1, m),
            m,
        );
    }
}

/// An honest lane's sum is its share of the code word of the totals.
proof fn lemma_posted(
    pp: ProtocolParams,
    clients: Seq<ShardedClient>,
    canonical: Seq<ClientId>,
    entries: Seq<(ClientId, RsClientBulletinEntry)>,
    items: Seq<(ClientId, Share, SharePath)>,
    np: RsNodeBulletinEntry,
    t: int,
    i: int,
)
    requires
        pp.wf(),
        pp.is_rs_mode(),
        all_honest_sharded(pp, clients),
        canonical.len() == clients.len(),
        is_honest_lane(pp, clients, canonical, entries, items, np),
        0 <= t < block_len_of(pp.kahe.mu_kahe as int, pp.rs->0.k as int),
        0 <= i < N,
    ensures
        np.share_sum@[t]@[i] == interpolate(
            points(pp.rs->0.k as int),
            total_column(
                clients,
                pp.kahe.mu_kahe as int,
                pp.rs->0.k as int,
                block_len_of(pp.kahe.mu_kahe as int, pp.rs->0.k as int),
                t,
                i,
            ),
            np.node_id.0 + 1,
            DGT_MODULUS as int,
        ) % (DGT_MODULUS as int),
{
    let lane = np.node_id.0 as int;
    lemma_lane_sum(pp, clients, lane, t, i);
    let col = lane_column(items, canonical, t, i);
    let sent = Seq::new(clients.len(), |j: int| clients[j].lanes[lane][t]@[i]);
    assert(col =~= sent) by {
        assert forall|j: int| 0 <= j < clients.len() implies col[j] == #[trigger] sent[j] by {
            let c = clients[j];
            assert(sent_by(items, canonical[j]).0@ == c.lanes[lane]@);
        }
    }
    assert(np.share_sum@[t]@[i] == sum(col) % (DGT_MODULUS as int));
}

proof fn lemma_code_points(pp: ProtocolParams)
    requires
        pp.wf(),
        pp.is_rs_mode(),
    ensures
        field::is_prime(DGT_MODULUS as int),
        field::distinct_mod(points(pp.rs->0.k as int), DGT_MODULUS as int),
{
    let ps = points(pp.rs->0.k as int);
    primes::lemma_dgt_modulus_prime();
    assert(ps.no_duplicates());
    lemma_distinct_points(ps, DGT_MODULUS as int);
}

/// What honest lanes reconstruct to.
proof fn lemma_flat(
    pp: ProtocolParams,
    clients: Seq<ShardedClient>,
    canonical: Seq<ClientId>,
    entries: Seq<(ClientId, RsClientBulletinEntry)>,
    received: Seq<Seq<(ClientId, Share, SharePath)>>,
    nodes: Seq<RsNodeBulletinEntry>,
    order: Seq<int>,
    flat: Seq<DgtNTTPoly>,
    b: int,
    t: int,
    i: int,
)
    requires
        pp.wf(),
        pp.is_rs_mode(),
        all_honest_sharded(pp, clients),
        canonical.len() == clients.len(),
        all_honest_lanes(pp, clients, canonical, entries, received, nodes),
        nodes.len() >= pp.rs->0.k,
        interpolates(pp, nodes, order, flat),
        0 <= b < pp.rs->0.k,
        0 <= t < block_len_of(pp.kahe.mu_kahe as int, pp.rs->0.k as int),
        b * block_len_of(pp.kahe.mu_kahe as int, pp.rs->0.k as int) + t < pp.kahe.mu_kahe,
        0 <= i < N,
    ensures
        cong(
            flat[b * block_len_of(pp.kahe.mu_kahe as int, pp.rs->0.k as int) + t]@[i],
            total_residue(
                clients,
                b * block_len_of(pp.kahe.mu_kahe as int, pp.rs->0.k as int) + t,
                i,
            ),
            DGT_MODULUS as int,
        ),
{
    let m = DGT_MODULUS as int;
    let (mu, k) = (pp.kahe.mu_kahe as int, pp.rs->0.k as int);
    let bl = block_len_of(mu, k);
    let ps = points(k);
    let col = total_column(clients, mu, k, bl, t, i);
    lemma_code_points(pp);
    let ids = Seq::new(k as nat, |s: int| nodes[order[s]].node_id.0 as int);
    let values = Seq::new(k as nat, |s: int| nodes[order[s]].share_sum[t]@[i]);
    let xs = ids.map(|_s: int, j: int| j + 1);
    let poly = field::lemma_interpolate_is_poly(ps, col, m);
    assert forall|s: int| 0 <= s < xs.len() implies 0 <= #[trigger] xs[s] < m by {
        let at = order[s];
        assert(!bad_node(pp.rs->0, nodes, at));
        assert(nodes[at].node_id.0 < pp.rs->0.n);
    }
    assert(xs.no_duplicates()) by {
        assert forall|s: int, r: int|
            0 <= s < xs.len() && 0 <= r < xs.len() && s != r implies xs[s] != xs[r] by {
            if s < r {
                assert(nodes[order[s]].node_id.0 < nodes[order[r]].node_id.0);
            } else {
                assert(nodes[order[r]].node_id.0 < nodes[order[s]].node_id.0);
            }
        }
    }
    lemma_distinct_points(xs, m);
    assert forall|s: int| 0 <= s < xs.len() implies cong(
        #[trigger] values[s],
        field::eval(poly, xs[s]),
        m,
    ) by {
        let at = order[s];
        assert(is_honest_lane(pp, clients, canonical, entries, received[at], nodes[at]));
        lemma_posted(pp, clients, canonical, entries, received[at], nodes[at], t, i);
        field::lemma_cong_mod(interpolate(ps, col, xs[s], m), m);
    }
    field::lemma_interpolation(poly, xs, values, b + 1, m);
    field::lemma_interpolate_at_point(ps, col, b, m);
    assert(ps[b] == b + 1);
    field::lemma_cong_mod(interpolate(xs, values, b + 1, m), m);
    assert(flat[b * bl + t]@[i] == recovered_residue(ids, values, b, m));
}

// ---------------------------------------------------------------
// Totals
// ---------------------------------------------------------------

/// The sums at one position, as a polynomial.
spec fn exact_poly(clients: Seq<ShardedClient>, p: int) -> Coeffs {
    Seq::new(N as nat, |i: int| exact_total(clients, p, i))
}

/// A root of the digest ring.
spec fn digest_root(i: int) -> int {
    crate::ntt::points(DGT_PSI as int, N as nat, 11)[i]
}

/// The summed values are the values of the sums.
proof fn lemma_totals(pp: ProtocolParams, clients: Seq<ShardedClient>, p: int, i: int)
    requires
        all_honest_sharded(pp, clients),
        0 <= p < pp.kahe.mu_kahe,
        0 <= i < N,
    ensures
        cong(
            total_residue(clients, p, i),
            field::eval(exact_poly(clients, p), digest_root(i)),
            DGT_MODULUS as int,
        ),
    decreases clients.len(),
{
    let (m, x) = (DGT_MODULUS as int, digest_root(i));
    let now = exact_poly(clients, p);
    if clients.len() == 0 {
        assert forall|k: int| 0 <= k < now.len() implies #[trigger] now[k] % m == 0 by {
            field::lemma_small(0, m);
        }
        field::lemma_eval_zero(now, x, m);
        field::lemma_small(0, m);
    } else {
        let low = clients.drop_last();
        let c = clients.last();
        assert(is_honest_sharded(pp, clients[clients.len() - 1]));
        assert forall|j: int| 0 <= j < low.len() implies is_honest_sharded(
            pp,
            #[trigger] low[j],
        ) by {
            assert(is_honest_sharded(pp, clients[j]));
        }
        lemma_totals(pp, low, p, i);
        let (u, v) = (c.pad_residues[p], c.message_residues[p]);
        assert(u.holds(embedding(c.base.pad[p]@)));
        assert(v.holds(embedding(c.base.message[p]@)));
        let (a, b) = (
            centered_poly(c.base.pad[p]@, KAHE_MODULUS as int),
            centered_poly(c.base.message[p]@, KAHE_MODULUS as int),
        );
        lemma_embedded_value(c.base.pad[p]@, u, i);
        lemma_embedded_value(c.base.message[p]@, v, i);
        let old = exact_poly(low, p);
        let both = field::poly_add(a, b);
        assert(now =~= field::poly_add(old, both));
        field::lemma_eval_add(a, b, x);
        field::lemma_eval_add(old, both, x);
        field::lemma_cong_ops(u@[i], field::eval(a, x), v@[i], field::eval(b, x), m);
        field::lemma_cong_ops(
            total_residue(low, p, i),
            field::eval(old, x),
            u@[i] + v@[i],
            field::eval(both, x),
            m,
        );
    }
}

proof fn lemma_embedded_value(c: Coeffs, v: DgtNTTPoly, i: int)
    requires
        c.len() == N,
        v.holds(embedding(c)),
        0 <= i < N,
    ensures
        cong(
            v@[i],
            field::eval(centered_poly(c, KAHE_MODULUS as int), digest_root(i)),
            DGT_MODULUS as int,
        ),
{
    let (e, h, m) = (embedding(c), centered_poly(c, KAHE_MODULUS as int), DGT_MODULUS as int);
    assert(cong(v@[i], field::eval(e, digest_root(i)), m));
    assert forall|k: int| 0 <= k < e.len() implies cong(#[trigger] e[k], h[k], m) by {
        field::lemma_cong_mod(h[k], m);
    }
    crate::ntt::lemma_eval_cong(e, h, digest_root(i), m);
}

/// What has the summed values has the sums as its centered coefficients.
proof fn lemma_exact(
    pp: ProtocolParams,
    clients: Seq<ShardedClient>,
    p: int,
    v: DgtNTTPoly,
)
    requires
        pp.wf(),
        pp.is_rs_mode(),
        all_honest_sharded(pp, clients),
        totals_fit(pp, clients),
        0 <= p < pp.kahe.mu_kahe,
        forall|i: int|
            0 <= i < N ==> cong(
                #[trigger] v@[i],
                total_residue(clients, p, i),
                DGT_MODULUS as int,
            ),
    ensures
        forall|i: int|
            0 <= i < N ==> centered(#[trigger] v.poly()[i], DGT_MODULUS as int) == exact_total(
                clients,
                p,
                i,
            ),
{
    let m = DGT_MODULUS as int;
    let rho = pp.share_comm->0.rho_max as int;
    let sums = exact_poly(clients, p);
    assert forall|i: int| 0 <= i < N implies cong(
        #[trigger] v@[i],
        field::eval(sums, crate::ntt::points(DGT_PSI as int, N as nat, 11)[i]),
        m,
    ) by {
        lemma_totals(pp, clients, p, i);
    }
    lemma_values_of(v, sums);
    assert(2 * (rho * (KAHE_MODULUS / 2)) <= rho * KAHE_MODULUS) by (nonlinear_arith)
        requires
            rho >= 0,
    ;
    assert forall|i: int| 0 <= i < N implies centered(#[trigger] v.poly()[i], m) == exact_total(
        clients,
        p,
        i,
    ) by {
        let x = exact_total(clients, p, i);
        assert(-honest_bound(rho) <= x <= honest_bound(rho));
        assert(v.poly()[i] == x % m);
        field::lemma_cong_mod(x, m);
        lemma_centered_id(x, m);
        lemma_centered_cong(x % m, x, m);
    }
}

/// The integers stand for the sum of the ciphertexts.
proof fn lemma_total_is_ciphertext(
    pp: ProtocolParams,
    clients: Seq<ShardedClient>,
    p: int,
    i: int,
)
    requires
        all_honest_sharded(pp, clients),
        0 <= p < pp.kahe.mu_kahe,
        0 <= i < N,
    ensures
        cong(
            exact_total(clients, p, i),
            ciphertext_sum(
                pp.kahe.a_ntt[p]@,
                keys(bases(clients)),
                messages(bases(clients), p),
                noises(bases(clients), p),
                pp.kahe.t_modulus as int,
                i,
            ),
            KAHE_MODULUS as int,
        ),
    decreases clients.len(),
{
    let q = KAHE_MODULUS as int;
    let all = bases(clients);
    if clients.len() > 0 {
        let (low, c) = (clients.drop_last(), clients.last());
        assert forall|j: int| 0 <= j < low.len() implies is_honest_sharded(
            pp,
            #[trigger] low[j],
        ) by {
            assert(is_honest_sharded(pp, clients[j]));
        }
        lemma_total_is_ciphertext(pp, low, p, i);
        assert(is_honest_sharded(pp, clients[clients.len() - 1]));
        let b = bases(low);
        assert(keys(all).drop_last() =~= keys(b));
        assert(messages(all, p).drop_last() =~= messages(b, p));
        assert(noises(all, p).drop_last() =~= noises(b, p));
        let (a, t) = (pp.kahe.a_ntt[p]@, pp.kahe.t_modulus as int);
        let zero = Seq::new(N as nat, |_j: int| 0int);
        assert(zeros(pp)[p] =~= zero);
        let (x, y) = (c.base.pad[p]@[i], c.base.message[p]@[i]);
        assert(x == encrypted_at(a, c.base.key.0@, zero, c.base.errors[p]@, t, i));
        law_late_message(a, c.base.key.0@, c.base.message[p]@, c.base.errors[p]@, t, i);
        let e = encrypted_at(a, c.base.key.0@, c.base.message[p]@, c.base.errors[p]@, t, i);
        lemma_truncated(x + y, q);
        lemma_centered(x, q);
        lemma_centered(y, q);
        field::lemma_cong_ops(centered(x, q), x, centered(y, q), y, q);
        let s = ciphertext_sum(a, keys(b), messages(b, p), noises(b, p), t, i);
        field::lemma_cong_ops(exact_total(low, p, i), s, centered(x, q) + centered(y, q), e, q);
    }
}

/// Every position of a block lies in the ciphertext or past its end.
proof fn lemma_place(mu: int, k: int, p: int) -> (r: (int, int))
    requires
        k >= 1,
        0 <= p < mu,
    ensures
        0 <= r.0 < k,
        0 <= r.1 < block_len_of(mu, k),
        r.0 * block_len_of(mu, k) + r.1 == p,
{
    let bl = block_len_of(mu, k);
    assert(bl >= 1) by (nonlinear_arith)
        requires
            bl == (mu + k - 1) / k,
            mu >= 1,
            k >= 1,
    ;
    let (b, t) = (p / bl, p % bl);
    vstd::arithmetic::div_mod::lemma_fundamental_div_mod(p, bl);
    assert(b * bl == bl * b) by (nonlinear_arith);
    assert(k * bl >= mu) by (nonlinear_arith)
        requires
            bl == (mu + k - 1) / k,
            k >= 1,
    ;
    assert(0 <= b < k) by (nonlinear_arith)
        requires
            bl * b + t == p,
            0 <= t < bl,
            0 <= p < k * bl,
            bl >= 1,
    ;
    (b, t)
}

// ---------------------------------------------------------------
// The verifier's checks
// ---------------------------------------------------------------

proof fn lemma_systematic_lane(
    pp: ProtocolParams,
    clients: Seq<ShardedClient>,
    canonical: Seq<ClientId>,
    entries: Seq<(ClientId, RsClientBulletinEntry)>,
    items: Seq<(ClientId, Share, SharePath)>,
    np: RsNodeBulletinEntry,
)
    requires
        pp.wf(),
        pp.is_rs_mode(),
        all_honest_sharded(pp, clients),
        canonical.len() == clients.len(),
        is_honest_lane(pp, clients, canonical, entries, items, np),
        totals_fit(pp, clients),
        np.node_id.0 < pp.rs->0.k,
    ensures
        sum_is_honest(pp.share_comm->0.rho_max as int, np.share_sum@),
{
    let m = DGT_MODULUS as int;
    let (mu, k) = (pp.kahe.mu_kahe as int, pp.rs->0.k as int);
    let bl = block_len_of(mu, k);
    let b = np.node_id.0 as int;
    let rho = pp.share_comm->0.rho_max as int;
    let s = np.share_sum@;
    lemma_code_points(pp);
    assert forall|t: int, i: int| 0 <= t < s.len() && 0 <= i < N implies -honest_bound(rho)
        <= centered(#[trigger] s[t].poly()[i], m) <= honest_bound(rho) by {
        assert(b * bl >= 0) by (nonlinear_arith)
            requires
                b >= 0,
                bl >= 0,
        ;
        let p = b * bl + t;
        assert forall|j: int| 0 <= j < N implies cong(
            #[trigger] s[t]@[j],
            total_column(clients, mu, k, bl, t, j)[b],
            m,
        ) by {
            let col = total_column(clients, mu, k, bl, t, j);
            lemma_posted(pp, clients, canonical, entries, items, np, t, j);
            field::lemma_interpolate_at_point(points(k), col, b, m);
            assert(points(k)[b] == b + 1);
            field::lemma_cong_mod(interpolate(points(k), col, b + 1, m), m);
        }
        if p < mu {
            assert forall|j: int| 0 <= j < N implies cong(
                #[trigger] s[t]@[j],
                total_residue(clients, p, j),
                m,
            ) by {
                assert(total_column(clients, mu, k, bl, t, j)[b] == total_residue(clients, p, j));
            }
            lemma_exact(pp, clients, p, s[t]);
            assert(-honest_bound(rho) <= exact_total(clients, p, i) <= honest_bound(rho));
        } else {
            let zero = Seq::new(N as nat, |j: int| 0int);
            assert forall|j: int| 0 <= j < N implies cong(
                #[trigger] s[t]@[j],
                field::eval(zero, crate::ntt::points(DGT_PSI as int, N as nat, 11)[j]),
                m,
            ) by {
                assert(total_column(clients, mu, k, bl, t, j)[b] == 0);
                field::lemma_small(0, m);
                field::lemma_eval_zero(zero, digest_root(j), m);
            }
            lemma_values_of(s[t], zero);
            field::lemma_small(0, m);
            lemma_centered_id(0, m);
            assert(honest_bound(rho) >= 0) by (nonlinear_arith)
                requires
                    honest_bound(rho) == rho * (KAHE_MODULUS / 2),
                    rho >= 0,
            ;
        }
    }
}

proof fn lemma_none_failing(
    pp: ProtocolParams,
    clients: Seq<ShardedClient>,
    canonical: Seq<ClientId>,
    entries: Seq<(ClientId, RsClientBulletinEntry)>,
    received: Seq<Seq<(ClientId, Share, SharePath)>>,
    nodes: Seq<RsNodeBulletinEntry>,
    n: nat,
)
    requires
        pp.wf(),
        pp.is_rs_mode(),
        all_honest_sharded(pp, clients),
        canonical.len() == clients.len(),
        all_honest_lanes(pp, clients, canonical, entries, received, nodes),
        totals_fit(pp, clients),
        n <= nodes.len(),
    ensures
        failing_lanes(
            pp.share_comm->0,
            pp.rs->0,
            hvc_sum(signed_roots(entries, canonical)),
            nodes,
            n,
        ).len() == 0,
    decreases n,
{
    if n > 0 {
        let at = n - 1;
        lemma_none_failing(pp, clients, canonical, entries, received, nodes, at as nat);
        assert(is_honest_lane(pp, clients, canonical, entries, received[at], nodes[at]));
        if nodes[at].node_id.0 < pp.rs->0.k {
            lemma_systematic_lane(pp, clients, canonical, entries, received[at], nodes[at]);
        }
        assert(lane_holds(
            pp.share_comm->0,
            pp.rs->0,
            hvc_sum(signed_roots(entries, canonical)),
            nodes[at],
        ));
    }
}

proof fn lemma_none_lying(
    pp: ProtocolParams,
    clients: Seq<ShardedClient>,
    canonical: Seq<ClientId>,
    entries: Seq<(ClientId, RsClientBulletinEntry)>,
    received: Seq<Seq<(ClientId, Share, SharePath)>>,
    nodes: Seq<RsNodeBulletinEntry>,
    order: Seq<int>,
    flat: Seq<DgtNTTPoly>,
    n: nat,
)
    requires
        pp.wf(),
        pp.is_rs_mode(),
        all_honest_sharded(pp, clients),
        canonical.len() == clients.len(),
        all_honest_lanes(pp, clients, canonical, entries, received, nodes),
        nodes.len() >= pp.rs->0.k,
        interpolates(pp, nodes, order, flat),
        n <= nodes.len(),
    ensures
        lying_lanes(pp.rs->0, flat, nodes, n).len() == 0,
    decreases n,
{
    if n > 0 {
        let at = n - 1;
        lemma_none_lying(
            pp,
            clients,
            canonical,
            entries,
            received,
            nodes,
            order,
            flat,
            at as nat,
        );
        let np = nodes[at];
        let m = DGT_MODULUS as int;
        let (mu, k) = (pp.kahe.mu_kahe as int, pp.rs->0.k as int);
        let bl = block_len_of(mu, k);
        let lane = np.node_id.0 as int;
        assert(is_honest_lane(pp, clients, canonical, entries, received[at], nodes[at]));
        assert forall|t: int, i: int| 0 <= t < bl && 0 <= i < N implies
            #[trigger] np.share_sum[t]@[i] == coded_residue(flat, k, bl, lane, t, 0, i) by {
            lemma_posted(pp, clients, canonical, entries, received[at], np, t, i);
            let (want, got) = (
                total_column(clients, mu, k, bl, t, i),
                data_column(flat, k, bl, t, 0, i),
            );
            assert forall|b: int| 0 <= b < got.len() implies cong(
                #[trigger] got[b],
                want[b],
                m,
            ) by {
                assert(b * bl >= 0) by (nonlinear_arith)
                    requires
                        b >= 0,
                        bl >= 0,
                ;
                if b * bl + t < mu {
                    lemma_flat(
                        pp,
                        clients,
                        canonical,
                        entries,
                        received,
                        nodes,
                        order,
                        flat,
                        b,
                        t,
                        i,
                    );
                    assert(flat[b * bl + t].residue(0, i) == flat[b * bl + t]@[i]);
                }
            }
            field::lemma_interpolate_cong(points(k), got, want, lane + 1, m);
        }
        assert(lane_agrees(pp.rs->0, flat, np));
    }
}

proof fn lemma_entries_in_order(
    pp: ProtocolParams,
    clients: Seq<HonestClient>,
    canonical: Seq<ClientId>,
    received: Seq<Seq<&Opening>>,
    servers: Seq<ServerBulletinEntry>,
    i: int,
)
    requires
        all_honest_servers(pp, clients, canonical, received, servers),
        0 <= i <= servers.len(),
    ensures
        server_entry_fault(pp, servers, canonical, i) is None,
    decreases servers.len() - i,
{
    if i < servers.len() {
        assert(is_honest_server(pp, clients, canonical, received[i], servers[i]));
        assert(!bad_server(pp, servers, i));
        lemma_entries_in_order(pp, clients, canonical, received, servers, i + 1);
    }
}

proof fn lemma_lanes_in_order(
    pp: ProtocolParams,
    clients: Seq<ShardedClient>,
    canonical: Seq<ClientId>,
    entries: Seq<(ClientId, RsClientBulletinEntry)>,
    received: Seq<Seq<(ClientId, Share, SharePath)>>,
    nodes: Seq<RsNodeBulletinEntry>,
    i: int,
)
    requires
        all_honest_lanes(pp, clients, canonical, entries, received, nodes),
        0 <= i <= nodes.len(),
    ensures
        node_entry_fault(pp.rs->0, nodes, canonical, i) is None,
    decreases nodes.len() - i,
{
    if i < nodes.len() {
        assert(is_honest_lane(pp, clients, canonical, entries, received[i], nodes[i]));
        assert(!bad_node(pp.rs->0, nodes, i));
        lemma_lanes_in_order(pp, clients, canonical, entries, received, nodes, i + 1);
    }
}

proof fn lemma_posts_in_order(
    sid: SessionId,
    clients: Seq<ShardedClient>,
    canonical: Seq<ClientId>,
    entries: Seq<(ClientId, RsClientBulletinEntry)>,
    i: int,
)
    requires
        all_signed(sid, clients, canonical, entries),
        0 <= i <= clients.len(),
    ensures
        missing_fault(entries, canonical, i) is None,
        signature_fault(sid, entries, canonical, i) is None,
    decreases clients.len() - i,
{
    if i < clients.len() {
        let c = clients[i];
        lemma_posts_in_order(sid, clients, canonical, entries, i + 1);
    }
}

/// A sharded round of honest clients, with at least the threshold of honest
/// servers and as many honest lanes as the code needs, is accepted, and decrypts
/// to the sum of the messages modulo the plaintext modulus.
pub proof fn law_honest_sharded_round(
    pp: ProtocolParams,
    sid: SessionId,
    clients: Seq<ShardedClient>,
    canonical: Seq<ClientId>,
    entries: Seq<(ClientId, RsClientBulletinEntry)>,
    opened: Seq<Seq<&Opening>>,
    servers: Seq<ServerBulletinEntry>,
    received: Seq<Seq<(ClientId, Share, SharePath)>>,
    nodes: Seq<RsNodeBulletinEntry>,
)
    requires
        pp.wf(),
        pp.is_rs_mode(),
        all_honest_sharded(pp, clients),
        1 <= clients.len() <= 300,
        all_signed(sid, clients, canonical, entries),
        distinct_count(canonical) >= pp.min_clients,
        all_honest_servers(pp, bases(clients), canonical, opened, servers),
        servers.len() >= pp.shamir.t,
        all_honest_lanes(pp, clients, canonical, entries, received, nodes),
        nodes.len() >= pp.rs->0.k,
        sums_fit(pp, bases(clients)),
        totals_fit(pp, clients),
    ensures
        rs_fault(pp, sid, canonical, entries, servers, nodes) is None,
        forall|e: VerifyError|
            !#[trigger] lanes_refused(pp, hvc_sum(signed_roots(entries, canonical)), nodes, e),
        forall|m: Seq<KahePoly>, p: int, i: int|
            #![trigger m[p]@[i], lanes_decrypt(
                pp,
                hvc_sum(signed_roots(entries, canonical)),
                nodes,
                recovered_key(pp, servers),
                m,
            )]
            lanes_decrypt(
                pp,
                hvc_sum(signed_roots(entries, canonical)),
                nodes,
                recovered_key(pp, servers),
                m,
            ) && 0 <= p < m.len() && 0 <= i < N ==> m.len() == pp.kahe.mu_kahe && m[p]@[i]
                == centered_half_open(
                message_sum(messages(bases(clients), p), i),
                pp.kahe.t_modulus as int,
            ),
{
    let all = bases(clients);
    let root = hvc_sum(signed_roots(entries, canonical));
    let key = recovered_key(pp, servers);
    let scp = pp.share_comm->0;
    assert forall|j: int| 0 <= j < all.len() implies is_dealt(pp, #[trigger] all[j]) by {
        assert(is_honest_sharded(pp, clients[j]));
    }
    assert(signed_comms(entries, canonical) =~= roots(all)) by {
        assert forall|j: int| 0 <= j < clients.len() implies signed_comms(entries, canonical)[j]
            == #[trigger] roots(all)[j] by {
            let c = clients[j];
        }
    }
    lemma_entries_in_order(pp, all, canonical, opened, servers, 0);
    lemma_lanes_in_order(pp, clients, canonical, entries, received, nodes, 0);
    lemma_posts_in_order(sid, clients, canonical, entries, 0);
    lemma_no_opening_fault(pp, all, canonical, opened, servers, 0);
    lemma_none_failing(pp, clients, canonical, entries, received, nodes, nodes.len());
    law_honest_key_recovers(pp, all, canonical, opened, servers);
    lemma_key_sum(all);
    lemma_vector_sum_len(shared_keys(all));
    assert forall|e: VerifyError| !#[trigger] lanes_refused(pp, root, nodes, e) by {
        if lanes_refused(pp, root, nodes, e) {
            let flat = choose|flat: Seq<DgtNTTPoly>| #[trigger]
                reconstructs(pp, nodes, flat) && if !sum_is_honest(scp.rho_max as int, flat) {
                    e == VerifyError::CiphertextOutOfRange
                } else {
                    let lying = lying_lanes(pp.rs->0, flat, nodes, nodes.len());
                    lying.len() > 0 && (e matches VerifyError::LaneOpeningFailed(v) && v@
                        == lying)
                };
            let order = choose|order: Seq<int>| interpolates(pp, nodes, order, flat);
            lemma_flat_is_honest(
                pp,
                clients,
                canonical,
                entries,
                received,
                nodes,
                order,
                flat,
            );
            lemma_none_lying(
                pp,
                clients,
                canonical,
                entries,
                received,
                nodes,
                order,
                flat,
                nodes.len(),
            );
        }
    }
    assert forall|m: Seq<KahePoly>, p: int, i: int|
        #![trigger m[p]@[i], lanes_decrypt(pp, root, nodes, key, m)]
        lanes_decrypt(pp, root, nodes, key, m) && 0 <= p < m.len() && 0 <= i < N implies m.len()
        == pp.kahe.mu_kahe && m[p]@[i] == centered_half_open(
        message_sum(messages(all, p), i),
        pp.kahe.t_modulus as int,
    ) by {
        let flat = choose|flat: Seq<DgtNTTPoly>| #[trigger]
            reconstructs(pp, nodes, flat) && sum_is_honest(scp.rho_max as int, flat)
                && lying_lanes(pp.rs->0, flat, nodes, nodes.len()).len() == 0 && is_plaintext(
                pp,
                reduced_sum(flat),
                key,
                m,
            );
        let order = choose|order: Seq<int>| interpolates(pp, nodes, order, flat);
        let c = reduced_sum(flat);
        lemma_flat_value(
            pp,
            clients,
            canonical,
            entries,
            received,
            nodes,
            order,
            flat,
            p,
            i,
        );
        lemma_total_is_ciphertext(pp, clients, p, i);
        lemma_centered(exact_total(clients, p, i), KAHE_MODULUS as int);
        assert(c[p][i] == centered(exact_total(clients, p, i), KAHE_MODULUS as int));
        assert forall|j: int| 0 <= j < keys(all).len() implies (#[trigger] keys(all)[j]).len()
            == N by {}
        assert(-KAHE_MODULUS_OVER_TWO <= noisy_sum(
            messages(all, p),
            noises(all, p),
            pp.kahe.t_modulus as int,
            i,
        ) <= KAHE_MODULUS_OVER_TWO);
        law_aggregate_decrypts(
            pp.kahe.a_ntt[p]@,
            keys(all),
            messages(all, p),
            noises(all, p),
            pp.kahe.t_modulus as int,
            key,
            c[p],
            i,
        );
        assert(m[p]@[i] == decrypted_at(
            pp.kahe.a_ntt[p]@,
            key,
            c[p],
            pp.kahe.t_modulus as int,
            i,
        ));
    }
}

proof fn lemma_flat_value(
    pp: ProtocolParams,
    clients: Seq<ShardedClient>,
    canonical: Seq<ClientId>,
    entries: Seq<(ClientId, RsClientBulletinEntry)>,
    received: Seq<Seq<(ClientId, Share, SharePath)>>,
    nodes: Seq<RsNodeBulletinEntry>,
    order: Seq<int>,
    flat: Seq<DgtNTTPoly>,
    p: int,
    i: int,
)
    requires
        pp.wf(),
        pp.is_rs_mode(),
        all_honest_sharded(pp, clients),
        canonical.len() == clients.len(),
        all_honest_lanes(pp, clients, canonical, entries, received, nodes),
        nodes.len() >= pp.rs->0.k,
        interpolates(pp, nodes, order, flat),
        totals_fit(pp, clients),
        0 <= p < pp.kahe.mu_kahe,
        0 <= i < N,
    ensures
        centered(flat[p].poly()[i], DGT_MODULUS as int) == exact_total(clients, p, i),
{
    let (b, t) = lemma_place(pp.kahe.mu_kahe as int, pp.rs->0.k as int, p);
    assert forall|j: int| 0 <= j < N implies cong(
        #[trigger] flat[p]@[j],
        total_residue(clients, p, j),
        DGT_MODULUS as int,
    ) by {
        lemma_flat(pp, clients, canonical, entries, received, nodes, order, flat, b, t, j);
    }
    lemma_exact(pp, clients, p, flat[p]);
}

proof fn lemma_flat_is_honest(
    pp: ProtocolParams,
    clients: Seq<ShardedClient>,
    canonical: Seq<ClientId>,
    entries: Seq<(ClientId, RsClientBulletinEntry)>,
    received: Seq<Seq<(ClientId, Share, SharePath)>>,
    nodes: Seq<RsNodeBulletinEntry>,
    order: Seq<int>,
    flat: Seq<DgtNTTPoly>,
)
    requires
        pp.wf(),
        pp.is_rs_mode(),
        all_honest_sharded(pp, clients),
        canonical.len() == clients.len(),
        all_honest_lanes(pp, clients, canonical, entries, received, nodes),
        nodes.len() >= pp.rs->0.k,
        interpolates(pp, nodes, order, flat),
        totals_fit(pp, clients),
    ensures
        sum_is_honest(pp.share_comm->0.rho_max as int, flat),
{
    let rho = pp.share_comm->0.rho_max as int;
    assert forall|p: int, i: int| 0 <= p < flat.len() && 0 <= i < N implies -honest_bound(rho)
        <= centered(#[trigger] flat[p].poly()[i], DGT_MODULUS as int) <= honest_bound(rho) by {
        lemma_flat_value(
            pp,
            clients,
            canonical,
            entries,
            received,
            nodes,
            order,
            flat,
            p,
            i,
        );
        assert(-honest_bound(rho) <= exact_total(clients, p, i) <= honest_bound(rho));
    }
}

} // verus!
