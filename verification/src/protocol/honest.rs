//! What a round of honest parties achieves: the verifier accepts it and reads
//! the sum of the messages.

use super::client::{
    commits_to, is_encryption, is_fresh_for, is_masked, is_sealed, key_fits, law_late_message,
    sealed_to, shares_key, zeros,
};
use super::roster::{distinct_count, last_at};
use super::server::{decodable, decodes, law_opening_bytes_round_trip, reads_well};
use super::verify::{
    chosen_ctxts, chosen_roots, client_fault, direct_fault, entry_of,
    is_plaintext, key_samples, opening_fault, openings_fault, recovered_key, roster_fault,
    servers_cover, summed,
};
use super::{opening_context, ClientId, ProtocolParams, ServerId, SessionId};
use crate::aggregate::{cs_sum, is_opening_sum, law_sum_opens, rs_slot};
use crate::bulletin::{ClientBulletinEntry, ServerBulletinEntry};
use crate::commit::{all_rs, is_fresh_opening, labels, server_rs};
use crate::cs::{all_within, opens, Commitment, Opening, BETA_CS};
use crate::field::{self, cong, sum};
use crate::hvc::{coefficient, hvc_sum};
use crate::kahe::{
    aggregated_at, ciphertext_sum, decrypted_at, encrypted_at, law_aggregate_decrypts,
    law_bridge_round_trip, lemma_vector_sum_len, message_sum, noisy_sum, position_column,
    vector_sum, KaheKey,
};
use crate::negacyclic::{
    centered, centered_half_open, cong_poly, lemma_centered, lemma_centered_cong, within, Coeffs,
    N,
};
use crate::pke::{is_scalar, opened, public_point, PkeError};
use crate::rings::{
    centered_poly, views, CsPoly, KahePoly, CS_MODULUS, CS_MODULUS_OVER_TWO, KAHE_MODULUS,
    KAHE_MODULUS_OVER_TWO, ZETA,
};
use crate::sss::{cs_views, law_shamir_additive, law_shamir_recovers, share_at};
use crate::wire::{
    cs_arrays, hvc_arrays, law_run_round_trip, lemma_header_len, lemma_reads_own, packed_wire,
    payload_len, PackedOpening,
};
use vstd::prelude::*;

verus! {

/// Everything one honest client chose and sent.
pub struct HonestClient {
    pub key: KaheKey,
    pub message: Seq<KahePoly>,
    pub errors: Seq<KahePoly>,
    pub pad: Seq<KahePoly>,
    pub ctxt: Seq<KahePoly>,
    pub coeffs: Seq<Coeffs>,
    pub shares: Seq<CsPoly>,
    pub vectors: Seq<Vec<CsPoly>>,
    pub randomness: Seq<Vec<CsPoly>>,
    pub comm: Commitment,
    pub openings: Seq<Opening>,
}

/// The client shared its key and committed to the shares.
pub open spec fn is_dealt(pp: ProtocolParams, c: HonestClient) -> bool {
    &&& key_fits(c.key)
    &&& shares_key(pp, c.key, c.coeffs, c.shares)
    &&& commits_to(pp, c.shares, c.vectors, c.randomness, c.comm, c.openings)
}

pub open spec fn all_dealt(pp: ProtocolParams, clients: Seq<HonestClient>) -> bool {
    forall|j: int| 0 <= j < clients.len() ==> is_dealt(pp, #[trigger] clients[j])
}

/// The client followed its steps.
pub open spec fn is_honest(pp: ProtocolParams, c: HonestClient) -> bool {
    &&& is_dealt(pp, c)
    &&& c.message.len() == pp.kahe.mu_kahe
    &&& c.errors.len() == pp.kahe.mu_kahe
    &&& is_encryption(pp, c.key.0@, zeros(pp), c.errors, c.pad)
    &&& is_masked(c.pad, c.message, c.ctxt)
}

pub open spec fn all_honest(pp: ProtocolParams, clients: Seq<HonestClient>) -> bool {
    forall|j: int| 0 <= j < clients.len() ==> is_honest(pp, #[trigger] clients[j])
}

/// The listed clients posted what `clients` sent, in that order.
pub open spec fn all_posted(
    clients: Seq<HonestClient>,
    canonical: Seq<ClientId>,
    entries: Seq<(ClientId, ClientBulletinEntry)>,
) -> bool {
    &&& canonical.len() == clients.len()
    &&& forall|j: int|
        #![trigger clients[j]]
        0 <= j < clients.len() ==> last_at(entries, canonical[j]) is Some && entry_of(
            entries,
            canonical[j],
        ).ctxt@ == clients[j].ctxt && entry_of(entries, canonical[j]).comm.root@
            == clients[j].comm.root@
}

/// The opening received holds the values of the one sent.
pub open spec fn same_values(got: Opening, sent: Opening) -> bool {
    &&& got.server_index == sent.server_index
    &&& got.path_index == sent.path_index
    &&& got.kappa_cs == sent.kappa_cs
    &&& got.mu_cs == sent.mu_cs
    &&& got.stored_path_len == sent.stored_path_len
    &&& cs_arrays(got.rs@) == cs_arrays(sent.rs@)
    &&& hvc_arrays(got.data@) == hvc_arrays(sent.data@)
}

/// The server summed the openings it received, one from each client.
pub open spec fn is_honest_server(
    pp: ProtocolParams,
    clients: Seq<HonestClient>,
    canonical: Seq<ClientId>,
    os: Seq<&Opening>,
    post: ServerBulletinEntry,
) -> bool {
    &&& post.server_id.0 < pp.cs.n_servers
    &&& post.clients@ == canonical
    &&& os.len() == clients.len()
    &&& forall|j: int|
        0 <= j < clients.len() ==> same_values(
            *#[trigger] os[j],
            clients[j].openings[post.server_id.0 as int],
        )
    &&& is_opening_sum(os, post.agg_open)
    &&& post.agg_share == post.agg_open.rs[post.agg_open.kappa_cs as int]
}

pub open spec fn all_honest_servers(
    pp: ProtocolParams,
    clients: Seq<HonestClient>,
    canonical: Seq<ClientId>,
    received: Seq<Seq<&Opening>>,
    servers: Seq<ServerBulletinEntry>,
) -> bool {
    &&& received.len() == servers.len()
    &&& servers_cover(pp, servers)
    &&& forall|i: int|
        #![trigger servers[i]]
        0 <= i < servers.len() ==> is_honest_server(
            pp,
            clients,
            canonical,
            received[i],
            servers[i],
        )
}

/// The keys, as shared.
pub open spec fn shared_keys(clients: Seq<HonestClient>) -> Seq<Coeffs> {
    clients.map_values(|c: HonestClient| centered_poly(c.key.0@, KAHE_MODULUS as int))
}

pub open spec fn keys(clients: Seq<HonestClient>) -> Seq<Coeffs> {
    clients.map_values(|c: HonestClient| c.key.0@)
}

/// Element `pos` of every message.
pub open spec fn messages(clients: Seq<HonestClient>, pos: int) -> Seq<Coeffs> {
    clients.map_values(|c: HonestClient| c.message[pos]@)
}

/// Element `pos` of every error vector.
pub open spec fn noises(clients: Seq<HonestClient>, pos: int) -> Seq<Coeffs> {
    clients.map_values(|c: HonestClient| c.errors[pos]@)
}

/// The summed key is still short, and the summed messages and errors stay below
/// the modulus.
pub open spec fn sums_fit(pp: ProtocolParams, clients: Seq<HonestClient>) -> bool {
    &&& within(vector_sum(shared_keys(clients)), CS_MODULUS_OVER_TWO as int)
    &&& forall|pos: int, k: int|
        0 <= pos < pp.kahe.mu_kahe && 0 <= k < N ==> -KAHE_MODULUS_OVER_TWO <= #[trigger] noisy_sum(
            messages(clients, pos),
            noises(clients, pos),
            pp.kahe.t_modulus as int,
            k,
        ) <= KAHE_MODULUS_OVER_TWO
}

/// The commitments.
pub open spec fn roots(clients: Seq<HonestClient>) -> Seq<Coeffs> {
    clients.map_values(|c: HonestClient| c.comm.root@)
}

// ---------------------------------------------------------------
// Openings
// ---------------------------------------------------------------

/// Equal arrays are equal coefficients.
proof fn lemma_same_views(got: Opening, sent: Opening)
    requires
        same_values(got, sent),
    ensures
        cs_views(got.rs@) == cs_views(sent.rs@),
        views(got.data@) == views(sent.data@),
        got.rs.len() == sent.rs.len(),
        got.data.len() == sent.data.len(),
{
    assert(cs_arrays(got.rs@).len() == cs_arrays(sent.rs@).len());
    assert(hvc_arrays(got.data@).len() == hvc_arrays(sent.data@).len());
    assert forall|j: int| 0 <= j < got.rs.len() implies cs_views(got.rs@)[j] == cs_views(
        sent.rs@,
    )[j] by {
        assert(cs_arrays(got.rs@)[j] == cs_arrays(sent.rs@)[j]);
        assert(got.rs@[j]@ =~= sent.rs@[j]@);
    }
    assert forall|j: int| 0 <= j < got.data.len() implies views(got.data@)[j] == views(
        sent.data@,
    )[j] by {
        assert(hvc_arrays(got.data@)[j] == hvc_arrays(sent.data@)[j]);
        assert(got.data@[j]@ =~= sent.data@[j]@);
    }
    assert(cs_views(got.rs@) =~= cs_views(sent.rs@));
    assert(views(got.data@) =~= views(sent.data@));
}

/// A sealed opening reaches its server: unsealing gives the values that were
/// sealed.
pub proof fn law_sealed_opening_arrives(
    pp: ProtocolParams,
    sid: SessionId,
    client: ClientId,
    server: ServerId,
    o: Opening,
    recipient: Seq<u8>,
    sealed: Seq<u8>,
    scalar: Seq<u8>,
)
    requires
        pp.wf(),
        is_fresh_for(pp, o),
        o.server_index <= u32::MAX,
        o.path_index <= u32::MAX,
        sealed_to(pp, sid, client, server, o, recipient, sealed),
        is_scalar(scalar),
        public_point(scalar) == recipient,
    ensures
        opened(scalar, sealed, opening_context(sid, client, server)) matches Ok(plain)
            && decodable(plain) && forall|back: Opening| #[trigger]
            decodes(plain, back) ==> same_values(back, o),
{
    let (p, e, n) = choose|p: PackedOpening, e: Seq<u8>, n: Seq<u8>| #[trigger]
        is_sealed(pp, sid, client, server, o, recipient, sealed, p, e, n);
    let plain = packed_wire(p);
    assert(opened(scalar, sealed, opening_context(sid, client, server)) == Ok::<Seq<u8>, PkeError>(
        plain,
    ));
    let (b, s, t) = (pp.cs.beta_cs, CS_MODULUS as u32, ZETA);
    let rs = cs_arrays(o.rs@);
    law_run_round_trip(rs.take(o.kappa_cs as int), b);
    law_run_round_trip(rs.skip(o.kappa_cs as int), s);
    law_run_round_trip(hvc_arrays(o.data@), t);
    lemma_header_len(p);
    lemma_reads_own(p);
    assert(p.bytes.len() == payload_len(p));
    assert(reads_well(plain, p));
    assert forall|back: Opening| #[trigger] decodes(plain, back) implies same_values(back, o) by {
        law_opening_bytes_round_trip(o, b, s, t, p, back);
    }
}

/// What an honest client's opening for `server` satisfies.
proof fn lemma_sent(pp: ProtocolParams, c: HonestClient, server: int)
    requires
        pp.wf(),
        is_dealt(pp, c),
        0 <= server < pp.cs.n_servers,
    ensures
        opens(pp.cs, c.comm.root@, c.openings[server]),
        c.openings[server].path_index == server,
        c.openings[server].server_index == server,
        all_within(
            cs_views(c.openings[server].rs@).take(pp.cs.kappa_cs as int),
            BETA_CS as int,
        ),
        all_within(views(c.openings[server].data@), ZETA as int),
        cs_views(c.openings[server].rs@)[pp.cs.kappa_cs as int] == share_at(
            centered_poly(c.key.0@, KAHE_MODULUS as int),
            c.coeffs,
            server + 1,
        ),
        c.comm.root@.len() == N,
{
    let o = c.openings[server];
    let rs = server_rs(c.randomness, c.vectors, server);
    assert(is_fresh_opening(
        pp.cs,
        labels(pp.cs, all_rs(c.randomness, c.vectors)),
        rs,
        server,
        o,
    ));
    let r = cs_views(c.randomness[server]@);
    assert(c.randomness[server].len() == pp.cs.kappa_cs && all_within(r, BETA_CS as int));
    assert(c.vectors[server]@ == seq![c.shares[server]]);
    assert(cs_views(o.rs@).take(pp.cs.kappa_cs as int) =~= r);
    assert(cs_views(o.rs@)[pp.cs.kappa_cs as int] == cs_views(c.vectors[server]@)[0]);
    assert(cs_views(c.shares)[server] == c.shares[server]@);
}

/// An honest server's summed opening opens the summed commitment.
pub proof fn law_honest_opening_passes(
    pp: ProtocolParams,
    clients: Seq<HonestClient>,
    canonical: Seq<ClientId>,
    os: Seq<&Opening>,
    post: ServerBulletinEntry,
    i: usize,
)
    requires
        pp.wf(),
        all_dealt(pp, clients),
        1 <= clients.len() <= 300,
        is_honest_server(pp, clients, canonical, os, post),
    ensures
        opening_fault(pp, hvc_sum(roots(clients)), post, i) is None,
{
    let s = post.server_id.0 as int;
    let rts = roots(clients);
    assert forall|j: int| #![trigger os[j]] 0 <= j < os.len() implies {
        &&& opens(pp.cs, rts[j], *os[j])
        &&& os[j].path_index == s
        &&& all_within(cs_views(os[j].rs@).take(pp.cs.kappa_cs as int), BETA_CS as int)
        &&& all_within(views(os[j].data@), ZETA as int)
    } by {
        assert(is_dealt(pp, clients[j]));
        lemma_sent(pp, clients[j], s);
        assert(same_values(*os[j], clients[j].openings[s]));
        lemma_same_views(*os[j], clients[j].openings[s]);
    }
    assert(crate::hvc::full(rts)) by {
        assert forall|j: int| 0 <= j < rts.len() implies (#[trigger] rts[j]).len() == N by {
            assert(is_dealt(pp, clients[j]));
            lemma_sent(pp, clients[j], s);
        }
    }
    assert(os[0].path_index == s);
    assert(crate::aggregate::all_relate(pp.cs, os, rts, os[0].path_index as int)) by {
        assert forall|j: int| #![trigger os[j]] 0 <= j < os.len() implies {
            &&& crate::cs::shape_fits(pp.cs, *os[j])
            &&& os[j].path_index == os[0].path_index
            &&& crate::cs::relations(
                pp.cs,
                rts[j],
                os[0].path_index as int,
                pp.cs.depth() as int,
                cs_views(os[j].rs@),
                views(os[j].data@),
            )
        } by {
            assert(opens(pp.cs, rts[j], *os[j]));
        }
    }
    law_sum_opens(pp.cs, os, rts, post.agg_open, BETA_CS as int, ZETA as int);
    assert(post.agg_open.path_index == s);
    assert(cong_poly(
        post.agg_share@,
        post.agg_open.rs[post.agg_open.kappa_cs as int]@,
        CS_MODULUS as int,
    ));
}

// ---------------------------------------------------------------
// The key
// ---------------------------------------------------------------

/// Coefficient by coefficient, the sum of the clients' sharing coefficients.
spec fn coeff_sums(clients: Seq<HonestClient>, t: int) -> Seq<Coeffs> {
    Seq::new(
        (t - 1) as nat,
        |d: int| vector_sum(clients.map_values(|c: HonestClient| c.coeffs[d])),
    )
}

/// The shares of all clients at `x`.
spec fn shares_at(clients: Seq<HonestClient>, x: int) -> Seq<Coeffs> {
    clients.map_values(
        |c: HonestClient| share_at(centered_poly(c.key.0@, KAHE_MODULUS as int), c.coeffs, x),
    )
}

/// Summed shares are shares of the summed keys.
proof fn lemma_summed_shares(clients: Seq<HonestClient>, t: int, x: int, k: int)
    requires
        t >= 1,
        forall|j: int| 0 <= j < clients.len() ==> (#[trigger] clients[j]).coeffs.len() == t - 1,
        0 <= k < N,
    ensures
        cong(
            share_at(vector_sum(shared_keys(clients)), coeff_sums(clients, t), x)[k],
            sum(coefficient(shares_at(clients, x), k)),
            CS_MODULUS as int,
        ),
    decreases clients.len(),
{
    let q = CS_MODULUS as int;
    let (secrets, cs) = (shared_keys(clients), coeff_sums(clients, t));
    if clients.len() == 0 {
        let p = crate::sss::sharing_poly(vector_sum(secrets), cs, k);
        assert(vector_sum(secrets)[k] == 0);
        assert forall|i: int| 0 <= i < p.len() implies #[trigger] p[i] == 0 by {
            if i > 0 {
                let none = clients.map_values(|c: HonestClient| c.coeffs[i - 1]);
                assert(none.len() == 0);
                assert(cs[i - 1] == vector_sum(none));
                assert(vector_sum(none)[k] == 0);
            }
        }
        assert(field::zero_mod(p, q)) by {
            assert forall|i: int| 0 <= i < p.len() implies cong(#[trigger] p[i], 0, q) by {}
        }
        field::lemma_eval_zero(p, x, q);
        lemma_centered(field::eval(p, x), q);
        assert(sum(coefficient(shares_at(clients, x), k)) == 0);
    } else {
        let (low, c) = (clients.drop_last(), clients.last());
        assert forall|j: int| 0 <= j < low.len() implies (#[trigger] low[j]).coeffs.len() == t - 1 by {
            assert(clients[j].coeffs.len() == t - 1);
        }
        lemma_summed_shares(low, t, x, k);
        let secret = centered_poly(c.key.0@, KAHE_MODULUS as int);
        let (ls, lc) = (vector_sum(shared_keys(low)), coeff_sums(low, t));
        assert(clients[clients.len() - 1].coeffs.len() == t - 1);
        lemma_vector_sum_len(shared_keys(low));
        assert forall|d: int| 0 <= d < lc.len() implies (#[trigger] lc[d]).len() == N by {
            lemma_vector_sum_len(low.map_values(|c: HonestClient| c.coeffs[d]));
        }
        law_shamir_additive(ls, lc, secret, c.coeffs, x);
        assert(secrets.drop_last() =~= shared_keys(low));
        let both = Seq::new(lc.len(), |d: int| crate::negacyclic::combine(lc[d], 1, c.coeffs[d]));
        assert(both =~= cs) by {
            assert forall|d: int| 0 <= d < cs.len() implies both[d] == #[trigger] cs[d] by {
                let all = clients.map_values(|c: HonestClient| c.coeffs[d]);
                assert(all.drop_last() =~= low.map_values(|c: HonestClient| c.coeffs[d]));
                assert(all.last() == c.coeffs[d]);
            }
        }
        let (a, b) = (share_at(ls, lc, x), share_at(secret, c.coeffs, x));
        let column = coefficient(shares_at(low, x), k);
        assert(coefficient(shares_at(clients, x), k) =~= column.push(b[k]));
        field::lemma_sum_push(column, b[k]);
        lemma_centered(a[k] + 1 * b[k], q);
        field::lemma_cong_ops(a[k], sum(column), b[k], b[k], q);
        assert(share_at(vector_sum(secrets), cs, x)[k] == centered(a[k] + 1 * b[k], q));
    }
}

/// An honest server's share is a share of the summed keys.
proof fn lemma_server_share(
    pp: ProtocolParams,
    clients: Seq<HonestClient>,
    canonical: Seq<ClientId>,
    os: Seq<&Opening>,
    post: ServerBulletinEntry,
)
    requires
        pp.wf(),
        all_dealt(pp, clients),
        clients.len() > 0,
        is_honest_server(pp, clients, canonical, os, post),
    ensures
        post.agg_share@ == share_at(
            vector_sum(shared_keys(clients)),
            coeff_sums(clients, pp.shamir.t as int),
            post.server_id.0 + 1,
        ),
{
    let (t, x) = (pp.shamir.t as int, post.server_id.0 + 1);
    let (s, kappa) = (post.server_id.0 as int, pp.cs.kappa_cs as int);
    let q = CS_MODULUS as int;
    let slot = rs_slot(os, kappa);
    assert forall|j: int| 0 <= j < os.len() implies #[trigger] slot[j] == shares_at(clients, x)[j] by {
        assert(is_dealt(pp, clients[j]));
        lemma_sent(pp, clients[j], s);
        assert(same_values(*os[j], clients[j].openings[s]));
        lemma_same_views(*os[j], clients[j].openings[s]);
        assert(cs_views(os[j].rs@)[kappa] == os[j].rs[kappa]@);
    }
    assert(slot =~= shares_at(clients, x));
    assert(is_dealt(pp, clients[0]));
    lemma_sent(pp, clients[0], s);
    assert(same_values(*os[0], clients[0].openings[s]));
    lemma_same_views(*os[0], clients[0].openings[s]);
    assert(post.agg_open.kappa_cs == kappa);
    assert(post.agg_open.rs[kappa]@ == cs_sum(slot));
    let target = share_at(vector_sum(shared_keys(clients)), coeff_sums(clients, t), x);
    assert forall|j: int| 0 <= j < clients.len() implies (#[trigger] clients[j]).coeffs.len() == t
        - 1 by {
        assert(is_dealt(pp, clients[j]));
    }
    assert forall|k: int| 0 <= k < N implies post.agg_share@[k] == target[k] by {
        lemma_summed_shares(clients, t, x, k);
        let p = crate::sss::sharing_poly(
            vector_sum(shared_keys(clients)),
            coeff_sums(clients, t),
            k,
        );
        let e = field::eval(p, x);
        lemma_centered(e, q);
        lemma_centered_cong(e, sum(coefficient(slot, k)), q);
    }
    assert(post.agg_share@ =~= target);
}

/// The honest servers' shares interpolate to the sum of the keys.
pub proof fn law_honest_key_recovers(
    pp: ProtocolParams,
    clients: Seq<HonestClient>,
    canonical: Seq<ClientId>,
    received: Seq<Seq<&Opening>>,
    servers: Seq<ServerBulletinEntry>,
)
    requires
        pp.wf(),
        all_dealt(pp, clients),
        clients.len() > 0,
        all_honest_servers(pp, clients, canonical, received, servers),
        servers.len() >= pp.shamir.t,
        within(vector_sum(shared_keys(clients)), CS_MODULUS_OVER_TWO as int),
    ensures
        recovered_key(pp, servers) == vector_sum(shared_keys(clients)),
{
    let t = pp.shamir.t as int;
    let samples = key_samples(servers, t);
    let total = vector_sum(shared_keys(clients));
    super::verify::lemma_points(pp, servers);
    lemma_vector_sum_len(shared_keys(clients));
    assert forall|i: int| 0 <= i < t implies (#[trigger] samples[i]).1@ == share_at(
        total,
        coeff_sums(clients, t),
        samples[i].0 + 1,
    ) by {
        assert(is_honest_server(pp, clients, canonical, received[i], servers[i]));
        lemma_server_share(pp, clients, canonical, received[i], servers[i]);
    }
    law_shamir_recovers(total, coeff_sums(clients, t), samples, t);
    law_bridge_round_trip(total);
}

/// Centering the keys does not change their sum modulo the ciphertext modulus.
pub(crate) proof fn lemma_key_sum(clients: Seq<HonestClient>)
    ensures
        cong_poly(vector_sum(shared_keys(clients)), vector_sum(keys(clients)), KAHE_MODULUS as int),
    decreases clients.len(),
{
    let q = KAHE_MODULUS as int;
    let (a, b) = (shared_keys(clients), keys(clients));
    lemma_vector_sum_len(a);
    lemma_vector_sum_len(b);
    if clients.len() > 0 {
        let low = clients.drop_last();
        lemma_key_sum(low);
        assert(a.drop_last() =~= shared_keys(low));
        assert(b.drop_last() =~= keys(low));
        let (x, y) = (vector_sum(shared_keys(low)), vector_sum(keys(low)));
        lemma_vector_sum_len(shared_keys(low));
        lemma_vector_sum_len(keys(low));
        assert forall|k: int| 0 <= k < N implies cong(
            #[trigger] vector_sum(a)[k],
            vector_sum(b)[k],
            q,
        ) by {
            assert(cong(x[k], y[k], q));
            lemma_centered(b.last()[k], q);
            field::lemma_cong_ops(x[k], y[k], a.last()[k], b.last()[k], q);
        }
    }
}

// ---------------------------------------------------------------
// The ciphertext
// ---------------------------------------------------------------

proof fn lemma_client_ctxt(pp: ProtocolParams, c: HonestClient, pos: int, k: int)
    requires
        is_honest(pp, c),
        0 <= pos < pp.kahe.mu_kahe,
        0 <= k < N,
    ensures
        c.ctxt.len() == pp.kahe.mu_kahe,
        cong(
            c.ctxt[pos]@[k],
            encrypted_at(
                pp.kahe.a_ntt[pos]@,
                c.key.0@,
                c.message[pos]@,
                c.errors[pos]@,
                pp.kahe.t_modulus as int,
                k,
            ),
            KAHE_MODULUS as int,
        ),
{
    let (a, t) = (pp.kahe.a_ntt[pos]@, pp.kahe.t_modulus as int);
    let zero = Seq::new(N as nat, |_j: int| 0int);
    assert(zeros(pp)[pos] =~= zero);
    assert(c.pad[pos]@[k] == encrypted_at(a, c.key.0@, zero, c.errors[pos]@, t, k));
    law_late_message(a, c.key.0@, c.message[pos]@, c.errors[pos]@, t, k);
    assert(c.ctxt[pos]@[k] == crate::negacyclic::truncated(
        c.pad[pos]@[k] + c.message[pos]@[k],
        KAHE_MODULUS as int,
    ));
}

/// The summed posts are the sum of the ciphertexts.
proof fn lemma_summed_ctxt(pp: ProtocolParams, clients: Seq<HonestClient>, pos: int, k: int)
    requires
        all_honest(pp, clients),
        0 <= pos < pp.kahe.mu_kahe,
        0 <= k < N,
    ensures
        cong(
            sum(position_column(clients.map_values(|c: HonestClient| c.ctxt), pos, k)),
            ciphertext_sum(
                pp.kahe.a_ntt[pos]@,
                keys(clients),
                messages(clients, pos),
                noises(clients, pos),
                pp.kahe.t_modulus as int,
                k,
            ),
            KAHE_MODULUS as int,
        ),
    decreases clients.len(),
{
    let q = KAHE_MODULUS as int;
    let all = clients.map_values(|c: HonestClient| c.ctxt);
    if clients.len() == 0 {
        assert(sum(position_column(all, pos, k)) == 0);
    } else {
        let (low, c) = (clients.drop_last(), clients.last());
        assert forall|j: int| 0 <= j < low.len() implies is_honest(pp, #[trigger] low[j]) by {
            assert(is_honest(pp, clients[j]));
        }
        lemma_summed_ctxt(pp, low, pos, k);
        assert(is_honest(pp, clients[clients.len() - 1]));
        lemma_client_ctxt(pp, c, pos, k);
        let part = position_column(low.map_values(|c: HonestClient| c.ctxt), pos, k);
        assert(position_column(all, pos, k) =~= part.push(c.ctxt[pos]@[k]));
        field::lemma_sum_push(part, c.ctxt[pos]@[k]);
        assert(keys(clients).drop_last() =~= keys(low));
        assert(messages(clients, pos).drop_last() =~= messages(low, pos));
        assert(noises(clients, pos).drop_last() =~= noises(low, pos));
        let (a, t) = (pp.kahe.a_ntt[pos]@, pp.kahe.t_modulus as int);
        let (x, y) = (
            ciphertext_sum(a, keys(low), messages(low, pos), noises(low, pos), t, k),
            encrypted_at(a, c.key.0@, c.message[pos]@, c.errors[pos]@, t, k),
        );
        field::lemma_cong_ops(sum(part), x, c.ctxt[pos]@[k], y, q);
    }
}

// ---------------------------------------------------------------
// The round
// ---------------------------------------------------------------

/// A round of at most 300 honest clients, with at least the threshold of honest
/// servers, is accepted, and decrypts to the sum of the messages modulo the
/// plaintext modulus.
pub proof fn law_honest_round(
    pp: ProtocolParams,
    clients: Seq<HonestClient>,
    canonical: Seq<ClientId>,
    entries: Seq<(ClientId, ClientBulletinEntry)>,
    received: Seq<Seq<&Opening>>,
    servers: Seq<ServerBulletinEntry>,
)
    requires
        pp.wf(),
        all_honest(pp, clients),
        1 <= clients.len() <= 300,
        all_posted(clients, canonical, entries),
        distinct_count(canonical) >= pp.min_clients,
        all_honest_servers(pp, clients, canonical, received, servers),
        servers.len() >= pp.shamir.t,
        sums_fit(pp, clients),
    ensures
        direct_fault(pp, canonical, entries, servers) is None,
        forall|m: Seq<KahePoly>, pos: int, k: int|
            #![trigger m[pos]@[k], is_plaintext(
                pp,
                summed(chosen_ctxts(entries, canonical)),
                recovered_key(pp, servers),
                m,
            )]
            is_plaintext(
                pp,
                summed(chosen_ctxts(entries, canonical)),
                recovered_key(pp, servers),
                m,
            ) && 0 <= pos < m.len() && 0 <= k < N ==> m.len() == pp.kahe.mu_kahe && m[pos]@[k]
                == centered_half_open(
                message_sum(messages(clients, pos), k),
                pp.kahe.t_modulus as int,
            ),
{
    let q = KAHE_MODULUS as int;
    let ctxts = chosen_ctxts(entries, canonical);
    let sent = clients.map_values(|c: HonestClient| c.ctxt);
    assert(ctxts =~= sent) by {
        assert forall|j: int| 0 <= j < clients.len() implies ctxts[j] == #[trigger] sent[j] by {
            assert(clients[j].ctxt == sent[j]);
        }
    }
    assert(chosen_roots(entries, canonical) =~= roots(clients)) by {
        assert forall|j: int| 0 <= j < clients.len() implies chosen_roots(entries, canonical)[j]
            == #[trigger] roots(clients)[j] by {
            assert(clients[j].comm.root@ == roots(clients)[j]);
        }
    }
    assert forall|j: int| 0 <= j < clients.len() implies (#[trigger] sent[j]).len()
        == pp.kahe.mu_kahe by {
        assert(is_honest(pp, clients[j]));
        assert(clients[j].ctxt.len() == clients[j].pad.len());
    }
    assert(servers[0].clients@ == canonical) by {
        assert(is_honest_server(pp, clients, canonical, received[0], servers[0]));
    }
    assert forall|j: int| 0 <= j < clients.len() implies is_dealt(pp, #[trigger] clients[j]) by {
        assert(is_honest(pp, clients[j]));
    }
    lemma_no_roster_fault(pp, clients, canonical, received, servers, 0);
    lemma_no_client_fault(pp, clients, canonical, entries, servers[0].server_id, 0);
    lemma_no_opening_fault(pp, clients, canonical, received, servers, 0);
    law_honest_key_recovers(pp, clients, canonical, received, servers);
    lemma_key_sum(clients);
    let key = recovered_key(pp, servers);
    lemma_vector_sum_len(shared_keys(clients));
    let c = summed(ctxts);
    assert(sent[0].len() == pp.kahe.mu_kahe);
    assert forall|m: Seq<KahePoly>, pos: int, k: int|
        #![trigger m[pos]@[k], is_plaintext(pp, c, key, m)]
        is_plaintext(pp, c, key, m) && 0 <= pos < m.len() && 0 <= k < N implies m.len()
        == pp.kahe.mu_kahe && m[pos]@[k] == centered_half_open(
        message_sum(messages(clients, pos), k),
        pp.kahe.t_modulus as int,
    ) by {
        lemma_summed_ctxt(pp, clients, pos, k);
        lemma_centered(sum(position_column(ctxts, pos, k)), q);
        assert(c[pos][k] == aggregated_at(ctxts, pos, k));
        assert forall|i: int| 0 <= i < keys(clients).len() implies (#[trigger] keys(
            clients,
        )[i]).len() == N by {}
        assert(-KAHE_MODULUS_OVER_TWO <= noisy_sum(
            messages(clients, pos),
            noises(clients, pos),
            pp.kahe.t_modulus as int,
            k,
        ) <= KAHE_MODULUS_OVER_TWO);
        law_aggregate_decrypts(
            pp.kahe.a_ntt[pos]@,
            keys(clients),
            messages(clients, pos),
            noises(clients, pos),
            pp.kahe.t_modulus as int,
            key,
            c[pos],
            k,
        );
        assert(m[pos]@[k] == decrypted_at(
            pp.kahe.a_ntt[pos]@,
            key,
            c[pos],
            pp.kahe.t_modulus as int,
            k,
        ));
    }
}

proof fn lemma_no_roster_fault(
    pp: ProtocolParams,
    clients: Seq<HonestClient>,
    canonical: Seq<ClientId>,
    received: Seq<Seq<&Opening>>,
    servers: Seq<ServerBulletinEntry>,
    i: int,
)
    requires
        all_honest_servers(pp, clients, canonical, received, servers),
        0 <= i <= servers.len(),
    ensures
        roster_fault(servers, canonical, i) is None,
    decreases servers.len() - i,
{
    if i < servers.len() {
        assert(is_honest_server(pp, clients, canonical, received[i], servers[i]));
        lemma_no_roster_fault(pp, clients, canonical, received, servers, i + 1);
    }
}

pub(crate) proof fn lemma_no_opening_fault(
    pp: ProtocolParams,
    clients: Seq<HonestClient>,
    canonical: Seq<ClientId>,
    received: Seq<Seq<&Opening>>,
    servers: Seq<ServerBulletinEntry>,
    i: int,
)
    requires
        pp.wf(),
        all_dealt(pp, clients),
        1 <= clients.len() <= 300,
        all_honest_servers(pp, clients, canonical, received, servers),
        0 <= i <= servers.len(),
    ensures
        openings_fault(pp, hvc_sum(roots(clients)), servers, i) is None,
    decreases servers.len() - i,
{
    if i < servers.len() {
        assert(is_honest_server(pp, clients, canonical, received[i], servers[i]));
        law_honest_opening_passes(pp, clients, canonical, received[i], servers[i], i as usize);
        lemma_no_opening_fault(pp, clients, canonical, received, servers, i + 1);
    }
}

proof fn lemma_no_client_fault(
    pp: ProtocolParams,
    clients: Seq<HonestClient>,
    canonical: Seq<ClientId>,
    entries: Seq<(ClientId, ClientBulletinEntry)>,
    first: ServerId,
    i: int,
)
    requires
        all_honest(pp, clients),
        all_posted(clients, canonical, entries),
        0 <= i <= clients.len(),
    ensures
        client_fault(pp, entries, canonical, first, i) is None,
    decreases clients.len() - i,
{
    if i < clients.len() {
        assert(is_honest(pp, clients[i]));
        assert(is_honest(pp, clients[0]));
        assert(clients[i].ctxt.len() == pp.kahe.mu_kahe);
        assert(clients[0].ctxt.len() == pp.kahe.mu_kahe);
        lemma_no_client_fault(pp, clients, canonical, entries, first, i + 1);
    }
}

} // verus!
