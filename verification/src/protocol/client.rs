//! The client: encrypts, shares the key, commits and seals.

use super::{opening_aad, opening_context, zero_message, ClientId, ProtocolParams, ServerId, SessionId};
use crate::bits::in_range;
use crate::bulletin::{ClientBulletinEntry, RsClientBulletinEntry};
use crate::commit::{
    all_rs, committed, is_drawn_randomness, is_fresh_opening, labels, root_of, server_rs,
};
use crate::cs::{all_within, data_polys, shape_fits, Commitment, HidingMerkleCommitment, Opening};
use crate::digest::embed;
use crate::field::{self, cong};
use crate::hvc::node;
use crate::kahe::{all_reduced, all_roomy, encrypted_at, kahe_to_cs_centered, pad_at, Kahe, KaheKey};
use crate::negacyclic::{center_i64, centered, lemma_centered, truncated, within, Coeffs, N};
use crate::pke::{
    self, envelope, gives_nonce, gives_scalar, is_scalar, opens_to, PublicKey, SEAL_OVERHEAD,
};
use crate::random::{self, fork_seeds, run, started, starts};
use crate::rings::{
    centered_poly, embedding, views, CsPoly, DgtNTTPoly, HVCPoly, KahePoly, CS_MODULUS, CS_MODULUS_OVER_TWO,
    DGT_MODULUS, HVC_MODULUS, KAHE_MODULUS, ZETA,
};
use crate::rs::{block_len_of, coded_residue, Coded, Rs, RsParams, Share};
use crate::share_commitment::{
    all_views, commit_shares, dgt_views, dgt_wf, ingests, is_path_of, lane_labels, SharePath,
    ShareCommitmentParams,
};
use crate::sig::{is_signature, signature_of, verifying_point, SigningKey};
use crate::sss::{cs_elements, cs_views, is_sharing, share_at, ShamirSharing};
use crate::wire::{
    cs_arrays, fresh_opening_pack_bounds, hvc_arrays, law_run_round_trip, packed_wire, packs,
    poly_len, within_bounds, PackedOpening, PACKED_OPENING_HEADER_LEN,
};
use rand_chacha::ChaCha20Rng;
use vstd::prelude::*;

verus! {

// ---------------------------------------------------------------
// Sealing
// ---------------------------------------------------------------

/// An opening as one client hands it out: right shape, within the fresh bounds.
pub open spec fn is_fresh_for(pp: ProtocolParams, o: Opening) -> bool {
    &&& shape_fits(pp.cs, o)
    &&& within_bounds(o, pp.cs.beta_cs as int, CS_MODULUS as int, ZETA as int)
}

/// Bytes of one sealed opening.
pub open spec fn sealed_len(pp: ProtocolParams) -> int {
    PACKED_OPENING_HEADER_LEN + pp.cs.kappa_cs * poly_len(pp.cs.beta_cs as int) + pp.cs.mu_cs
        * poly_len(CS_MODULUS as int) + data_polys(1 + pp.cs.mu_cs, pp.cs.depth() as int) * poly_len(
        ZETA as int,
    ) + SEAL_OVERHEAD
}

/// `sealed` is the packed opening in an envelope to `recipient`, bound to the
/// session, the client and the server.
pub open spec fn is_sealed(
    pp: ProtocolParams,
    sid: SessionId,
    client: ClientId,
    server: ServerId,
    o: Opening,
    recipient: Seq<u8>,
    sealed: Seq<u8>,
    p: PackedOpening,
    ephemeral: Seq<u8>,
    nonce: Seq<u8>,
) -> bool {
    &&& packs(o, pp.cs.beta_cs, CS_MODULUS as u32, ZETA, p)
    &&& is_scalar(ephemeral)
    &&& nonce.len() == 12
    &&& sealed == envelope(
        recipient,
        ephemeral,
        nonce,
        packed_wire(p),
        opening_context(sid, client, server),
    )
    &&& opens_to(recipient, sealed, packed_wire(p), opening_context(sid, client, server))
}

/// As [`is_sealed`], for some ephemeral key and nonce.
pub open spec fn sealed_to(
    pp: ProtocolParams,
    sid: SessionId,
    client: ClientId,
    server: ServerId,
    o: Opening,
    recipient: Seq<u8>,
    sealed: Seq<u8>,
) -> bool {
    exists|p: PackedOpening, ephemeral: Seq<u8>, nonce: Seq<u8>| #[trigger]
        is_sealed(pp, sid, client, server, o, recipient, sealed, p, ephemeral, nonce)
}

/// As [`is_sealed`], for the ephemeral key and the nonce that the generator
/// gives from `g` to `h`, in this order.
pub open spec fn sealed_under(
    pp: ProtocolParams,
    sid: SessionId,
    client: ClientId,
    server: ServerId,
    o: Opening,
    recipient: Seq<u8>,
    sealed: Seq<u8>,
    g: ChaCha20Rng,
    h: ChaCha20Rng,
) -> bool {
    exists|p: PackedOpening, ephemeral: Seq<u8>, nonce: Seq<u8>, m: ChaCha20Rng| #[trigger]
        is_sealed(pp, sid, client, server, o, recipient, sealed, p, ephemeral, nonce)
            && #[trigger] gives_scalar(g, ephemeral, m) && gives_nonce(m, nonce, h)
}

/// As [`sealed_under`], for the generator of a seed.
pub open spec fn sealed_by_seed(
    pp: ProtocolParams,
    sid: SessionId,
    client: ClientId,
    server: ServerId,
    o: Opening,
    recipient: Seq<u8>,
    sealed: Seq<u8>,
    seed: [u8; 32],
) -> bool {
    exists|g: ChaCha20Rng, h: ChaCha20Rng| #[trigger]
        starts(seed, g) && #[trigger] sealed_under(
            pp,
            sid,
            client,
            server,
            o,
            recipient,
            sealed,
            g,
            h,
        )
}

/// The generator gives one seed per server from `g` to `h`, and each opening is
/// sealed under its own seed.
pub open spec fn all_sealed_between(
    pp: ProtocolParams,
    sid: SessionId,
    client: ClientId,
    openings: Seq<Opening>,
    servers: Seq<(ServerId, PublicKey)>,
    sealed: Seq<(ServerId, Vec<u8>)>,
    g: ChaCha20Rng,
    h: ChaCha20Rng,
) -> bool {
    exists|seeds: Seq<[u8; 32]>| #[trigger]
        run(random::seeds(), g, seeds, h) && seeds.len() == servers.len() && forall|i: int|
            0 <= i < sealed.len() ==> sealed_by_seed(
                pp,
                sid,
                client,
                servers[i].0,
                openings[i],
                servers[i].1@,
                (#[trigger] sealed[i]).1@,
                seeds[i],
            )
}

proof fn lemma_packed_size(pp: ProtocolParams, o: Opening, p: PackedOpening)
    requires
        pp.wf(),
        is_fresh_for(pp, o),
        packs(o, pp.cs.beta_cs, CS_MODULUS as u32, ZETA, p),
    ensures
        packed_wire(p).len() + SEAL_OVERHEAD == sealed_len(pp),
        packed_wire(p).len() <= 0x1000_0000,
{
    let (b, s, t) = (pp.cs.beta_cs, CS_MODULUS as u32, ZETA);
    let rs = cs_arrays(o.rs@);
    law_run_round_trip(rs.take(o.kappa_cs as int), b);
    law_run_round_trip(rs.skip(o.kappa_cs as int), s);
    law_run_round_trip(hvc_arrays(o.data@), t);
    crate::wire::lemma_header_len(p);
    lemma_poly_len(b);
    lemma_poly_len(s);
    lemma_poly_len(t);
    let d = data_polys(2, pp.cs.depth() as int);
    let l = poly_len(t as int);
    assert(0 <= d * l <= 384 * 0x3000) by (nonlinear_arith)
        requires
            0 <= d <= 384,
            0 <= l <= 0x3000,
    ;
}

proof fn lemma_poly_len(bound: u32)
    ensures
        0 <= poly_len(bound as int) <= 0x3000,
{
    crate::wire::lemma_width_bound(bound);
}

/// Packs an opening and seals it to its server.
pub fn seal_opening(
    rng: &mut ChaCha20Rng,
    pp: &ProtocolParams,
    sid: &SessionId,
    client_id: ClientId,
    server_id: ServerId,
    opening: &Opening,
    recipient: &PublicKey,
) -> (r: Vec<u8>)
    requires
        pp.wf(),
        is_fresh_for(*pp, *opening),
    ensures
        sealed_to(*pp, *sid, client_id, server_id, *opening, recipient@, r@),
        sealed_under(
            *pp,
            *sid,
            client_id,
            server_id,
            *opening,
            recipient@,
            r@,
            *old(rng),
            *final(rng),
        ),
        r.len() == sealed_len(*pp),
{
    let (r_b, s_b, t_b): (u32, u32, u32) = fresh_opening_pack_bounds(&pp.cs);
    let p: PackedOpening = opening.pack(r_b, s_b, t_b);
    let bytes: Vec<u8> = p.to_bytes();
    proof {
        lemma_packed_size(*pp, *opening, p);
    }
    let aad: Vec<u8> = opening_aad(sid, client_id, server_id);
    let r: Vec<u8> = pke::encrypt(rng, recipient, &bytes, &aad);
    proof {
        let (e, n) = choose|e: Seq<u8>, n: Seq<u8>|
            is_scalar(e) && n.len() == 12 && r@ == #[trigger] envelope(
                recipient@,
                e,
                n,
                bytes@,
                aad@,
            ) && exists|m: ChaCha20Rng| #[trigger]
                gives_scalar(*old(rng), e, m) && gives_nonce(m, n, *rng);
        let m = choose|m: ChaCha20Rng| #[trigger]
            gives_scalar(*old(rng), e, m) && gives_nonce(m, n, *rng);
        assert(gives_scalar(*old(rng), e, m));
        assert(is_sealed(
            *pp,
            *sid,
            client_id,
            server_id,
            *opening,
            recipient@,
            r@,
            p,
            e,
            n,
        ));
    }
    r
}

/// How many pairs of a server and an opening there are.
pub open spec fn paired_count(servers: int, openings: int) -> int {
    if servers <= openings {
        servers
    } else {
        openings
    }
}

/// Every server's opening is sealed to it.
pub open spec fn all_sealed(
    pp: ProtocolParams,
    sid: SessionId,
    client: ClientId,
    openings: Seq<Opening>,
    servers: Seq<(ServerId, PublicKey)>,
    sealed: Seq<(ServerId, Vec<u8>)>,
) -> bool {
    &&& sealed.len() == paired_count(servers.len() as int, openings.len() as int)
    &&& forall|i: int|
        0 <= i < sealed.len() ==> (#[trigger] sealed[i]).0 == servers[i].0 && sealed_to(
            pp,
            sid,
            client,
            servers[i].0,
            openings[i],
            servers[i].1@,
            sealed[i].1@,
        ) && sealed[i].1.len() == sealed_len(pp)
}

/// [`seal_opening`] for every server that has an opening.
pub fn seal_openings(
    rng: &mut ChaCha20Rng,
    pp: &ProtocolParams,
    sid: &SessionId,
    client_id: ClientId,
    openings: &[Opening],
    servers: &[(ServerId, PublicKey)],
) -> (r: Vec<(ServerId, Vec<u8>)>)
    requires
        pp.wf(),
        forall|i: int| 0 <= i < openings.len() ==> is_fresh_for(*pp, #[trigger] openings[i]),
    ensures
        all_sealed(*pp, *sid, client_id, openings@, servers@, r@),
        all_sealed_between(
            *pp,
            *sid,
            client_id,
            openings@,
            servers@,
            r@,
            *old(rng),
            *final(rng),
        ),
{
    let seeds: Vec<[u8; 32]> = fork_seeds(rng, servers.len());
    let n: usize = if servers.len() <= openings.len() {
        servers.len()
    } else {
        openings.len()
    };
    let mut out: Vec<(ServerId, Vec<u8>)> = Vec::with_capacity(n);
    for i in 0..n
        invariant
            pp.wf(),
            n == paired_count(servers.len() as int, openings.len() as int),
            seeds.len() == servers.len(),
            forall|i: int| 0 <= i < openings.len() ==> is_fresh_for(*pp, #[trigger] openings[i]),
            out.len() == i,
            forall|k: int|
                0 <= k < i ==> (#[trigger] out[k]).0 == servers[k].0 && sealed_to(
                    *pp,
                    *sid,
                    client_id,
                    servers[k].0,
                    openings[k],
                    servers[k].1@,
                    out[k].1@,
                ) && out[k].1.len() == sealed_len(*pp),
            forall|k: int|
                0 <= k < i ==> sealed_by_seed(
                    *pp,
                    *sid,
                    client_id,
                    servers[k].0,
                    openings[k],
                    servers[k].1@,
                    (#[trigger] out[k]).1@,
                    seeds[k],
                ),
    {
        let mut item_rng: ChaCha20Rng = started(&seeds[i]);
        let ghost first = item_rng;
        assert(is_fresh_for(*pp, openings[i as int]));
        let sealed: Vec<u8> = seal_opening(
            &mut item_rng,
            pp,
            sid,
            client_id,
            servers[i].0,
            &openings[i],
            &servers[i].1,
        );
        assert(starts(seeds[i as int], first));
        assert(sealed_by_seed(
            *pp,
            *sid,
            client_id,
            servers[i as int].0,
            openings[i as int],
            servers[i as int].1@,
            sealed@,
            seeds[i as int],
        ));
        out.push((servers[i].0, sealed));
    }
    assert(run(random::seeds(), *old(rng), seeds@, *rng));
    out
}

// ---------------------------------------------------------------
// Steps
// ---------------------------------------------------------------

/// `c` encrypts `m` under `key` with the given errors.
pub open spec fn is_encryption(
    pp: ProtocolParams,
    key: Coeffs,
    m: Seq<Coeffs>,
    errors: Seq<KahePoly>,
    c: Seq<KahePoly>,
) -> bool {
    &&& c.len() == m.len()
    &&& all_reduced(c)
    &&& forall|i: int, j: int|
        0 <= i < c.len() && 0 <= j < N ==> #[trigger] c[i]@[j] == encrypted_at(
            pp.kahe.a_ntt[i]@,
            key,
            m[i],
            errors[i]@,
            pp.kahe.t_modulus as int,
            j,
        )
}

/// Encrypts `message` under `key`.
pub fn kahe_encrypt(
    pp: &ProtocolParams,
    key: &KaheKey,
    message: &[KahePoly],
    errors: &[KahePoly],
) -> (r: Vec<KahePoly>)
    requires
        pp.wf(),
        message.len() <= pp.kahe.mu_kahe,
        errors.len() == message.len(),
        all_roomy(message@),
    ensures
        is_encryption(*pp, key.0@, crate::kahe::kahe_views(message@), errors@, r@),
{
    Kahe::enc(&pp.kahe, key, message, errors)
}

/// The key is short enough to be shared in the commitment ring.
pub open spec fn key_fits(key: KaheKey) -> bool {
    within(centered_poly(key.0@, KAHE_MODULUS as int), CS_MODULUS_OVER_TWO as int)
}

/// Whether the key is short enough to be shared.
pub fn check_key(key: &KaheKey) -> (r: bool)
    ensures
        r == key_fits(*key),
{
    let ghost want = centered_poly(key.0@, KAHE_MODULUS as int);
    for k in 0..N
        invariant
            want == centered_poly(key.0@, KAHE_MODULUS as int),
            forall|j: int|
                0 <= j < k ==> -CS_MODULUS_OVER_TWO <= #[trigger] want[j] <= CS_MODULUS_OVER_TWO,
    {
        let c: i64 = center_i64(key.0.coeffs[k], KAHE_MODULUS);
        assert(want[k as int] == c);
        if c < -(CS_MODULUS_OVER_TWO as i64) || c > CS_MODULUS_OVER_TWO as i64 {
            assert(!key_fits(*key));
            return false;
        }
    }
    true
}

/// `shares` are Shamir shares of `key` under `coeffs`.
pub open spec fn shares_key(
    pp: ProtocolParams,
    key: KaheKey,
    coeffs: Seq<Coeffs>,
    shares: Seq<CsPoly>,
) -> bool {
    &&& shares.len() == pp.shamir.n
    &&& coeffs.len() == pp.shamir.t - 1
    &&& is_sharing(cs_views(shares), centered_poly(key.0@, KAHE_MODULUS as int), coeffs)
}

/// Shares the key among the servers.
pub fn shamir_share(rng: &mut ChaCha20Rng, pp: &ProtocolParams, key: &KaheKey) -> (r: Vec<CsPoly>)
    requires
        pp.wf(),
        key_fits(*key),
    ensures
        exists|coeffs: Seq<Coeffs>| #[trigger]
            shares_key(*pp, *key, coeffs, r@) && run(
                cs_elements(),
                *old(rng),
                coeffs,
                *final(rng),
            ),
{
    let secret: CsPoly = kahe_to_cs_centered(key.inner());
    let r: Vec<CsPoly> = ShamirSharing::share(rng, &pp.shamir, &secret);
    proof {
        let coeffs = choose|coeffs: Seq<Coeffs>|
            coeffs.len() == pp.shamir.t - 1 && #[trigger] is_sharing(
                cs_views(r@),
                secret@,
                coeffs,
            ) && run(cs_elements(), *old(rng), coeffs, *rng);
        assert(shares_key(*pp, *key, coeffs, r@));
    }
    r
}

/// One share per server, as the vectors that are committed to.
pub open spec fn are_singletons(vectors: Seq<Vec<CsPoly>>, shares: Seq<CsPoly>) -> bool {
    &&& vectors.len() == shares.len()
    &&& forall|i: int| 0 <= i < vectors.len() ==> (#[trigger] vectors[i])@ == seq![shares[i]]
}

/// `comm` and `openings` commit to one share per server, under `randomness`.
pub open spec fn commits_to(
    pp: ProtocolParams,
    shares: Seq<CsPoly>,
    vectors: Seq<Vec<CsPoly>>,
    randomness: Seq<Vec<CsPoly>>,
    comm: Commitment,
    openings: Seq<Opening>,
) -> bool {
    &&& are_singletons(vectors, shares)
    &&& committed(pp.cs, vectors, randomness, comm, openings)
}

/// Commits to the servers' shares.
pub fn cs_commit(rng: &mut ChaCha20Rng, pp: &ProtocolParams, shares_per_server: &[CsPoly]) -> (r: (
    Commitment,
    Vec<Opening>,
))
    requires
        pp.wf(),
        shares_per_server.len() == pp.cs.n_servers,
    ensures
        exists|vectors: Seq<Vec<CsPoly>>, randomness: Seq<Vec<CsPoly>>| #[trigger]
            commits_to(*pp, shares_per_server@, vectors, randomness, r.0, r.1@)
                && is_drawn_randomness(pp.cs, randomness, *old(rng), *final(rng)),
{
    let n: usize = shares_per_server.len();
    let mut vectors: Vec<Vec<CsPoly>> = Vec::with_capacity(n);
    for i in 0..n
        invariant
            n == shares_per_server.len(),
            vectors.len() == i,
            forall|k: int|
                0 <= k < i ==> (#[trigger] vectors[k])@ == seq![shares_per_server[k]],
    {
        let mut v: Vec<CsPoly> = Vec::with_capacity(1);
        v.push(shares_per_server[i]);
        assert(v@ =~= seq![shares_per_server[i as int]]);
        vectors.push(v);
    }
    let r = HidingMerkleCommitment::commit(rng, &pp.cs, &vectors);
    proof {
        let randomness = choose|randomness: Seq<Vec<CsPoly>>| #[trigger]
            committed(pp.cs, vectors@, randomness, r.0, r.1@) && is_drawn_randomness(
                pp.cs,
                randomness,
                *old(rng),
                *rng,
            );
        assert(commits_to(*pp, shares_per_server@, vectors@, randomness, r.0, r.1@));
    }
    r
}

/// What an honest client's key, shares, commitment and envelopes have to do with
/// one another.
pub open spec fn dealt(
    pp: ProtocolParams,
    sid: SessionId,
    client: ClientId,
    servers: Seq<(ServerId, PublicKey)>,
    key: KaheKey,
    comm: Commitment,
    sealed: Seq<(ServerId, Vec<u8>)>,
    coeffs: Seq<Coeffs>,
    shares: Seq<CsPoly>,
    vectors: Seq<Vec<CsPoly>>,
    randomness: Seq<Vec<CsPoly>>,
    openings: Seq<Opening>,
) -> bool {
    &&& shares_key(pp, key, coeffs, shares)
    &&& commits_to(pp, shares, vectors, randomness, comm, openings)
    &&& all_sealed(pp, sid, client, openings, servers, sealed)
}

/// The commitment is to a sharing of `key`, and each server's envelope holds its
/// opening.
pub open spec fn deals(
    pp: ProtocolParams,
    sid: SessionId,
    client: ClientId,
    servers: Seq<(ServerId, PublicKey)>,
    key: KaheKey,
    comm: Commitment,
    sealed: Seq<(ServerId, Vec<u8>)>,
) -> bool {
    exists|
        coeffs: Seq<Coeffs>,
        shares: Seq<CsPoly>,
        vectors: Seq<Vec<CsPoly>>,
        randomness: Seq<Vec<CsPoly>>,
        openings: Seq<Opening>,
    | #[trigger]
        dealt(
            pp,
            sid,
            client,
            servers,
            key,
            comm,
            sealed,
            coeffs,
            shares,
            vectors,
            randomness,
            openings,
        )
}

/// As [`deals`], with everything that is random given by the generator from `g`
/// to `h`: the coefficients of the sharing, then the seeds of the commitment's
/// randomness, then those of the envelopes.
pub open spec fn deals_between(
    pp: ProtocolParams,
    sid: SessionId,
    client: ClientId,
    servers: Seq<(ServerId, PublicKey)>,
    key: KaheKey,
    comm: Commitment,
    sealed: Seq<(ServerId, Vec<u8>)>,
    g: ChaCha20Rng,
    h: ChaCha20Rng,
) -> bool {
    exists|
        coeffs: Seq<Coeffs>,
        shares: Seq<CsPoly>,
        vectors: Seq<Vec<CsPoly>>,
        randomness: Seq<Vec<CsPoly>>,
        openings: Seq<Opening>,
        g1: ChaCha20Rng,
        g2: ChaCha20Rng,
    |
        {
            &&& #[trigger] dealt(
                pp,
                sid,
                client,
                servers,
                key,
                comm,
                sealed,
                coeffs,
                shares,
                vectors,
                randomness,
                openings,
            )
            &&& run(cs_elements(), g, coeffs, g1)
            &&& #[trigger] is_drawn_randomness(pp.cs, randomness, g1, g2)
            &&& all_sealed_between(pp, sid, client, openings, servers, sealed, g2, h)
        }
}

/// A committed opening is within the fresh bounds.
proof fn lemma_fresh(
    pp: ProtocolParams,
    key: KaheKey,
    coeffs: Seq<Coeffs>,
    shares: Seq<CsPoly>,
    vectors: Seq<Vec<CsPoly>>,
    randomness: Seq<Vec<CsPoly>>,
    comm: Commitment,
    openings: Seq<Opening>,
    i: int,
)
    requires
        pp.wf(),
        shares_key(pp, key, coeffs, shares),
        commits_to(pp, shares, vectors, randomness, comm, openings),
        0 <= i < openings.len(),
    ensures
        is_fresh_for(pp, openings[i]),
{
    let o = openings[i];
    let rs = server_rs(randomness, vectors, i);
    assert(is_fresh_opening(pp.cs, labels(pp.cs, all_rs(randomness, vectors)), rs, i, o));
    let arrays = cs_arrays(o.rs@);
    let (kappa, low, high) = (
        o.kappa_cs as int,
        arrays.take(o.kappa_cs as int),
        arrays.skip(o.kappa_cs as int),
    );
    assert(randomness[i].len() == pp.cs.kappa_cs && all_within(
        cs_views(randomness[i]@),
        pp.cs.beta_cs as int,
    ));
    assert(vectors[i]@ == seq![shares[i]]);
    assert forall|j: int| 0 <= j < low.len() implies (#[trigger] low[j]).len() == N && in_range(
        low[j],
        pp.cs.beta_cs as int,
    ) by {
        assert(cs_views(o.rs@)[j] == rs[j]);
        assert(cs_views(o.rs@)[j] == o.rs@[j]@);
        assert(rs[j] == cs_views(randomness[i]@)[j]);
        assert(within(cs_views(randomness[i]@)[j], pp.cs.beta_cs as int));
        lemma_array_fits(o.rs@[j], pp.cs.beta_cs as int);
    }
    assert forall|j: int| 0 <= j < high.len() implies (#[trigger] high[j]).len() == N && in_range(
        high[j],
        CS_MODULUS as int,
    ) by {
        assert(cs_views(o.rs@)[kappa + j] == rs[kappa + j]);
        assert(cs_views(o.rs@)[kappa + j] == o.rs@[kappa + j]@);
        assert(rs[kappa + j] == cs_views(vectors[i]@)[j]);
        let secret = centered_poly(key.0@, KAHE_MODULUS as int);
        assert(cs_views(shares)[i] == share_at(secret, coeffs, i + 1));
        assert forall|k: int| 0 <= k < N implies -CS_MODULUS <= #[trigger] o.rs@[kappa + j]@[k]
            <= CS_MODULUS by {
            assert(o.rs@[kappa + j]@ == share_at(secret, coeffs, i + 1));
            lemma_centered(
                field::eval(crate::sss::sharing_poly(secret, coeffs, k), i + 1),
                CS_MODULUS as int,
            );
        }
        assert(within(o.rs@[kappa + j]@, CS_MODULUS as int));
        lemma_array_fits(o.rs@[kappa + j], CS_MODULUS as int);
    }
    let digits = hvc_arrays(o.data@);
    assert forall|j: int| 0 <= j < digits.len() implies (#[trigger] digits[j]).len() == N
        && in_range(digits[j], ZETA as int) by {
        assert(views(o.data@)[j] == o.data@[j]@);
        assert(within(views(o.data@)[j], ZETA as int));
        assert forall|k: int| 0 <= k < digits[j].len() implies -ZETA <= #[trigger] digits[j][k]
            <= ZETA by {
            assert(o.data@[j]@[k] == o.data@[j].coeffs@[k]);
        }
    }
}

proof fn lemma_array_fits(p: CsPoly, b: int)
    requires
        within(p@, b),
    ensures
        in_range(p.coeffs@, b),
{
    assert forall|k: int| 0 <= k < p.coeffs@.len() implies -b <= #[trigger] p.coeffs@[k] <= b by {
        assert(p@[k] == p.coeffs@[k]);
    }
}

/// The steps that do not depend on the message: share the key, commit, seal.
fn deal(
    rng: &mut ChaCha20Rng,
    pp: &ProtocolParams,
    sid: &SessionId,
    client_id: ClientId,
    servers: &[(ServerId, PublicKey)],
    key: &KaheKey,
) -> (r: (Commitment, Vec<(ServerId, Vec<u8>)>))
    requires
        pp.wf(),
        key_fits(*key),
    ensures
        deals(*pp, *sid, client_id, servers@, *key, r.0, r.1@),
        deals_between(
            *pp,
            *sid,
            client_id,
            servers@,
            *key,
            r.0,
            r.1@,
            *old(rng),
            *final(rng),
        ),
        in_range(r.0.root.coeffs@, HVC_MODULUS as int),
{
    let shares: Vec<CsPoly> = shamir_share(rng, pp, key);
    let ghost g1 = *rng;
    let ghost coeffs = choose|coeffs: Seq<Coeffs>| #[trigger]
        shares_key(*pp, *key, coeffs, shares@) && run(cs_elements(), *old(rng), coeffs, g1);
    assert(shares_key(*pp, *key, coeffs, shares@));
    let (comm, openings): (Commitment, Vec<Opening>) = cs_commit(rng, pp, &shares);
    let ghost g2 = *rng;
    let ghost (vectors, randomness) = choose|
        vectors: Seq<Vec<CsPoly>>,
        randomness: Seq<Vec<CsPoly>>,
    | #[trigger]
        commits_to(*pp, shares@, vectors, randomness, comm, openings@) && is_drawn_randomness(
            pp.cs,
            randomness,
            g1,
            g2,
        );
    proof {
        assert forall|i: int| 0 <= i < openings.len() implies is_fresh_for(
            *pp,
            #[trigger] openings[i],
        ) by {
            lemma_fresh(
                *pp,
                *key,
                coeffs,
                shares@,
                vectors,
                randomness,
                comm,
                openings@,
                i,
            );
        }
        lemma_root_fits(*pp, labels(pp.cs, all_rs(randomness, vectors)), comm.root);
    }
    let sealed: Vec<(ServerId, Vec<u8>)> = seal_openings(
        rng,
        pp,
        sid,
        client_id,
        &openings,
        servers,
    );
    proof {
        assert(dealt(
            *pp,
            *sid,
            client_id,
            servers@,
            *key,
            comm,
            sealed@,
            coeffs,
            shares@,
            vectors,
            randomness,
            openings@,
        ));
        assert(is_drawn_randomness(pp.cs, randomness, g1, g2));
    }
    (comm, sealed)
}

/// A root is a hash value, hence centered.
proof fn lemma_root_fits(pp: ProtocolParams, ls: Seq<Coeffs>, root: HVCPoly)
    requires
        pp.wf(),
        root@ == root_of(pp.cs, ls),
    ensures
        in_range(root.coeffs@, HVC_MODULUS as int),
{
    let h = (pp.cs.depth() - 1) as nat;
    let (l, r) = (node(pp.cs.keys(), ls, h, 0), node(pp.cs.keys(), ls, h, 1));
    assert(root@ == crate::hvc::parent(pp.cs.keys(), l, r));
    assert forall|k: int| 0 <= k < root.coeffs@.len() implies -HVC_MODULUS <= #[trigger] root.coeffs@[k]
        <= HVC_MODULUS by {
        assert(root@[k] == root.coeffs@[k]);
        crate::hvc::lemma_parent_centered(pp.cs.keys(), l, r, k);
    }
}

// ---------------------------------------------------------------
// The direct flow
// ---------------------------------------------------------------

/// A round prepared before the message is known.
pub struct ClientRound {
    client_id: ClientId,
    encrypted_message: ClientBulletinEntry,
    sealed_openings: Vec<(ServerId, Vec<u8>)>,
}

/// What a client sends in one round.
pub struct ClientRoundOutput {
    pub client_id: ClientId,
    pub encrypted_message: ClientBulletinEntry,
    pub sealed_openings: Vec<(ServerId, Vec<u8>)>,
}

/// The all-zero message.
pub open spec fn zeros(pp: ProtocolParams) -> Seq<Coeffs> {
    Seq::new(pp.kahe.mu_kahe as nat, |_i: int| Seq::new(N as nat, |_j: int| 0int))
}

/// `c` is the pad with the message added.
pub open spec fn is_masked(pad: Seq<KahePoly>, m: Seq<KahePoly>, c: Seq<KahePoly>) -> bool {
    &&& c.len() == pad.len()
    &&& all_reduced(c)
    &&& forall|i: int, j: int|
        0 <= i < c.len() && 0 <= j < N ==> #[trigger] c[i]@[j] == truncated(
            pad[i]@[j] + m[i]@[j],
            KAHE_MODULUS as int,
        )
}

impl ClientRound {
    pub closed spec fn id(&self) -> ClientId {
        self.client_id
    }

    /// The encryption of zero.
    pub closed spec fn pad(&self) -> Seq<KahePoly> {
        self.encrypted_message.ctxt@
    }

    pub closed spec fn comm(&self) -> Commitment {
        self.encrypted_message.comm
    }

    pub closed spec fn envelopes(&self) -> Seq<(ServerId, Vec<u8>)> {
        self.sealed_openings@
    }

    /// Prepares a round: encrypts zero, shares the key, commits and seals.
    pub fn new(
        rng: &mut ChaCha20Rng,
        pp: &ProtocolParams,
        sid: &SessionId,
        client_id: ClientId,
        servers: &[(ServerId, PublicKey)],
        key: &KaheKey,
        errors: &[KahePoly],
    ) -> (r: Self)
        requires
            pp.wf(),
            key_fits(*key),
            errors.len() == pp.kahe.mu_kahe,
        ensures
            r.id() == client_id,
            is_encryption(*pp, key.0@, zeros(*pp), errors@, r.pad()),
            deals(*pp, *sid, client_id, servers@, *key, r.comm(), r.envelopes()),
            deals_between(
                *pp,
                *sid,
                client_id,
                servers@,
                *key,
                r.comm(),
                r.envelopes(),
                *old(rng),
                *final(rng),
            ),
            in_range(r.comm().root.coeffs@, HVC_MODULUS as int),
    {
        let zero: Vec<KahePoly> = zero_message(pp);
        proof {
            crate::kahe::lemma_roomy(zero@);
        }
        let ctxt: Vec<KahePoly> = kahe_encrypt(pp, key, &zero, errors);
        proof {
            lemma_zero_views(*pp, zero@);
        }
        let (comm, sealed_openings) = deal(rng, pp, sid, client_id, servers, key);
        ClientRound {
            client_id,
            encrypted_message: ClientBulletinEntry { ctxt, comm },
            sealed_openings,
        }
    }

    /// Adds the message.
    pub fn finalize(self, message: &[KahePoly]) -> (r: ClientRoundOutput)
        requires
            message.len() == self.pad().len(),
            all_reduced(self.pad()),
            all_roomy(message@),
        ensures
            r.client_id == self.id(),
            is_masked(self.pad(), message@, r.encrypted_message.ctxt@),
            r.encrypted_message.comm == self.comm(),
            r.sealed_openings@ == self.envelopes(),
    {
        let pad: Vec<KahePoly> = self.encrypted_message.ctxt;
        let ctxt: Vec<KahePoly> = add_polys(&pad, message);
        ClientRoundOutput {
            client_id: self.client_id,
            encrypted_message: ClientBulletinEntry { ctxt, comm: self.encrypted_message.comm },
            sealed_openings: self.sealed_openings,
        }
    }
}

proof fn lemma_zero_views(pp: ProtocolParams, zero: Seq<KahePoly>)
    requires
        zero.len() == pp.kahe.mu_kahe,
        forall|i: int, k: int| 0 <= i < zero.len() && 0 <= k < N ==> #[trigger] zero[i]@[k] == 0,
    ensures
        crate::kahe::kahe_views(zero) == zeros(pp),
{
    assert forall|i: int| 0 <= i < zero.len() implies #[trigger] crate::kahe::kahe_views(zero)[i]
        == zeros(pp)[i] by {
        assert(zero[i]@ =~= zeros(pp)[i]);
    }
    assert(crate::kahe::kahe_views(zero) =~= zeros(pp));
}

fn add_polys(pad: &[KahePoly], message: &[KahePoly]) -> (r: Vec<KahePoly>)
    requires
        message.len() == pad.len(),
        all_reduced(pad@),
        all_roomy(message@),
    ensures
        is_masked(pad@, message@, r@),
{
    let n: usize = pad.len();
    let mut out: Vec<KahePoly> = Vec::with_capacity(n);
    for i in 0..n
        invariant
            n == pad.len(),
            message.len() == n,
            all_reduced(pad@),
            all_roomy(message@),
            out.len() == i,
            is_masked(pad@.take(i as int), message@, out@),
    {
        let (a, b): (KahePoly, KahePoly) = (pad[i], message[i]);
        proof {
            assert(pad@[i as int].reduced());
            assert(message@[i as int].roomy());
            assert forall|j: int| 0 <= j < N implies i64::MIN <= #[trigger] a.coeffs[j]
                + b.coeffs[j] <= i64::MAX by {
                assert(a@[j] == a.coeffs[j]);
                assert(b@[j] == b.coeffs[j]);
            }
        }
        let c: KahePoly = a + b;
        proof {
            let q = KAHE_MODULUS as int;
            assert forall|j: int| 0 <= j < N implies #[trigger] c@[j] == truncated(
                pad@[i as int]@[j] + message@[i as int]@[j],
                q,
            ) && -(q - 1) <= c@[j] <= q - 1 by {
                assert(a@[j] == a.coeffs[j]);
                assert(b@[j] == b.coeffs[j]);
                assert(c@[j] == c.coeffs[j]);
                crate::negacyclic::lemma_truncated(a@[j] + b@[j], q);
            }
            assert(c.reduced());
            let (low, now) = (pad@.take(i as int), pad@.take(i + 1));
            let before = out@;
            assert forall|k: int, j: int| 0 <= k <= i && 0 <= j < N implies
                #[trigger] before.push(c)[k]@[j] == truncated(now[k]@[j] + message@[k]@[j], q) by {
                if k < i {
                    assert(before[k]@[j] == truncated(low[k]@[j] + message@[k]@[j], q));
                }
            }
            assert(is_masked(now, message@, before.push(c)));
        }
        out.push(c);
    }
    assert(pad@.take(n as int) =~= pad@);
    out
}

/// A whole round.
pub fn run_client_round(
    rng: &mut ChaCha20Rng,
    pp: &ProtocolParams,
    sid: &SessionId,
    client_id: ClientId,
    message: &[KahePoly],
    servers: &[(ServerId, PublicKey)],
    key: &KaheKey,
    errors: &[KahePoly],
) -> (r: ClientRoundOutput)
    requires
        pp.wf(),
        key_fits(*key),
        errors.len() == pp.kahe.mu_kahe,
        message.len() == pp.kahe.mu_kahe,
        all_roomy(message@),
    ensures
        r.client_id == client_id,
        exists|pad: Seq<KahePoly>|
            is_encryption(*pp, key.0@, zeros(*pp), errors@, pad) && #[trigger] is_masked(
                pad,
                message@,
                r.encrypted_message.ctxt@,
            ),
        deals(
            *pp,
            *sid,
            client_id,
            servers@,
            *key,
            r.encrypted_message.comm,
            r.sealed_openings@,
        ),
        deals_between(
            *pp,
            *sid,
            client_id,
            servers@,
            *key,
            r.encrypted_message.comm,
            r.sealed_openings@,
            *old(rng),
            *final(rng),
        ),
        in_range(r.encrypted_message.comm.root.coeffs@, HVC_MODULUS as int),
{
    ClientRound::new(rng, pp, sid, client_id, servers, key, errors).finalize(message)
}

/// Adding the message afterwards encrypts it.
pub proof fn law_late_message(a: Coeffs, sk: Coeffs, m: Coeffs, e: Coeffs, t: int, k: int)
    requires
        0 <= k < N,
    ensures
        cong(
            truncated(
                encrypted_at(a, sk, Seq::new(N as nat, |_j: int| 0int), e, t, k) + m[k],
                KAHE_MODULUS as int,
            ),
            encrypted_at(a, sk, m, e, t, k),
            KAHE_MODULUS as int,
        ),
{
    let q = KAHE_MODULUS as int;
    let (p, s) = (pad_at(a, sk, k), centered(t * e[k], q));
    let zero = Seq::new(N as nat, |_j: int| 0int);
    let c0 = encrypted_at(a, sk, zero, e, t, k);
    crate::negacyclic::lemma_truncated(zero[k] + p, q);
    crate::negacyclic::lemma_truncated(truncated(zero[k] + p, q) + s, q);
    crate::negacyclic::lemma_truncated(c0 + m[k], q);
    crate::negacyclic::lemma_truncated(m[k] + p, q);
    crate::negacyclic::lemma_truncated(truncated(m[k] + p, q) + s, q);
    field::lemma_cong_ops(truncated(zero[k] + p, q), p, s, s, q);
    field::lemma_cong_ops(c0, p + s, m[k], m[k], q);
    field::lemma_cong_ops(truncated(m[k] + p, q), m[k] + p, s, s, q);
}

// ---------------------------------------------------------------
// The sharded flow
// ---------------------------------------------------------------

/// `e` is `c` in the digest ring.
pub open spec fn is_embedding(e: Seq<DgtNTTPoly>, c: Seq<KahePoly>) -> bool {
    &&& e.len() == c.len()
    &&& dgt_wf(e)
    &&& forall|j: int| 0 <= j < e.len() ==> (#[trigger] e[j]).holds(embedding(c[j]@))
}

/// As many lanes as the code has, each one block long.
pub open spec fn lanes_fit(pp: ProtocolParams, lanes: Seq<Share>) -> bool {
    pp.rs matches Some(rs) && lanes.len() == rs.n && forall|j: int|
        0 <= j < lanes.len() ==> (#[trigger] lanes[j]).len() == block_len_of(
            pp.kahe.mu_kahe as int,
            rs.k as int,
        ) && dgt_wf(lanes[j]@)
}

/// `lanes` code `e`, one share per lane.
pub open spec fn are_coded(rs: RsParams, e: Seq<DgtNTTPoly>, lanes: Seq<Share>) -> bool {
    forall|j: int, t: int, i: int|
        0 <= j < lanes.len() && 0 <= t < lanes[j].len() && 0 <= i < N ==> #[trigger] lanes[j][t]@[i]
            == coded_residue(
            e,
            rs.k as int,
            block_len_of(e.len() as int, rs.k as int),
            j,
            t,
            0,
            i,
        )
}

/// `lanes` code the embedding of `c`.
pub open spec fn lanes_of(pp: ProtocolParams, c: Seq<KahePoly>, lanes: Seq<Share>) -> bool {
    &&& lanes_fit(pp, lanes)
    &&& exists|e: Seq<DgtNTTPoly>|
        is_embedding(e, c) && #[trigger] are_coded(pp.rs->0, e, lanes)
}

/// `out` is the positional sum.
pub open spec fn lanes_added(a: Seq<Share>, b: Seq<Share>, out: Seq<Share>) -> bool {
    &&& out.len() == a.len()
    &&& forall|j: int| 0 <= j < out.len() ==> (#[trigger] out[j]).len() == a[j].len()
    &&& forall|j: int, t: int, i: int|
        0 <= j < out.len() && 0 <= t < out[j].len() && 0 <= i < N ==> #[trigger] out[j][t]@[i] == (
        a[j][t]@[i] + b[j][t]@[i]) % (DGT_MODULUS as int)
}

/// Embeds and codes a ciphertext or message.
fn encode_lanes(pp: &ProtocolParams, rs: &RsParams, c: &[KahePoly]) -> (r: Vec<Share>)
    requires
        pp.wf(),
        pp.rs == Some(*rs),
        c.len() == pp.kahe.mu_kahe,
    ensures
        lanes_of(*pp, c@, r@),
{
    let e: Vec<DgtNTTPoly> = embed(c);
    proof {
        assert forall|t: int| 0 <= t < e.len() implies (#[trigger] e@[t]).canonical() by {
            assert(e[t].wf());
        }
    }
    let r: Vec<Share> = Rs::encode(rs, &e);
    proof {
        assert(is_embedding(e@, c@));
        assert forall|j: int, t: int, i: int|
            0 <= j < r@.len() && 0 <= t < r@[j].len() && 0 <= i < N implies #[trigger] r@[j][t]@[i]
            == coded_residue(
            e@,
            rs.k as int,
            block_len_of(e.len() as int, rs.k as int),
            j,
            t,
            0,
            i,
        ) by {
            assert(r[j][t].residue(0, i) == r@[j][t]@[i]);
        }
        assert(are_coded(*rs, e@, r@));
        assert forall|j: int| 0 <= j < r@.len() implies dgt_wf((#[trigger] r@[j])@) by {
            assert forall|t: int| 0 <= t < r@[j].len() implies (#[trigger] r@[j]@[t]).wf() by {
                assert(r[j][t].canonical());
            }
        }
    }
    r
}

/// One lane's sum.
fn add_share(a: &Share, b: &Share) -> (r: Share)
    requires
        a.len() == b.len(),
        dgt_wf(a@),
        dgt_wf(b@),
    ensures
        r.len() == a.len(),
        dgt_wf(r@),
        forall|t: int, i: int|
            0 <= t < r.len() && 0 <= i < N ==> #[trigger] r[t]@[i] == (a[t]@[i] + b[t]@[i]) % (
            DGT_MODULUS as int),
{
    let n: usize = a.len();
    let mut out: Share = Vec::with_capacity(n);
    for t in 0..n
        invariant
            n == a.len(),
            n == b.len(),
            dgt_wf(a@),
            dgt_wf(b@),
            out.len() == t,
            dgt_wf(out@),
            forall|s: int, i: int|
                0 <= s < t && 0 <= i < N ==> #[trigger] out[s]@[i] == (a[s]@[i] + b[s]@[i]) % (
                DGT_MODULUS as int),
    {
        assert(a@[t as int].wf() && b@[t as int].wf());
        out.push(a[t] + b[t]);
    }
    out
}

/// A sharded round prepared before the message is known.
pub struct RsClientRound {
    client_id: ClientId,
    comm: Commitment,
    sealed_openings: Vec<(ServerId, Vec<u8>)>,
    rs_shares: Vec<Share>,
}

/// What a client sends in one sharded round.
pub struct RsClientRoundOutput {
    pub client_id: ClientId,
    pub bulletin: RsClientBulletinEntry,
    pub sealed_openings: Vec<(ServerId, Vec<u8>)>,
    pub rs_shares: Vec<Share>,
    /// Lane `j` receives `rs_shares[j]` and `share_paths[j]`.
    pub share_paths: Vec<SharePath>,
}

/// The post commits to the lanes, and each lane's path opens it.
pub open spec fn lanes_committed(
    scp: ShareCommitmentParams,
    root: Coeffs,
    lanes: Seq<Share>,
    paths: Seq<SharePath>,
) -> bool {
    &&& root == node(scp.keys(), lane_labels(scp, all_views(lanes)), scp.depth(), 0)
    &&& paths.len() == scp.n_lanes
    &&& forall|j: int|
        0 <= j < scp.n_lanes ==> is_path_of(
            scp,
            lane_labels(scp, all_views(lanes)),
            j,
            dgt_views(lanes[j]@),
            #[trigger] paths[j],
        ) && ingests(scp, root, j, dgt_views(lanes[j]@), paths[j])
}

/// The post carries the signer's key and its signature on the post.
pub open spec fn signed_by(
    signer: Seq<u8>,
    sid: SessionId,
    client: ClientId,
    post: RsClientBulletinEntry,
) -> bool {
    &&& post.fits()
    &&& post.pubkey@ == verifying_point(signer)
    &&& post.sig@ == signature_of(
        signer,
        RsClientBulletinEntry::signed(sid, client, post.comm, post.share_root),
    )
    &&& is_signature(
        verifying_point(signer),
        RsClientBulletinEntry::signed(sid, client, post.comm, post.share_root),
        post.sig@,
    )
}

impl RsClientRound {
    pub closed spec fn id(&self) -> ClientId {
        self.client_id
    }

    pub closed spec fn comm(&self) -> Commitment {
        self.comm
    }

    pub closed spec fn envelopes(&self) -> Seq<(ServerId, Vec<u8>)> {
        self.sealed_openings@
    }

    pub closed spec fn lanes(&self) -> Seq<Share> {
        self.rs_shares@
    }

    /// Prepares a round: codes an encryption of zero, shares the key, commits
    /// and seals.
    pub fn new(
        rng: &mut ChaCha20Rng,
        pp: &ProtocolParams,
        sid: &SessionId,
        client_id: ClientId,
        servers: &[(ServerId, PublicKey)],
        key: &KaheKey,
        errors: &[KahePoly],
    ) -> (r: Self)
        requires
            pp.wf(),
            pp.rs is Some,
            key_fits(*key),
            errors.len() == pp.kahe.mu_kahe,
        ensures
            r.id() == client_id,
            lanes_fit(*pp, r.lanes()),
            exists|pad: Seq<KahePoly>|
                is_encryption(*pp, key.0@, zeros(*pp), errors@, pad) && #[trigger] lanes_of(
                    *pp,
                    pad,
                    r.lanes(),
                ),
            deals(*pp, *sid, client_id, servers@, *key, r.comm(), r.envelopes()),
            deals_between(
                *pp,
                *sid,
                client_id,
                servers@,
                *key,
                r.comm(),
                r.envelopes(),
                *old(rng),
                *final(rng),
            ),
            in_range(r.comm().root.coeffs@, HVC_MODULUS as int),
    {
        let zero: Vec<KahePoly> = zero_message(pp);
        proof {
            crate::kahe::lemma_roomy(zero@);
        }
        let ctxt: Vec<KahePoly> = kahe_encrypt(pp, key, &zero, errors);
        proof {
            lemma_zero_views(*pp, zero@);
        }
        let rs_shares: Vec<Share> = match &pp.rs {
            Some(rs) => encode_lanes(pp, rs, &ctxt),
            None => Vec::new(),
        };
        let (comm, sealed_openings) = deal(rng, pp, sid, client_id, servers, key);
        let r = RsClientRound { client_id, comm, sealed_openings, rs_shares };
        assert(lanes_of(*pp, ctxt@, r.lanes()));
        r
    }

    /// Adds the message to every lane, commits to the lanes and signs the post.
    pub fn finalize(
        self,
        pp: &ProtocolParams,
        sid: &SessionId,
        message: &[KahePoly],
        signing_key: &SigningKey,
    ) -> (r: RsClientRoundOutput)
        requires
            pp.wf(),
            pp.is_rs_mode(),
            message.len() == pp.kahe.mu_kahe,
            lanes_fit(*pp, self.lanes()),
            in_range(self.comm().root.coeffs@, HVC_MODULUS as int),
        ensures
            r.client_id == self.id(),
            r.sealed_openings@ == self.envelopes(),
            r.bulletin.comm == self.comm(),
            lanes_fit(*pp, r.rs_shares@),
            exists|mask: Seq<Share>|
                lanes_of(*pp, message@, mask) && #[trigger] lanes_added(
                    self.lanes(),
                    mask,
                    r.rs_shares@,
                ),
            pp.share_comm matches Some(scp) && lanes_committed(
                scp,
                r.bulletin.share_root@,
                r.rs_shares@,
                r.share_paths@,
            ),
            signed_by(signing_key@, *sid, self.id(), r.bulletin),
    {
        let mask: Vec<Share> = match &pp.rs {
            Some(rs) => encode_lanes(pp, rs, message),
            None => Vec::new(),
        };
        let ghost base = self.lanes();
        let n: usize = self.rs_shares.len();
        let mut lanes: Vec<Share> = Vec::with_capacity(n);
        for j in 0..n
            invariant
                n == self.rs_shares.len(),
                base == self.rs_shares@,
                lanes_fit(*pp, base),
                lanes_fit(*pp, mask@),
                lanes.len() == j,
                forall|k: int|
                    0 <= k < j ==> (#[trigger] lanes[k]).len() == base[k].len() && dgt_wf(
                        lanes[k]@,
                    ),
                forall|k: int, t: int, i: int|
                    0 <= k < j && 0 <= t < lanes[k].len() && 0 <= i < N
                        ==> #[trigger] lanes[k][t]@[i] == (base[k][t]@[i] + mask[k][t]@[i]) % (
                    DGT_MODULUS as int),
        {
            assert(base[j as int].len() == mask@[j as int].len());
            assert(dgt_wf(base[j as int]@) && dgt_wf(mask@[j as int]@));
            let lane: Share = add_share(&self.rs_shares[j], &mask[j]);
            lanes.push(lane);
        }
        proof {
            assert(lanes_added(base, mask@, lanes@));
            assert forall|j: int| 0 <= j < lanes@.len() implies (#[trigger] lanes@[j]).len()
                == base[j].len() && dgt_wf(lanes@[j]@) by {
                assert(lanes[j].len() == base[j].len());
            }
            assert(lanes_fit(*pp, lanes@));
        }
        let (share_root, share_paths): (HVCPoly, Vec<SharePath>) = match &pp.share_comm {
            Some(scp) => commit_shares(scp, &lanes),
            None => (HVCPoly::default(), Vec::new()),
        };
        proof {
            assert forall|k: int| 0 <= k < share_root.coeffs@.len() implies -HVC_MODULUS
                <= #[trigger] share_root.coeffs@[k] <= HVC_MODULUS by {
                assert(share_root@[k] == share_root.coeffs@[k]);
            }
        }
        let msg: Vec<u8> = RsClientBulletinEntry::signing_bytes(
            sid,
            self.client_id,
            &self.comm,
            &share_root,
        );
        let sig = signing_key.sign(&msg);
        let bulletin = RsClientBulletinEntry {
            comm: self.comm,
            share_root,
            pubkey: signing_key.verifying_key().to_sec1_bytes(),
            sig,
        };
        RsClientRoundOutput {
            client_id: self.client_id,
            bulletin,
            sealed_openings: self.sealed_openings,
            rs_shares: lanes,
            share_paths,
        }
    }
}

/// A whole sharded round.
pub fn run_client_round_rs(
    rng: &mut ChaCha20Rng,
    pp: &ProtocolParams,
    sid: &SessionId,
    client_id: ClientId,
    message: &[KahePoly],
    servers: &[(ServerId, PublicKey)],
    signing_key: &SigningKey,
    key: &KaheKey,
    errors: &[KahePoly],
) -> (r: RsClientRoundOutput)
    requires
        pp.wf(),
        pp.is_rs_mode(),
        key_fits(*key),
        errors.len() == pp.kahe.mu_kahe,
        message.len() == pp.kahe.mu_kahe,
    ensures
        r.client_id == client_id,
        exists|pad: Seq<KahePoly>, base: Seq<Share>, mask: Seq<Share>|
            is_encryption(*pp, key.0@, zeros(*pp), errors@, pad) && #[trigger] lanes_of(
                *pp,
                pad,
                base,
            ) && lanes_of(*pp, message@, mask) && #[trigger] lanes_added(
                base,
                mask,
                r.rs_shares@,
            ),
        lanes_fit(*pp, r.rs_shares@),
        deals(
            *pp,
            *sid,
            client_id,
            servers@,
            *key,
            r.bulletin.comm,
            r.sealed_openings@,
        ),
        deals_between(
            *pp,
            *sid,
            client_id,
            servers@,
            *key,
            r.bulletin.comm,
            r.sealed_openings@,
            *old(rng),
            *final(rng),
        ),
        pp.share_comm matches Some(scp) && lanes_committed(
            scp,
            r.bulletin.share_root@,
            r.rs_shares@,
            r.share_paths@,
        ),
        signed_by(signing_key@, *sid, client_id, r.bulletin),
{
    RsClientRound::new(rng, pp, sid, client_id, servers, key, errors).finalize(
        pp,
        sid,
        message,
        signing_key,
    )
}

/// What is random in a client's round is drawn: from `g` on, the coefficients of
/// a sharing of the key, the seeds under whose generators the commitment's
/// randomness is drawn, and one seed per server; under the generator of its own
/// seed, each envelope takes its ephemeral key and then its nonce.
pub proof fn law_round_is_drawn(
    pp: ProtocolParams,
    sid: SessionId,
    client: ClientId,
    servers: Seq<(ServerId, PublicKey)>,
    key: KaheKey,
    comm: Commitment,
    sealed: Seq<(ServerId, Vec<u8>)>,
    g: ChaCha20Rng,
    h: ChaCha20Rng,
)
    requires
        deals_between(pp, sid, client, servers, key, comm, sealed, g, h),
    ensures
        exists|
            coeffs: Seq<Coeffs>,
            shares: Seq<CsPoly>,
            vectors: Seq<Vec<CsPoly>>,
            randomness: Seq<Vec<CsPoly>>,
            openings: Seq<Opening>,
            seeds: Seq<[u8; 32]>,
            g1: ChaCha20Rng,
            g2: ChaCha20Rng,
        |
            {
                &&& coeffs.len() == pp.shamir.t - 1
                &&& shares.len() == pp.shamir.n
                &&& #[trigger] is_sharing(
                    cs_views(shares),
                    centered_poly(key.0@, KAHE_MODULUS as int),
                    coeffs,
                )
                &&& run(cs_elements(), g, coeffs, g1)
                &&& #[trigger] committed(pp.cs, vectors, randomness, comm, openings)
                &&& vectors.len() == shares.len()
                &&& forall|i: int|
                    0 <= i < vectors.len() ==> (#[trigger] vectors[i])@ == seq![shares[i]]
                &&& #[trigger] is_drawn_randomness(pp.cs, randomness, g1, g2)
                &&& #[trigger] run(random::seeds(), g2, seeds, h)
                &&& seeds.len() == servers.len()
                &&& forall|i: int|
                    0 <= i < sealed.len() ==> (#[trigger] sealed[i]).0 == servers[i].0 && exists|
                        p: PackedOpening,
                        ephemeral: Seq<u8>,
                        nonce: Seq<u8>,
                        m: (ChaCha20Rng, ChaCha20Rng, ChaCha20Rng),
                    | #[trigger]
                        packs(openings[i], pp.cs.beta_cs, CS_MODULUS as u32, ZETA, p) && starts(
                            seeds[i],
                            m.0,
                        ) && #[trigger] gives_scalar(m.0, ephemeral, m.1) && #[trigger] gives_nonce(
                            m.1,
                            nonce,
                            m.2,
                        ) && sealed[i].1@ == envelope(
                            servers[i].1@,
                            ephemeral,
                            nonce,
                            packed_wire(p),
                            opening_context(sid, client, servers[i].0),
                        )
            },
{
    let (coeffs, shares, vectors, randomness, openings, g1, g2) = choose|
        coeffs: Seq<Coeffs>,
        shares: Seq<CsPoly>,
        vectors: Seq<Vec<CsPoly>>,
        randomness: Seq<Vec<CsPoly>>,
        openings: Seq<Opening>,
        g1: ChaCha20Rng,
        g2: ChaCha20Rng,
    |
        {
            &&& #[trigger] dealt(
                pp,
                sid,
                client,
                servers,
                key,
                comm,
                sealed,
                coeffs,
                shares,
                vectors,
                randomness,
                openings,
            )
            &&& run(cs_elements(), g, coeffs, g1)
            &&& #[trigger] is_drawn_randomness(pp.cs, randomness, g1, g2)
            &&& all_sealed_between(pp, sid, client, openings, servers, sealed, g2, h)
        };
    let seeds = choose|seeds: Seq<[u8; 32]>| #[trigger]
        run(random::seeds(), g2, seeds, h) && seeds.len() == servers.len() && forall|i: int|
            0 <= i < sealed.len() ==> sealed_by_seed(
                pp,
                sid,
                client,
                servers[i].0,
                openings[i],
                servers[i].1@,
                (#[trigger] sealed[i]).1@,
                seeds[i],
            );
    assert forall|i: int| 0 <= i < sealed.len() implies (#[trigger] sealed[i]).0 == servers[i].0
        && exists|
        p: PackedOpening,
        ephemeral: Seq<u8>,
        nonce: Seq<u8>,
        m: (ChaCha20Rng, ChaCha20Rng, ChaCha20Rng),
    | #[trigger]
        packs(openings[i], pp.cs.beta_cs, CS_MODULUS as u32, ZETA, p) && starts(seeds[i], m.0)
            && #[trigger] gives_scalar(m.0, ephemeral, m.1) && #[trigger] gives_nonce(
            m.1,
            nonce,
            m.2,
        ) && sealed[i].1@ == envelope(
            servers[i].1@,
            ephemeral,
            nonce,
            packed_wire(p),
            opening_context(sid, client, servers[i].0),
        ) by {
        let (id, o, to, s) = (servers[i].0, openings[i], servers[i].1@, sealed[i].1@);
        assert(sealed_by_seed(pp, sid, client, id, o, to, s, seeds[i]));
        let (a, c) = choose|a: ChaCha20Rng, c: ChaCha20Rng| #[trigger]
            starts(seeds[i], a) && #[trigger] sealed_under(pp, sid, client, id, o, to, s, a, c);
        let (p, e, n, b) = choose|
            p: PackedOpening,
            e: Seq<u8>,
            n: Seq<u8>,
            b: ChaCha20Rng,
        | #[trigger]
            is_sealed(pp, sid, client, id, o, to, s, p, e, n) && #[trigger] gives_scalar(a, e, b)
                && gives_nonce(b, n, c);
        let m = (a, b, c);
        assert(packs(o, pp.cs.beta_cs, CS_MODULUS as u32, ZETA, p));
        assert(gives_scalar(m.0, e, m.1) && gives_nonce(m.1, n, m.2));
    }
    assert(is_sharing(cs_views(shares), centered_poly(key.0@, KAHE_MODULUS as int), coeffs));
    assert(committed(pp.cs, vectors, randomness, comm, openings));
    assert(is_drawn_randomness(pp.cs, randomness, g1, g2));
    assert(run(random::seeds(), g2, seeds, h));
}

} // verus!
