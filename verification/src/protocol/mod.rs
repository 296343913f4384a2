//! Protocol sessions: identifiers, parameters and sizes.

pub mod acceptance;
pub mod aggregator;
pub mod client;
pub mod dispute;
pub mod honest;
pub mod recipient;
pub mod roster;
pub mod sharded;
pub mod server;
pub mod verify;

use crate::bulletin::ClientBulletinEntry;
use crate::bytes::{le_bytes, push_all, push_le};
use crate::cs::{self, is_leaf_count, lemma_leaf_depth, log2, CsParams, HidingMerkleCommitment};
use crate::kahe::{kahe_values, transforms, Kahe, KaheParams, T_MODULUS_DEFAULT};
use crate::negacyclic::N;
use crate::random::run;
use crate::rings::{KahePoly, CS_MODULUS, KAHE_MODULUS, HVC_MODULUS, RS_MODULUS_1};
use crate::rs::{block_len_of, RsParams};
use crate::share_commitment::{is_drawn_under, masked, setup_fault, ShareCommitmentParams};
use crate::sss::ShamirParams;
use crate::wire::{
    aggregated_server_crypto_len_for, lemma_server_crypto_len, poly_len, server_crypto_len,
};
use rand_chacha::ChaCha20Rng;
use vstd::prelude::*;

verus! {

#[derive(Clone, Copy, Debug, Eq, Hash, PartialEq, Ord, PartialOrd, Structural)]
pub struct ClientId(pub u32);

#[derive(Clone, Copy, Debug, Eq, Hash, PartialEq, Ord, PartialOrd, Structural)]
pub struct ServerId(pub u32);

/// A lane of the erasure code.
#[derive(Clone, Copy, Debug, Eq, Hash, PartialEq, Ord, PartialOrd, Structural)]
pub struct NodeId(pub u32);

/// A client's session identifier for one round.
#[derive(Clone, Copy, Debug, Eq, Hash, PartialEq)]
pub struct SessionId(pub [u8; 32]);

/// Separates sealed openings from other uses of the cipher.
pub open spec fn opening_domain() -> Seq<u8> {
    seq![
        112u8, 97u8, 110u8, 101u8, 116u8, 105u8, 101u8, 114u8, 101u8, 47u8, 111u8, 112u8, 101u8, 110u8, 105u8, 110u8, 103u8, 47u8, 118u8, 49u8,
    ]
}

/// The context of one sealed opening.
pub open spec fn opening_context(sid: SessionId, client: ClientId, server: ServerId) -> Seq<u8> {
    opening_domain() + sid.0@ + le_bytes(client.0 as nat, 4) + le_bytes(server.0 as nat, 4)
}

/// The associated data of one sealed opening.
pub fn opening_aad(sid: &SessionId, client: ClientId, server: ServerId) -> (r: Vec<u8>)
    ensures
        r@ == opening_context(*sid, client, server),
        r.len() == 60,
{
    let domain: [u8; 20] = [112u8, 97, 110, 101, 116, 105, 101, 114, 101, 47, 111, 112, 101, 110, 105, 110, 103, 47, 118, 49];
    let mut aad: Vec<u8> = Vec::with_capacity(60);
    push_all(&mut aad, domain.as_slice());
    assert(aad@ =~= opening_domain());
    push_all(&mut aad, sid.0.as_slice());
    push_le(&mut aad, client.0 as u64, 4);
    push_le(&mut aad, server.0 as u64, 4);
    proof {
        crate::bytes::lemma_le_len(client.0 as nat, 4);
        crate::bytes::lemma_le_len(server.0 as nat, 4);
    }
    aad
}

/// Different sessions, clients or servers have different contexts.
pub proof fn law_contexts_differ(
    s1: SessionId,
    c1: ClientId,
    v1: ServerId,
    s2: SessionId,
    c2: ClientId,
    v2: ServerId,
)
    requires
        opening_context(s1, c1, v1) == opening_context(s2, c2, v2),
    ensures
        s1.0@ == s2.0@,
        c1 == c2,
        v1 == v2,
{
    let (a, b) = (opening_context(s1, c1, v1), opening_context(s2, c2, v2));
    reveal_with_fuel(crate::bytes::byte_span, 5);
    crate::bytes::lemma_le_len(c1.0 as nat, 4);
    crate::bytes::lemma_le_len(c2.0 as nat, 4);
    crate::bytes::lemma_le_len(v1.0 as nat, 4);
    crate::bytes::lemma_le_len(v2.0 as nat, 4);
    assert(a.subrange(20, 52) =~= s1.0@);
    assert(b.subrange(20, 52) =~= s2.0@);
    assert(a.subrange(52, 56) =~= le_bytes(c1.0 as nat, 4));
    assert(b.subrange(52, 56) =~= le_bytes(c2.0 as nat, 4));
    assert(a.subrange(56, 60) =~= le_bytes(v1.0 as nat, 4));
    assert(b.subrange(56, 60) =~= le_bytes(v2.0 as nat, 4));
    crate::bytes::lemma_le_round_trip(c1.0 as nat, 4);
    crate::bytes::lemma_le_round_trip(c2.0 as nat, 4);
    crate::bytes::lemma_le_round_trip(v1.0 as nat, 4);
    crate::bytes::lemma_le_round_trip(v2.0 as nat, 4);
}

/// One committed value per server: its share of the key.
pub const MU_CS: usize = 1;

/// Randomness width of the commitment.
pub const KAPPA_CS: usize = 5;

/// Public parameters of one session.
pub struct ProtocolParams {
    pub kahe: KaheParams,
    pub cs: CsParams,
    pub shamir: ShamirParams,
    pub min_clients: usize,
    /// Present in the sharded ingress mode only.
    pub rs: Option<RsParams>,
    pub share_comm: Option<ShareCommitmentParams>,
}

/// Plaintext elements of one message.
pub fn message_polys(pp: &ProtocolParams) -> (r: usize)
    ensures
        r == pp.kahe.mu_kahe,
{
    pp.kahe.mu_kahe
}

/// The all-zero message.
pub fn zero_message(pp: &ProtocolParams) -> (r: Vec<KahePoly>)
    ensures
        r.len() == pp.kahe.mu_kahe,
        crate::kahe::all_reduced(r@),
        forall|i: int, k: int| 0 <= i < r.len() && 0 <= k < N ==> #[trigger] r[i]@[k] == 0,
{
    let n: usize = message_polys(pp);
    let mut out: Vec<KahePoly> = Vec::with_capacity(n);
    for i in 0..n
        invariant
            out.len() == i,
            crate::kahe::all_reduced(out@),
            forall|j: int, k: int| 0 <= j < i && 0 <= k < N ==> #[trigger] out[j]@[k] == 0,
    {
        let z: KahePoly = KahePoly::default();
        assert forall|k: int| 0 <= k < N implies #[trigger] z@[k] == 0 by {
            assert(z.coeffs[k] == 0);
        }
        out.push(z);
    }
    out
}

/// The default threshold: a majority, and all but two.
pub open spec fn default_threshold(n: int) -> int {
    if n / 2 + 1 >= n - 2 {
        n / 2 + 1
    } else {
        n - 2
    }
}

fn threshold(n_servers: usize) -> (r: usize)
    requires
        n_servers < CS_MODULUS,
    ensures
        r == default_threshold(n_servers as int),
        n_servers >= 1 ==> 1 <= r <= n_servers,
{
    let half: usize = n_servers / 2 + 1;
    if n_servers >= 2 && n_servers - 2 > half {
        n_servers - 2
    } else {
        half
    }
}

impl ProtocolParams {
    pub open spec fn wf(&self) -> bool {
        &&& self.kahe.wf()
        &&& self.cs.wf()
        &&& self.cs.mu_cs == MU_CS
        &&& self.cs.kappa_cs == KAPPA_CS
        &&& self.shamir.wf()
        &&& self.shamir.n == self.cs.n_servers
        &&& self.rs matches Some(rs) ==> rs.wf() && self.kahe.mu_kahe + rs.k <= usize::MAX
        &&& self.share_comm matches Some(scp) ==> scp.wf()
        &&& (self.rs, self.share_comm) matches (Some(rs), Some(scp)) ==> scp.n_lanes == rs.n
            && scp.block_len == block_len_of(self.kahe.mu_kahe as int, rs.k as int)
    }

    /// Both parts of the sharded mode are present.
    pub open spec fn is_rs_mode(&self) -> bool {
        self.rs is Some && self.share_comm is Some
    }

    /// Default threshold, one plaintext element.
    pub fn setup(rng: &mut ChaCha20Rng, n_servers: usize) -> (r: Self)
        requires
            1 <= n_servers < CS_MODULUS,
        ensures
            r.wf(),
            r.cs.n_servers == n_servers,
            r.shamir.t == default_threshold(n_servers as int),
            r.kahe.mu_kahe == 1,
            r.kahe.t_modulus == T_MODULUS_DEFAULT,
            r.min_clients == 1,
            r.rs is None && r.share_comm is None,
            drawn_between(r, *old(rng), *final(rng)),
    {
        let t: usize = threshold(n_servers);
        Self::setup_with_threshold(rng, n_servers, t)
    }

    pub fn setup_with_threshold(rng: &mut ChaCha20Rng, n_servers: usize, t: usize) -> (r: Self)
        requires
            1 <= t <= n_servers < CS_MODULUS,
        ensures
            r.wf(),
            r.cs.n_servers == n_servers,
            r.shamir.t == t,
            r.kahe.mu_kahe == 1,
            r.kahe.t_modulus == T_MODULUS_DEFAULT,
            r.min_clients == 1,
            r.rs is None && r.share_comm is None,
            drawn_between(r, *old(rng), *final(rng)),
    {
        let kahe: KaheParams = Kahe::setup(rng);
        let cs: CsParams = HidingMerkleCommitment::setup_with_dims(rng, n_servers, MU_CS, KAPPA_CS);
        let shamir: ShamirParams = ShamirParams::new(t, n_servers);
        ProtocolParams { kahe, cs, shamir, min_clients: 1, rs: None, share_comm: None }
    }

    pub fn setup_with_kahe_dims(rng: &mut ChaCha20Rng, n_servers: usize, mu_kahe: usize) -> (r:
        Self)
        requires
            1 <= n_servers < CS_MODULUS,
            mu_kahe >= 1,
        ensures
            r.wf(),
            r.cs.n_servers == n_servers,
            r.shamir.t == default_threshold(n_servers as int),
            r.kahe.mu_kahe == mu_kahe,
            r.kahe.t_modulus == T_MODULUS_DEFAULT,
            r.min_clients == 1,
            r.rs is None && r.share_comm is None,
            drawn_between(r, *old(rng), *final(rng)),
    {
        Self::setup_with_kahe_dims_full(rng, n_servers, mu_kahe, T_MODULUS_DEFAULT)
    }

    pub fn setup_with_kahe_dims_full(
        rng: &mut ChaCha20Rng,
        n_servers: usize,
        mu_kahe: usize,
        t_modulus: u64,
    ) -> (r: Self)
        requires
            1 <= n_servers < CS_MODULUS,
            mu_kahe >= 1,
            2 <= t_modulus <= i64::MAX,
        ensures
            r.wf(),
            r.cs.n_servers == n_servers,
            r.shamir.t == default_threshold(n_servers as int),
            r.kahe.mu_kahe == mu_kahe,
            r.kahe.t_modulus == t_modulus,
            r.min_clients == 1,
            r.rs is None && r.share_comm is None,
            drawn_between(r, *old(rng), *final(rng)),
    {
        let t: usize = threshold(n_servers);
        let kahe: KaheParams = Kahe::setup_with_dims(rng, mu_kahe, t_modulus);
        let cs: CsParams = HidingMerkleCommitment::setup_with_dims(rng, n_servers, MU_CS, KAPPA_CS);
        let shamir: ShamirParams = ShamirParams::new(t, n_servers);
        ProtocolParams { kahe, cs, shamir, min_clients: 1, rs: None, share_comm: None }
    }

    /// The sharded ingress mode: ciphertexts are coded over `n_nodes` lanes, any
    /// `k` of which reconstruct.
    pub fn setup_rs_mode(
        rng: &mut ChaCha20Rng,
        n_servers: usize,
        payload_polys: usize,
        k: usize,
        n_nodes: usize,
        t_modulus: u64,
        rho_max: usize,
        crs_seed: [u8; 32],
    ) -> (r: Self)
        requires
            1 <= n_servers < CS_MODULUS,
            payload_polys >= 1,
            payload_polys + k <= usize::MAX,
            n_nodes >= n_servers,
            1 <= k <= n_nodes < RS_MODULUS_1,
            2 <= t_modulus <= i64::MAX,
            setup_fault(
                block_len_of(payload_polys as int, k as int),
                n_nodes as int,
                rho_max as int,
            ) is None,
        ensures
            r.wf(),
            r.is_rs_mode(),
            r.cs.n_servers == n_servers,
            r.shamir.t == default_threshold(n_servers as int),
            r.kahe.mu_kahe == payload_polys,
            r.kahe.t_modulus == t_modulus,
            r.min_clients == 1,
            r.rs matches Some(rs) && rs.k == k && rs.n == n_nodes,
            r.share_comm matches Some(scp) && scp.rho_max == rho_max && is_drawn_under(
                masked(crs_seed@),
                scp,
            ),
            drawn_between(r, *old(rng), *final(rng)),
    {
        let t: usize = threshold(n_servers);
        let kahe: KaheParams = Kahe::setup_with_dims(rng, payload_polys, t_modulus);
        let rs: RsParams = RsParams::new(k, n_nodes);
        let block_len: usize = rs.block_len(payload_polys);
        let cs: CsParams = HidingMerkleCommitment::setup_with_dims(rng, n_servers, MU_CS, KAPPA_CS);
        let shamir: ShamirParams = ShamirParams::new(t, n_servers);
        let scp = ShareCommitmentParams::from_seed(crs_seed, block_len, n_nodes, rho_max);
        ProtocolParams { kahe, cs, shamir, min_clients: 1, rs: Some(rs), share_comm: Some(scp) }
    }
}

/// The generator gives the session's matrices from `g` to `h`: those of the
/// encryption, then those of the commitment.
pub open spec fn drawn_between(pp: ProtocolParams, g: ChaCha20Rng, h: ChaCha20Rng) -> bool {
    exists|m: ChaCha20Rng| #[trigger]
        run(kahe_values(), g, transforms(pp.kahe.a_ntt@), m) && cs::drawn_between(pp.cs, m, h)
}

/// Bytes each role puts on the wire in one round.
pub struct RoundWireSizes {
    /// One client's post: commitment and ciphertext.
    pub client_post: usize,
    /// One server's summed opening and share.
    pub server_entry: usize,
}

/// Sizes from dimensions alone.
pub fn round_wire_sizes(n_servers: usize, ctxt_polys: usize, rho: u32) -> (r: RoundWireSizes)
    requires
        n_servers <= usize::MAX / 2 + 1,
        2 + ctxt_polys * poly_len(KAHE_MODULUS as int) + poly_len(HVC_MODULUS as int) <= usize::MAX,
    ensures
        r.client_post == 2 + ctxt_polys * poly_len(KAHE_MODULUS as int) + poly_len(
            HVC_MODULUS as int,
        ),
        exists|leaves: int| #[trigger]
            is_leaf_count(n_servers as int, leaves) && r.server_entry == server_crypto_len(
                log2(leaves) as int,
                MU_CS as int,
                KAPPA_CS as int,
                rho as int,
            ),
{
    proof {
        assert forall|leaves: int| #[trigger]
            is_leaf_count(n_servers as int, leaves) implies server_crypto_len(
            log2(leaves) as int,
            MU_CS as int,
            KAPPA_CS as int,
            rho as int,
        ) <= usize::MAX by {
            lemma_leaf_depth(n_servers as int, leaves);
            lemma_server_crypto_len(
                log2(leaves) as int,
                MU_CS as int,
                KAPPA_CS as int,
                rho as int,
            );
        }
    }
    RoundWireSizes {
        client_post: ClientBulletinEntry::packed_len(ctxt_polys),
        server_entry: aggregated_server_crypto_len_for(n_servers, MU_CS, KAPPA_CS, rho),
    }
}

/// The default threshold is at least a majority and at least all but two, and
/// one of the two: no larger than both need.
pub proof fn law_threshold_is_a_majority(n: int)
    requires
        n >= 1,
    ensures
        2 * default_threshold(n) > n,
        default_threshold(n) >= n - 2,
        2 * (default_threshold(n) - 1) <= n || default_threshold(n) == n - 2,
        1 <= default_threshold(n) <= n,
{
}

/// Everything public in a session is drawn: from `g` on, the values of each
/// element of the encryption's vector in order, and then the commitment's
/// matrices.
pub proof fn law_session_is_drawn(pp: ProtocolParams, g: ChaCha20Rng, h: ChaCha20Rng)
    requires
        drawn_between(pp, g, h),
    ensures
        exists|gs: Seq<ChaCha20Rng>|
            #![trigger gs.len()]
            gs.len() == pp.kahe.a_ntt.len() + 1 && gs[0] == g && (forall|i: int|
                0 <= i < pp.kahe.a_ntt.len() ==> run(
                    crate::random::uniform_values(KAHE_MODULUS as int),
                    gs[i],
                    (#[trigger] pp.kahe.a_ntt[i]).values(),
                    gs[i + 1],
                )) && cs::drawn_between(pp.cs, gs.last(), h),
{
    let vs = transforms(pp.kahe.a_ntt@);
    let m = choose|m: ChaCha20Rng| #[trigger]
        run(kahe_values(), g, vs, m) && cs::drawn_between(pp.cs, m, h);
    let gs = choose|gs: Seq<ChaCha20Rng>| #[trigger]
        crate::random::linked(kahe_values(), gs, vs) && gs[0] == g && gs[vs.len() as int] == m;
    assert(gs.len() == pp.kahe.a_ntt.len() + 1);
    assert forall|i: int| 0 <= i < pp.kahe.a_ntt.len() implies run(
        crate::random::uniform_values(KAHE_MODULUS as int),
        gs[i],
        (#[trigger] pp.kahe.a_ntt[i]).values(),
        gs[i + 1],
    ) by {
        assert(vs[i] == pp.kahe.a_ntt[i].values());
        assert(kahe_values()(gs[i], vs[i], gs[i + 1]));
    }
}

/// The context of a sealed opening: twenty fixed bytes, the session, the client
/// and the server, the last two in four bytes each, least significant first.
pub proof fn law_context_layout(sid: SessionId, client: ClientId, server: ServerId)
    ensures
        ({
            let c = opening_context(sid, client, server);
            &&& c.len() == 60
            &&& c.subrange(20, 52) == sid.0@
            &&& c[52] + 0x100 * c[53] + 0x1_0000 * c[54] + 0x100_0000 * c[55] == client.0
            &&& c[56] + 0x100 * c[57] + 0x1_0000 * c[58] + 0x100_0000 * c[59] == server.0
        }),
{
    let c = opening_context(sid, client, server);
    let (a, b) = (le_bytes(client.0 as nat, 4), le_bytes(server.0 as nat, 4));
    crate::bytes::lemma_le_len(client.0 as nat, 4);
    crate::bytes::lemma_le_len(server.0 as nat, 4);
    reveal_with_fuel(crate::bytes::byte_span, 5);
    crate::bytes::lemma_le_round_trip(client.0 as nat, 4);
    crate::bytes::lemma_le_round_trip(server.0 as nat, 4);
    assert(opening_domain().len() == 20);
    assert(c.subrange(20, 52) =~= sid.0@);
    assert(c.subrange(52, 56) =~= a && c.subrange(56, 60) =~= b);
    assert(crate::bytes::le_value(a) == a[0] + 0x100 * a[1] + 0x1_0000 * a[2] + 0x100_0000 * a[3]
        && crate::bytes::le_value(b) == b[0] + 0x100 * b[1] + 0x1_0000 * b[2] + 0x100_0000 * b[3])
        by {
        reveal_with_fuel(crate::bytes::le_value, 5);
    }
    assert(c[52] == a[0] && c[53] == a[1] && c[54] == a[2] && c[55] == a[3]);
    assert(c[56] == b[0] && c[57] == b[1] && c[58] == b[2] && c[59] == b[3]);
}

} // verus!
