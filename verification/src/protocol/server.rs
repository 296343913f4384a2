//! Servers and lanes.

use super::roster::{last_at, last_at3, last_of, last_of3, lemma_last_at};
use super::{opening_aad, opening_context, ClientId, NodeId, ServerId, SessionId};
use crate::aggregate::{can_sum, is_opening_sum, openings_agree, same_shape};
use crate::bulletin::{RsNodeBulletinEntry, ServerBulletinEntry};
use crate::cs::{HidingMerkleCommitment, Opening, MAX_OPENING_DIM};
use crate::field::{self, cong, sum};
use crate::hvc::{coefficient, full, hvc_sum, sum_hvc_polys};
use crate::negacyclic::{cong_poly, Coeffs, N};
use crate::pke::{self, opened};
use crate::rings::{views, CsPoly, DgtNTTPoly, HVCPoly, DGT_MODULUS, ZETA};
use crate::rs::{Coded, Rs, Share};
use crate::share_commitment::{
    accepts, can_open, dgt_views, dgt_wf, ingest_share, ingests, is_opening_of, labels_match,
    law_sum_is_accepted, open_share, opening_slot, share_digits, share_slot, share_totals,
    verify_aggregated, walks, ShareCommitmentParams, ShareOpening, ShareOpeningAcc, SharePath,
};
use crate::wire::{
    bad_header, cs_arrays, header_words, hvc_arrays, law_opening_round_trip,
    law_packed_wire_round_trip, packed_wire, packs, payload_len, reads_packed, unpacks,
    within_bounds, OpeningDecodeError, PackedOpening,
};
use vstd::prelude::*;

verus! {

// ---------------------------------------------------------------
// Unsealing
// ---------------------------------------------------------------

/// `p` is what the bytes encode, and its header and length are in order.
pub open spec fn reads_well(plain: Seq<u8>, p: PackedOpening) -> bool {
    &&& plain.len() >= 32
    &&& reads_packed(plain, p)
    &&& !bad_header(p)
    &&& p.bytes.len() >= payload_len(p)
}

/// The bytes encode the opening `o`.
pub open spec fn decodes(plain: Seq<u8>, o: Opening) -> bool {
    exists|p: PackedOpening| #[trigger] reads_well(plain, p) && unpacks(p, o)
}

/// The bytes encode an opening.
pub open spec fn decodable(plain: Seq<u8>) -> bool {
    exists|p: PackedOpening| reads_well(plain, p)
}

proof fn lemma_same_header(plain: Seq<u8>, a: PackedOpening, b: PackedOpening)
    requires
        reads_packed(plain, a),
        reads_packed(plain, b),
    ensures
        bad_header(a) == bad_header(b),
        payload_len(a) == payload_len(b),
        a.bytes.len() == b.bytes.len(),
{
    let (x, y) = (header_words(a), header_words(b));
    assert(x[2] == y[2] && x[3] == y[3] && x[4] == y[4] && x[5] == y[5] && x[6] == y[6] && x[7]
        == y[7]);
    assert(a.bytes@.len() == b.bytes@.len());
}

/// Opens and decodes a sealed opening.
pub fn unseal_opening(
    key: &pke::PrivateKey,
    sid: &SessionId,
    client_id: ClientId,
    server_id: ServerId,
    sealed: &[u8],
) -> (r: Option<Opening>)
    ensures
        ({
            let got = opened(key@, sealed@, opening_context(*sid, client_id, server_id));
            match r {
                Some(o) => (got matches Ok(plain) && decodes(plain, o)) && o.shaped() && o.mu_cs
                    >= 1,
                None => got is Err || !decodable(got->Ok_0),
            }
        }),
{
    let aad: Vec<u8> = opening_aad(sid, client_id, server_id);
    let plain: Vec<u8> = match pke::decrypt(key, sealed, &aad) {
        Err(_) => {
            return None;
        },
        Ok(m) => m,
    };
    let packed: PackedOpening = match PackedOpening::from_bytes(&plain) {
        None => {
            return None;
        },
        Some(p) => p,
    };
    match Opening::from_packed(&packed) {
        Err(e) => {
            proof {
                assert(e == OpeningDecodeError::BadHeader || e == OpeningDecodeError::Truncated);
                assert(bad_header(packed) || packed.bytes.len() < payload_len(packed));
                assert forall|p: PackedOpening| !(#[trigger] reads_well(plain@, p)) by {
                    if reads_well(plain@, p) {
                        lemma_same_header(plain@, p, packed);
                    }
                }
            }
            None
        },
        Ok(o) => {
            assert(reads_well(plain@, packed));
            Some(o)
        },
    }
}

/// Opens and decodes each sealed opening.
pub fn unseal_openings(
    key: &pke::PrivateKey,
    sid: &SessionId,
    server_id: ServerId,
    sealed: &[(ClientId, Vec<u8>)],
) -> (r: Vec<Option<Opening>>)
    ensures
        r.len() == sealed.len(),
        forall|i: int|
            0 <= i < r.len() ==> ({
                let got = opened(
                    key@,
                    sealed[i].1@,
                    opening_context(*sid, sealed[i].0, server_id),
                );
                match #[trigger] r[i] {
                    Some(o) => (got matches Ok(plain) && decodes(plain, o)) && o.shaped()
                        && o.mu_cs >= 1,
                    None => got is Err || !decodable(got->Ok_0),
                }
            }),
{
    let n: usize = sealed.len();
    let mut out: Vec<Option<Opening>> = Vec::with_capacity(n);
    for i in 0..n
        invariant
            n == sealed.len(),
            out.len() == i,
            forall|k: int|
                0 <= k < i ==> ({
                    let got = opened(
                        key@,
                        sealed[k].1@,
                        opening_context(*sid, sealed[k].0, server_id),
                    );
                    match #[trigger] out[k] {
                        Some(o) => (got matches Ok(plain) && decodes(plain, o)) && o.shaped()
                            && o.mu_cs >= 1,
                        None => got is Err || !decodable(got->Ok_0),
                    }
                }),
    {
        let o: Option<Opening> = unseal_opening(key, sid, sealed[i].0, server_id, &sealed[i].1);
        out.push(o);
    }
    out
}

/// Decoding the bytes of a packed opening gives the opening back.
pub proof fn law_opening_bytes_round_trip(
    o: Opening,
    r_bound: u32,
    s_bound: u32,
    tree_bound: u32,
    p: PackedOpening,
    back: Opening,
)
    requires
        o.shaped(),
        0 < o.kappa_cs <= MAX_OPENING_DIM,
        0 < o.mu_cs <= MAX_OPENING_DIM,
        o.stored_path_len <= MAX_OPENING_DIM,
        o.server_index <= u32::MAX,
        o.path_index <= u32::MAX,
        within_bounds(o, r_bound as int, s_bound as int, tree_bound as int),
        packs(o, r_bound, s_bound, tree_bound, p),
        decodes(packed_wire(p), back),
    ensures
        back.server_index == o.server_index,
        back.path_index == o.path_index,
        back.kappa_cs == o.kappa_cs,
        back.mu_cs == o.mu_cs,
        back.stored_path_len == o.stored_path_len,
        cs_arrays(back.rs@) == cs_arrays(o.rs@),
        hvc_arrays(back.data@) == hvc_arrays(o.data@),
{
    let d = choose|d: PackedOpening| #[trigger]
        reads_well(packed_wire(p), d) && unpacks(d, back);
    law_packed_wire_round_trip(p, d);
    let (x, y) = (header_words(d), header_words(p));
    assert(x[0] == y[0] && x[1] == y[1] && x[2] == y[2] && x[3] == y[3] && x[4] == y[4] && x[5]
        == y[5] && x[6] == y[6] && x[7] == y[7]);
    assert(packs(o, r_bound, s_bound, tree_bound, d));
    law_opening_round_trip(o, r_bound, s_bound, tree_bound, d, back);
}

// ---------------------------------------------------------------
// Threshold servers
// ---------------------------------------------------------------

pub struct ServerInbox {
    pub server_id: ServerId,
    pub items: Vec<(ClientId, Opening)>,
}

#[derive(Debug, PartialEq, Eq, Structural, Clone, Copy)]
pub enum ServerRoundError {
    MissingClient(ClientId),
    /// The share and its path do not open the client's signed root.
    BadShare(ClientId),
    /// Every client's share opens but their sum does not: too many clients.
    AggregateOverCapacity,
    /// Openings of different shape or position cannot be summed.
    MalformedOpening,
}

/// The first listed client from `i` without an opening.
pub open spec fn inbox_fault(
    items: Seq<(ClientId, Opening)>,
    canonical: Seq<ClientId>,
    i: int,
) -> Option<ServerRoundError>
    decreases canonical.len() - i,
{
    if i >= canonical.len() {
        None
    } else if last_at(items, canonical[i]) is None {
        Some(ServerRoundError::MissingClient(canonical[i]))
    } else {
        inbox_fault(items, canonical, i + 1)
    }
}

/// The openings of the listed clients.
pub open spec fn chosen_openings<'a>(
    items: Seq<(ClientId, Opening)>,
    canonical: Seq<ClientId>,
) -> Seq<&'a Opening> {
    Seq::new(canonical.len(), |i: int| &items[last_at(items, canonical[i])->0].1)
}

/// The listed clients' openings.
fn collect_openings<'a>(items: &'a Vec<(ClientId, Opening)>, canonical: &[ClientId]) -> (r: Result<
    Vec<&'a Opening>,
    ServerRoundError,
>)
    ensures
        match r {
            Ok(v) => inbox_fault(items@, canonical@, 0) is None && v@ == chosen_openings(
                items@,
                canonical@,
            ),
            Err(e) => inbox_fault(items@, canonical@, 0) == Some(e),
        },
{
    let n: usize = canonical.len();
    let mut out: Vec<&Opening> = Vec::with_capacity(n);
    for i in 0..n
        invariant
            n == canonical.len(),
            out.len() == i,
            forall|k: int|
                0 <= k < i ==> #[trigger] out[k] == chosen_openings(items@, canonical@)[k],
            inbox_fault(items@, canonical@, 0) == inbox_fault(items@, canonical@, i as int),
    {
        match last_of(items, canonical[i]) {
            None => {
                return Err(ServerRoundError::MissingClient(canonical[i]));
            },
            Some(at) => {
                out.push(&items[at].1);
            },
        }
    }
    assert(out@ =~= chosen_openings(items@, canonical@));
    Ok(out)
}

/// Why a server's round fails, if it does.
pub open spec fn round_fault(inbox: ServerInbox, canonical: Seq<ClientId>) -> Option<
    ServerRoundError,
> {
    if inbox_fault(inbox.items@, canonical, 0) is Some {
        inbox_fault(inbox.items@, canonical, 0)
    } else if !openings_agree(chosen_openings(inbox.items@, canonical)) {
        Some(ServerRoundError::MalformedOpening)
    } else {
        None
    }
}

/// Sums the listed clients' openings and posts the sum with its share.
pub fn run_server_round(inbox: &ServerInbox, canonical: &[ClientId]) -> (r: Result<
    ServerBulletinEntry,
    ServerRoundError,
>)
    requires
        forall|i: int|
            0 <= i < inbox.items.len() ==> (#[trigger] inbox.items[i]).1.shaped()
                && inbox.items[i].1.mu_cs >= 1,
    ensures
        match r {
            Ok(post) => {
                &&& round_fault(*inbox, canonical@) is None
                &&& post.server_id == inbox.server_id
                &&& post.clients@ == canonical@
                &&& is_opening_sum(chosen_openings(inbox.items@, canonical@), post.agg_open)
                &&& post.agg_share == post.agg_open.rs[post.agg_open.kappa_cs as int]
            },
            Err(e) => round_fault(*inbox, canonical@) == Some(e),
        },
{
    let refs: Vec<&Opening> = match collect_openings(&inbox.items, canonical) {
        Err(e) => {
            return Err(e);
        },
        Ok(v) => v,
    };
    if !can_sum(&refs) {
        return Err(ServerRoundError::MalformedOpening);
    }
    let agg_open: Opening = HidingMerkleCommitment::sum_openings(&refs);
    proof {
        let at = last_at(inbox.items@, canonical[0]);
        lemma_last_at(inbox.items@, canonical[0]);
        if at is None {
            assert(inbox_fault(inbox.items@, canonical@, 0) is Some);
        }
        assert(inbox.items[at->0].1.shaped());
    }
    let k: usize = agg_open.kappa_cs;
    let agg_share: CsPoly = agg_open.rs[k];
    Ok(
        ServerBulletinEntry {
            server_id: inbox.server_id,
            clients: copy_slice(canonical),
            agg_open,
            agg_share,
        },
    )
}

fn copy_slice(s: &[ClientId]) -> (r: Vec<ClientId>)
    ensures
        r@ == s@,
{
    let n: usize = s.len();
    let mut r: Vec<ClientId> = Vec::with_capacity(n);
    for i in 0..n
        invariant
            n == s.len(),
            r@ == s@.take(i as int),
    {
        r.push(s[i]);
        assert(r@ =~= s@.take(i + 1));
    }
    assert(s@.take(n as int) =~= s@);
    r
}

// ---------------------------------------------------------------
// Lanes
// ---------------------------------------------------------------

pub struct RsNodeInbox {
    pub node_id: NodeId,
    /// As received from each client.
    pub items: Vec<(ClientId, Share, SharePath)>,
}

/// The first listed client from `i` without a share or without a root.
pub open spec fn lane_missing(
    items: Seq<(ClientId, Share, SharePath)>,
    roots: Seq<(ClientId, HVCPoly)>,
    canonical: Seq<ClientId>,
    i: int,
) -> Option<ServerRoundError>
    decreases canonical.len() - i,
{
    if i >= canonical.len() {
        None
    } else if last_at3(items, canonical[i]) is None || last_at(roots, canonical[i]) is None {
        Some(ServerRoundError::MissingClient(canonical[i]))
    } else {
        lane_missing(items, roots, canonical, i + 1)
    }
}

/// What a client sent the lane.
pub open spec fn sent_by(items: Seq<(ClientId, Share, SharePath)>, id: ClientId) -> (
    Share,
    SharePath,
) {
    let item = items[last_at3(items, id)->0];
    (item.1, item.2)
}

/// `item` is what the client sent.
pub open spec fn is_sent(
    item: &(ClientId, Share, SharePath),
    items: Seq<(ClientId, Share, SharePath)>,
    id: ClientId,
) -> bool {
    (item.1, item.2) == sent_by(items, id)
}

/// A client's root.
pub open spec fn root_by(roots: Seq<(ClientId, HVCPoly)>, id: ClientId) -> Coeffs {
    roots[last_at(roots, id)->0].1@
}

/// The first listed client from `i` whose share and path have the wrong shape.
pub open spec fn lane_misfit(
    scp: ShareCommitmentParams,
    lane: int,
    items: Seq<(ClientId, Share, SharePath)>,
    canonical: Seq<ClientId>,
    i: int,
) -> Option<ServerRoundError>
    decreases canonical.len() - i,
{
    if i >= canonical.len() {
        None
    } else {
        let (share, path) = sent_by(items, canonical[i]);
        if !can_open(scp, lane, share.len() as int, path) {
            Some(ServerRoundError::BadShare(canonical[i]))
        } else {
            lane_misfit(scp, lane, items, canonical, i + 1)
        }
    }
}

/// The first listed client from `i` whose share does not open its own root; if
/// there is none, the clients are too many.
pub open spec fn lane_culprit(
    scp: ShareCommitmentParams,
    lane: int,
    items: Seq<(ClientId, Share, SharePath)>,
    roots: Seq<(ClientId, HVCPoly)>,
    canonical: Seq<ClientId>,
    i: int,
) -> ServerRoundError
    decreases canonical.len() - i,
{
    if i >= canonical.len() {
        ServerRoundError::AggregateOverCapacity
    } else {
        let (share, path) = sent_by(items, canonical[i]);
        if !ingests(scp, root_by(roots, canonical[i]), lane, dgt_views(share@), path) {
            ServerRoundError::BadShare(canonical[i])
        } else {
            lane_culprit(scp, lane, items, roots, canonical, i + 1)
        }
    }
}

/// The digits of the listed clients' openings at place `j`.
pub open spec fn lane_digits(
    scp: ShareCommitmentParams,
    items: Seq<(ClientId, Share, SharePath)>,
    canonical: Seq<ClientId>,
    j: int,
) -> Seq<Coeffs> {
    Seq::new(
        canonical.len(),
        |i: int|
            {
                let (share, path) = sent_by(items, canonical[i]);
                (share_digits(scp, dgt_views(share@)) + views(path.nodes@))[j]
            },
    )
}

/// Coefficient `k` of the listed clients' shares at position `pos`.
pub open spec fn lane_column(
    items: Seq<(ClientId, Share, SharePath)>,
    canonical: Seq<ClientId>,
    pos: int,
    k: int,
) -> Seq<int> {
    Seq::new(canonical.len(), |i: int| sent_by(items, canonical[i]).0[pos]@[k])
}

/// The roots of the listed clients.
pub open spec fn lane_roots(roots: Seq<(ClientId, HVCPoly)>, canonical: Seq<ClientId>) -> Seq<
    Coeffs,
> {
    Seq::new(canonical.len(), |i: int| root_by(roots, canonical[i]))
}

/// The sums of the listed clients' shares and openings.
pub open spec fn is_lane_sum(
    scp: ShareCommitmentParams,
    lane: int,
    items: Seq<(ClientId, Share, SharePath)>,
    canonical: Seq<ClientId>,
    share_sum: Seq<DgtNTTPoly>,
    agg: ShareOpening,
) -> bool {
    &&& share_sum.len() == scp.block_len
    &&& dgt_wf(share_sum)
    &&& forall|pos: int, k: int|
        0 <= pos < share_sum.len() && 0 <= k < N ==> #[trigger] share_sum[pos]@[k] == sum(
            lane_column(items, canonical, pos, k),
        ) % (DGT_MODULUS as int)
    &&& agg.lane_index == lane
    &&& agg.path_len == scp.depth()
    &&& agg.data.len() == 30 + 6 * scp.depth()
    &&& forall|j: int|
        0 <= j < agg.data.len() ==> (#[trigger] agg.data[j])@ == hvc_sum(
            lane_digits(scp, items, canonical, j),
        )
}

/// Shares and roots of the listed clients.
fn find_sent<'a>(
    inbox: &'a RsNodeInbox,
    roots: &'a [(ClientId, HVCPoly)],
    canonical: &[ClientId],
) -> (r: Result<(Vec<&'a (ClientId, Share, SharePath)>, Vec<&'a HVCPoly>), ServerRoundError>)
    ensures
        match r {
            Err(e) => lane_missing(inbox.items@, roots@, canonical@, 0) == Some(e),
            Ok(found) => {
                &&& lane_missing(inbox.items@, roots@, canonical@, 0) is None
                &&& found.0.len() == canonical.len()
                &&& found.1.len() == canonical.len()
                &&& forall|k: int|
                    0 <= k < canonical.len() ==> is_sent(
                        #[trigger] found.0[k],
                        inbox.items@,
                        canonical[k],
                    )
                &&& forall|k: int|
                    0 <= k < canonical.len() ==> inbox.items@.contains(*#[trigger] found.0[k])
                &&& forall|k: int|
                    0 <= k < canonical.len() ==> (#[trigger] found.1[k])@ == root_by(
                        roots@,
                        canonical[k],
                    )
            },
        },
{
    let n: usize = canonical.len();
    let mut sent: Vec<&(ClientId, Share, SharePath)> = Vec::with_capacity(n);
    let mut tops: Vec<&HVCPoly> = Vec::with_capacity(n);
    for i in 0..n
        invariant
            n == canonical.len(),
            sent.len() == i,
            tops.len() == i,
            forall|k: int|
                0 <= k < i ==> is_sent(#[trigger] sent[k], inbox.items@, canonical[k]),
            forall|k: int| 0 <= k < i ==> inbox.items@.contains(*#[trigger] sent[k]),
            forall|k: int| 0 <= k < i ==> (#[trigger] tops[k])@ == root_by(roots@, canonical[k]),
            lane_missing(inbox.items@, roots@, canonical@, 0) == lane_missing(
                inbox.items@,
                roots@,
                canonical@,
                i as int,
            ),
    {
        let id: ClientId = canonical[i];
        match last_of3(&inbox.items, id) {
            None => {
                return Err(ServerRoundError::MissingClient(id));
            },
            Some(at) => {
                match last_of(roots, id) {
                    None => {
                        return Err(ServerRoundError::MissingClient(id));
                    },
                    Some(top) => {
                        assert(inbox.items@[at as int] == inbox.items[at as int]);
                        sent.push(&inbox.items[at]);
                        tops.push(&roots[top].1);
                    },
                }
            },
        }
    }
    Ok((sent, tops))
}

/// `os` are the listed clients' openings, and `agg` is their sum.
spec fn opened_by(
    scp: ShareCommitmentParams,
    lane: int,
    items: Seq<(ClientId, Share, SharePath)>,
    canonical: Seq<ClientId>,
    os: Seq<&ShareOpening>,
    agg: ShareOpening,
) -> bool {
    &&& os.len() == canonical.len()
    &&& forall|k: int|
        0 <= k < os.len() ==> is_opening_of(
            scp,
            lane,
            dgt_views(sent_by(items, canonical[k]).0@),
            sent_by(items, canonical[k]).1,
            *#[trigger] os[k],
        ) && os[k].data.len() == 30 + 6 * scp.depth()
    &&& forall|j: int|
        0 <= j < agg.data.len() ==> (#[trigger] agg.data[j])@ == hvc_sum(opening_slot(os, j))
}

/// `agg` is the sum of the listed clients' openings.
spec fn has_openings(
    scp: ShareCommitmentParams,
    lane: int,
    items: Seq<(ClientId, Share, SharePath)>,
    canonical: Seq<ClientId>,
    agg: ShareOpening,
) -> bool {
    exists|os: Seq<&ShareOpening>| opened_by(scp, lane, items, canonical, os, agg)
}

proof fn lemma_missing_kind(
    items: Seq<(ClientId, Share, SharePath)>,
    roots: Seq<(ClientId, HVCPoly)>,
    canonical: Seq<ClientId>,
    i: int,
)
    ensures
        lane_missing(items, roots, canonical, i) matches Some(e) ==> e
            != ServerRoundError::AggregateOverCapacity,
    decreases canonical.len() - i,
{
    if i < canonical.len() {
        lemma_missing_kind(items, roots, canonical, i + 1);
    }
}

proof fn lemma_misfit_kind(
    scp: ShareCommitmentParams,
    lane: int,
    items: Seq<(ClientId, Share, SharePath)>,
    canonical: Seq<ClientId>,
    i: int,
)
    ensures
        lane_misfit(scp, lane, items, canonical, i) matches Some(e) ==> e
            != ServerRoundError::AggregateOverCapacity,
    decreases canonical.len() - i,
{
    if i < canonical.len() {
        lemma_misfit_kind(scp, lane, items, canonical, i + 1);
    }
}

proof fn lemma_all_ingest(
    scp: ShareCommitmentParams,
    lane: int,
    items: Seq<(ClientId, Share, SharePath)>,
    roots: Seq<(ClientId, HVCPoly)>,
    canonical: Seq<ClientId>,
    i: int,
)
    requires
        lane_culprit(scp, lane, items, roots, canonical, i)
            == ServerRoundError::AggregateOverCapacity,
        0 <= i,
    ensures
        forall|k: int|
            i <= k < canonical.len() ==> ingests(
                scp,
                root_by(roots, #[trigger] canonical[k]),
                lane,
                dgt_views(sent_by(items, canonical[k]).0@),
                sent_by(items, canonical[k]).1,
            ),
    decreases canonical.len() - i,
{
    if i < canonical.len() {
        lemma_all_ingest(scp, lane, items, roots, canonical, i + 1);
    }
}

/// Where every client's share opens its own root, the sum is accepted.
proof fn lemma_sum_is_accepted(
    scp: ShareCommitmentParams,
    lane: int,
    items: Seq<(ClientId, Share, SharePath)>,
    roots: Seq<(ClientId, HVCPoly)>,
    canonical: Seq<ClientId>,
    os: Seq<&ShareOpening>,
    share_sum: Seq<DgtNTTPoly>,
    agg: ShareOpening,
)
    requires
        scp.wf(),
        0 < canonical.len() <= scp.rho_max,
        opened_by(scp, lane, items, canonical, os, agg),
        is_lane_sum(scp, lane, items, canonical, share_sum, agg),
        forall|k: int|
            0 <= k < canonical.len() ==> ingests(
                scp,
                root_by(roots, #[trigger] canonical[k]),
                lane,
                dgt_views(sent_by(items, canonical[k]).0@),
                sent_by(items, canonical[k]).1,
            ),
    ensures
        accepts(scp, hvc_sum(lane_roots(roots, canonical)), dgt_views(share_sum), agg),
{
    let tops = lane_roots(roots, canonical);
    let shares = Seq::new(canonical.len(), |k: int| dgt_views(sent_by(items, canonical[k]).0@));
    let m = DGT_MODULUS as int;
    assert forall|k: int| 0 <= k < canonical.len() implies (#[trigger] tops[k]).len() == N by {}
    assert forall|k: int| #![trigger os[k]] 0 <= k < os.len() implies {
        &&& os[k].lane_index == lane
        &&& walks(scp, tops[k], *os[k], ZETA as int)
        &&& shares[k].len() == scp.block_len
        &&& full(shares[k])
        &&& labels_match(scp, shares[k], views(os[k].data@))
    } by {
        let id = canonical[k];
        assert(ingests(
            scp,
            root_by(roots, canonical[k]),
            lane,
            dgt_views(sent_by(items, id).0@),
            sent_by(items, id).1,
        ));
        assert(is_opening_of(
            scp,
            lane,
            dgt_views(sent_by(items, canonical[k]).0@),
            sent_by(items, canonical[k]).1,
            *os[k],
        ));
    }
    let totals = share_totals(shares, scp.block_len as nat);
    let sums = dgt_views(share_sum);
    assert forall|j: int| 0 <= j < scp.block_len implies cong_poly(
        #[trigger] sums[j],
        totals[j],
        m,
    ) by {
        assert forall|i: int| 0 <= i < N implies cong(#[trigger] sums[j][i], totals[j][i], m) by {
            let col = lane_column(items, canonical, j, i);
            assert(coefficient(share_slot(shares, j), i) =~= col);
            assert(share_sum[j]@[i] == sum(col) % m);
            field::lemma_cong_mod(sum(col), m);
        }
    }
    law_sum_is_accepted(scp, os, tops, shares, agg, sums);
}

/// Sums the shares and their openings.
fn sum_lane(
    scp: &ShareCommitmentParams,
    lane: usize,
    canonical: &[ClientId],
    sent: &Vec<&(ClientId, Share, SharePath)>,
    Ghost(items): Ghost<Seq<(ClientId, Share, SharePath)>>,
) -> (r: Result<(Share, ShareOpening), ServerRoundError>)
    requires
        scp.wf(),
        sent.len() == canonical.len(),
        forall|k: int| 0 <= k < sent.len() ==> dgt_wf((#[trigger] sent[k]).1@),
        forall|k: int| 0 <= k < sent.len() ==> is_sent(#[trigger] sent[k], items, canonical[k]),
    ensures
        r matches Err(e) ==> lane_misfit(*scp, lane as int, items, canonical@, 0) == Some(e),
        r matches Ok(sums) ==> lane_misfit(*scp, lane as int, items, canonical@, 0) is None
            && is_lane_sum(*scp, lane as int, items, canonical@, sums.0@, sums.1),
        r matches Ok(sums) ==> has_openings(*scp, lane as int, items, canonical@, sums.1),
{
    let n: usize = canonical.len();
    let mut acc: ShareOpeningAcc = ShareOpeningAcc::zero(scp, lane);
    let mut shares: Vec<&[DgtNTTPoly]> = Vec::with_capacity(n);
    let ghost mut os: Seq<&ShareOpening> = Seq::empty();
    let ghost dl = 30 + 6 * scp.depth();
    for i in 0..n
        invariant
            scp.wf(),
            n == canonical.len(),
            n == sent.len(),
            dl == 30 + 6 * scp.depth(),
            forall|k: int| 0 <= k < sent.len() ==> dgt_wf((#[trigger] sent[k]).1@),
            forall|k: int| 0 <= k < sent.len() ==> is_sent(#[trigger] sent[k], items, canonical[k]),
            acc.takes(lane as int, scp.depth() as int, dl as int),
            acc.holds(os),
            os.len() == i,
            shares.len() == i,
            forall|k: int|
                0 <= k < i ==> is_opening_of(
                    *scp,
                    lane as int,
                    dgt_views(sent[k].1@),
                    sent[k].2,
                    *#[trigger] os[k],
                ),
            forall|k: int| 0 <= k < i ==> (#[trigger] os[k]).data.len() == dl,
            forall|k: int| 0 <= k < i ==> (#[trigger] shares[k])@ == sent[k].1@,
            forall|k: int| 0 <= k < i ==> (#[trigger] sent[k]).1.len() == scp.block_len,
            lane_misfit(*scp, lane as int, items, canonical@, 0) == lane_misfit(
                *scp,
                lane as int,
                items,
                canonical@,
                i as int,
            ),
    {
        let item: &(ClientId, Share, SharePath) = sent[i];
        assert(dgt_wf(sent[i as int].1@));
        let o: ShareOpening = match open_share(scp, lane, &item.1, &item.2) {
            None => {
                return Err(ServerRoundError::BadShare(canonical[i]));
            },
            Some(o) => o,
        };
        proof {
            assert(views(o.data@).len() == o.data.len());
            assert(share_digits(*scp, dgt_views(item.1@)).len() == 30);
        }
        acc.add(&o);
        shares.push(item.1.as_slice());
        proof {
            os = os.push(&o);
        }
    }
    let block_len: usize = scp.block_len;
    let share_sum: Vec<DgtNTTPoly> = if n == 0 {
        zero_share(block_len)
    } else {
        proof {
            assert forall|j: int| 0 <= j < shares.len() implies crate::rs::all_canonical(
                (#[trigger] shares[j])@,
            ) && shares[j]@.len() == block_len by {
                assert(dgt_wf(sent[j].1@));
                assert(sent[j].1.len() == block_len);
            }
            assert(shares[0]@.len() == block_len);
        }
        Rs::sum_shares(&shares)
    };
    let agg: ShareOpening = acc.finish();
    proof {
        assert forall|pos: int, k: int| 0 <= pos < share_sum.len() && 0 <= k < N implies
            #[trigger] share_sum@[pos]@[k] == sum(lane_column(items, canonical@, pos, k)) % (
        DGT_MODULUS as int) by {
            let col = lane_column(items, canonical@, pos, k);
            if n == 0 {
                assert(col =~= Seq::<int>::empty());
                crate::field::lemma_small(0, DGT_MODULUS as int);
            } else {
                let got = Seq::new(shares.len() as nat, |j: int| shares[j]@[pos].residue(0, k));
                assert(got =~= col) by {
                    assert forall|j: int| 0 <= j < n implies got[j] == col[j] by {
                        assert(shares[j]@ == sent[j].1@);
                        assert(is_sent(sent[j], items, canonical[j]));
                    }
                }
                assert(share_sum[pos].residue(0, k) == share_sum[pos]@[k]);
            }
        }
        assert forall|j: int| 0 <= j < agg.data.len() implies (#[trigger] agg.data[j])@ == hvc_sum(
            lane_digits(*scp, items, canonical@, j),
        ) by {
            let want = lane_digits(*scp, items, canonical@, j);
            assert(opening_slot(os, j) =~= want) by {
                assert forall|t: int| 0 <= t < n implies opening_slot(os, j)[t] == want[t] by {
                    let o = *os[t];
                    assert(is_opening_of(
                        *scp,
                        lane as int,
                        dgt_views(sent[t].1@),
                        sent[t].2,
                        *os[t],
                    ));
                    assert(is_sent(sent[t], items, canonical[t]));
                    assert(os[t].data.len() == dl);
                    assert(views(o.data@)[j] == o.data[j]@);
                }
            }
        }
        assert forall|k: int| 0 <= k < os.len() implies is_opening_of(
            *scp,
            lane as int,
            dgt_views(sent_by(items, canonical@[k]).0@),
            sent_by(items, canonical@[k]).1,
            *#[trigger] os[k],
        ) && os[k].data.len() == 30 + 6 * scp.depth() by {
            assert(is_sent(sent[k], items, canonical[k]));
        }
        assert(opened_by(*scp, lane as int, items, canonical@, os, agg));
        assert(is_lane_sum(*scp, lane as int, items, canonical@, share_sum@, agg));
    }
    Ok((share_sum, agg))
}

fn zero_share(n: usize) -> (r: Vec<DgtNTTPoly>)
    ensures
        r.len() == n,
        dgt_wf(r@),
        forall|i: int, k: int| 0 <= i < n && 0 <= k < N ==> #[trigger] r[i]@[k] == 0,
{
    let mut r: Vec<DgtNTTPoly> = Vec::with_capacity(n);
    for i in 0..n
        invariant
            r.len() == i,
            dgt_wf(r@),
            forall|j: int, k: int| 0 <= j < i && 0 <= k < N ==> #[trigger] r[j]@[k] == 0,
    {
        let z: DgtNTTPoly = DgtNTTPoly::default();
        assert forall|k: int| 0 <= k < N implies #[trigger] z@[k] == 0 by {
            assert(z.coeffs[k] == 0);
        }
        r.push(z);
    }
    r
}

/// Names the first client whose share does not open its root.
fn find_culprit(
    scp: &ShareCommitmentParams,
    lane: usize,
    canonical: &[ClientId],
    sent: &Vec<&(ClientId, Share, SharePath)>,
    tops: &Vec<&HVCPoly>,
    Ghost(items): Ghost<Seq<(ClientId, Share, SharePath)>>,
    Ghost(roots): Ghost<Seq<(ClientId, HVCPoly)>>,
) -> (r: ServerRoundError)
    requires
        scp.wf(),
        sent.len() == canonical.len(),
        tops.len() == canonical.len(),
        forall|k: int| 0 <= k < sent.len() ==> dgt_wf((#[trigger] sent[k]).1@),
        forall|k: int| 0 <= k < sent.len() ==> is_sent(#[trigger] sent[k], items, canonical[k]),
        forall|k: int| 0 <= k < tops.len() ==> (#[trigger] tops[k])@ == root_by(roots, canonical[k]),
    ensures
        r == lane_culprit(*scp, lane as int, items, roots, canonical@, 0),
{
    let n: usize = canonical.len();
    for i in 0..n
        invariant
            scp.wf(),
            n == canonical.len(),
            n == sent.len(),
            n == tops.len(),
            forall|k: int| 0 <= k < sent.len() ==> dgt_wf((#[trigger] sent[k]).1@),
            forall|k: int| 0 <= k < sent.len() ==> is_sent(#[trigger] sent[k], items, canonical[k]),
            forall|k: int|
                0 <= k < tops.len() ==> (#[trigger] tops[k])@ == root_by(roots, canonical[k]),
            lane_culprit(*scp, lane as int, items, roots, canonical@, 0) == lane_culprit(
                *scp,
                lane as int,
                items,
                roots,
                canonical@,
                i as int,
            ),
    {
        let item: &(ClientId, Share, SharePath) = sent[i];
        assert(dgt_wf(sent[i as int].1@));
        assert(tops[i as int]@ == root_by(roots, canonical[i as int]));
        match ingest_share(scp, tops[i], lane, &item.1, &item.2) {
            None => {
                return ServerRoundError::BadShare(canonical[i]);
            },
            Some(_) => {},
        }
    }
    ServerRoundError::AggregateOverCapacity
}

/// Why a lane's round fails.
pub open spec fn lane_refuses(
    scp: ShareCommitmentParams,
    inbox: RsNodeInbox,
    canonical: Seq<ClientId>,
    roots: Seq<(ClientId, HVCPoly)>,
    e: ServerRoundError,
) -> bool {
    let lane = inbox.node_id.0 as int;
    let missing = lane_missing(inbox.items@, roots, canonical, 0);
    let misfit = lane_misfit(scp, lane, inbox.items@, canonical, 0);
    if missing is Some {
        missing == Some(e)
    } else if misfit is Some {
        misfit == Some(e)
    } else {
        &&& e == lane_culprit(scp, lane, inbox.items@, roots, canonical, 0)
        &&& exists|share_sum: Seq<DgtNTTPoly>, agg: ShareOpening| #[trigger]
            is_lane_sum(scp, lane, inbox.items@, canonical, share_sum, agg) && !accepts(
                scp,
                hvc_sum(lane_roots(roots, canonical)),
                dgt_views(share_sum),
                agg,
            )
    }
}

/// Sums the listed clients' shares and proves that the sum opens the sum of
/// their roots: by linearity one check of the sum stands for one per client.
/// Only if it fails is each client checked, to name the culprit.
pub fn run_rs_node_round(
    scp: &ShareCommitmentParams,
    inbox: &RsNodeInbox,
    canonical: &[ClientId],
    roots: &[(ClientId, HVCPoly)],
) -> (r: Result<RsNodeBulletinEntry, ServerRoundError>)
    requires
        scp.wf(),
        forall|i: int| 0 <= i < inbox.items.len() ==> dgt_wf((#[trigger] inbox.items[i]).1@),
    ensures
        match r {
            Ok(post) => {
                &&& lane_missing(inbox.items@, roots@, canonical@, 0) is None
                &&& lane_misfit(
                    *scp,
                    inbox.node_id.0 as int,
                    inbox.items@,
                    canonical@,
                    0,
                ) is None
                &&& post.node_id == inbox.node_id
                &&& post.clients@ == canonical@
                &&& is_lane_sum(
                    *scp,
                    inbox.node_id.0 as int,
                    inbox.items@,
                    canonical@,
                    post.share_sum@,
                    post.agg_open,
                )
                &&& accepts(
                    *scp,
                    hvc_sum(lane_roots(roots@, canonical@)),
                    dgt_views(post.share_sum@),
                    post.agg_open,
                )
            },
            Err(e) => lane_refuses(*scp, *inbox, canonical@, roots@, e) && (e
                == ServerRoundError::AggregateOverCapacity ==> canonical.len() == 0
                || canonical.len() > scp.rho_max),
        },
{
    let lane: usize = inbox.node_id.0 as usize;
    proof {
        lemma_missing_kind(inbox.items@, roots@, canonical@, 0);
        lemma_misfit_kind(*scp, lane as int, inbox.items@, canonical@, 0);
    }
    let (sent, tops): (Vec<&(ClientId, Share, SharePath)>, Vec<&HVCPoly>) = match find_sent(
        inbox,
        roots,
        canonical,
    ) {
        Err(e) => {
            return Err(e);
        },
        Ok(found) => found,
    };
    proof {
        assert forall|k: int| 0 <= k < sent.len() implies dgt_wf((#[trigger] sent[k]).1@) by {
            assert(inbox.items@.contains(*sent[k]));
            let at = choose|at: int|
                0 <= at < inbox.items@.len() && inbox.items@[at] == *sent[k];
            assert(dgt_wf(inbox.items[at].1@));
        }
    }
    let (share_sum, agg): (Share, ShareOpening) = match sum_lane(
        scp,
        lane,
        canonical,
        &sent,
        Ghost(inbox.items@),
    ) {
        Err(e) => {
            return Err(e);
        },
        Ok(sums) => sums,
    };
    let summed_root: HVCPoly = sum_hvc_polys(&tops);
    assert(tops@.map(|_i: int, p: &HVCPoly| p@) =~= lane_roots(roots@, canonical@));
    if !verify_aggregated(scp, &summed_root, &share_sum, &agg) {
        let e: ServerRoundError = find_culprit(
            scp,
            lane,
            canonical,
            &sent,
            &tops,
            Ghost(inbox.items@),
            Ghost(roots@),
        );
        proof {
            if e == ServerRoundError::AggregateOverCapacity && 0 < canonical.len()
                && canonical.len() <= scp.rho_max {
                let os = choose|os: Seq<&ShareOpening>| #[trigger]
                    opened_by(*scp, lane as int, inbox.items@, canonical@, os, agg);
                lemma_all_ingest(*scp, lane as int, inbox.items@, roots@, canonical@, 0);
                lemma_sum_is_accepted(
                    *scp,
                    lane as int,
                    inbox.items@,
                    roots@,
                    canonical@,
                    os,
                    share_sum@,
                    agg,
                );
            }
        }
        return Err(e);
    }
    Ok(
        RsNodeBulletinEntry {
            node_id: inbox.node_id,
            clients: copy_slice(canonical),
            share_sum,
            agg_open: agg,
        },
    )
}

// ---------------------------------------------------------------
// What the rounds' answers mean
// ---------------------------------------------------------------

proof fn lemma_inbox(items: Seq<(ClientId, Opening)>, canonical: Seq<ClientId>, from: int)
    requires
        0 <= from <= canonical.len(),
    ensures
        inbox_fault(items, canonical, from) is None <==> forall|i: int|
            from <= i < canonical.len() ==> last_at(items, #[trigger] canonical[i]) is Some,
        inbox_fault(items, canonical, from) matches Some(e) ==> exists|i: int|
            from <= i < canonical.len() && e == ServerRoundError::MissingClient(
                #[trigger] canonical[i],
            ) && last_at(items, canonical[i]) is None,
    decreases canonical.len() - from,
{
    if from < canonical.len() {
        lemma_inbox(items, canonical, from + 1);
        if last_at(items, canonical[from]) is Some {
            assert(forall|i: int|
                from <= i < canonical.len() ==> (#[trigger] canonical[i] == canonical[from]
                    || from + 1 <= i));
        }
    }
}

/// A server's round succeeds exactly if there is a client, every listed client
/// has sent an opening, and the openings that count, each client's last, are all
/// for one position and of one shape. A client named as missing sent none.
pub proof fn law_server_round_succeeds(inbox: ServerInbox, canonical: Seq<ClientId>)
    ensures
        round_fault(inbox, canonical) is None <==> {
            &&& canonical.len() > 0
            &&& forall|i: int|
                0 <= i < canonical.len() ==> last_at(inbox.items@, #[trigger] canonical[i]) is Some
            &&& forall|i: int|
                0 <= i < canonical.len() ==> {
                    let (a, b) = (
                        inbox.items@[last_at(inbox.items@, #[trigger] canonical[i])->0].1,
                        inbox.items@[last_at(inbox.items@, canonical[0])->0].1,
                    );
                    &&& a.server_index == b.server_index
                    &&& a.path_index == b.path_index
                    &&& a.kappa_cs == b.kappa_cs
                    &&& a.mu_cs == b.mu_cs
                    &&& a.stored_path_len == b.stored_path_len
                    &&& a.rs.len() == b.rs.len()
                    &&& a.data.len() == b.data.len()
                }
        },
        round_fault(inbox, canonical) matches Some(ServerRoundError::MissingClient(id))
            ==> canonical.contains(id) && forall|j: int|
            0 <= j < inbox.items.len() ==> (#[trigger] inbox.items@[j]).0 != id,
{
    let items = inbox.items@;
    lemma_inbox(items, canonical, 0);
    let os = chosen_openings(items, canonical);
    if round_fault(inbox, canonical) is None {
        assert forall|i: int| 0 <= i < canonical.len() implies same_shape(
            items[last_at(items, #[trigger] canonical[i])->0].1,
            items[last_at(items, canonical[0])->0].1,
        ) by {
            assert(same_shape(*os[i], *os[0]));
        }
    }
    match inbox_fault(items, canonical, 0) {
        Some(ServerRoundError::MissingClient(id)) => {
            lemma_last_at(items, id);
        },
        _ => {},
    }
}

/// The client that a lane names sent a share that does not open its own root;
/// when the lane names none, every listed client's share does.
pub proof fn law_lane_names_the_culprit(
    scp: ShareCommitmentParams,
    lane: int,
    items: Seq<(ClientId, Share, SharePath)>,
    roots: Seq<(ClientId, HVCPoly)>,
    canonical: Seq<ClientId>,
    from: int,
)
    requires
        0 <= from <= canonical.len(),
    ensures
        match lane_culprit(scp, lane, items, roots, canonical, from) {
            ServerRoundError::BadShare(id) => exists|i: int|
                from <= i < canonical.len() && #[trigger] canonical[i] == id && !ingests(
                    scp,
                    roots[last_at(roots, id)->0].1@,
                    lane,
                    dgt_views(items[last_at3(items, id)->0].1@),
                    items[last_at3(items, id)->0].2,
                ),
            ServerRoundError::AggregateOverCapacity => forall|i: int|
                from <= i < canonical.len() ==> ingests(
                    scp,
                    roots[last_at(roots, #[trigger] canonical[i])->0].1@,
                    lane,
                    dgt_views(items[last_at3(items, canonical[i])->0].1@),
                    items[last_at3(items, canonical[i])->0].2,
                ),
            _ => false,
        },
    decreases canonical.len() - from,
{
    if from < canonical.len() {
        law_lane_names_the_culprit(scp, lane, items, roots, canonical, from + 1);
        assert(forall|i: int|
            from <= i < canonical.len() ==> (#[trigger] canonical[i] == canonical[from] || from + 1
                <= i));
    }
}

/// A lane's sum takes every listed client's share, at every position and in
/// every slot.
pub proof fn law_lane_sums_take_every_share(
    scp: ShareCommitmentParams,
    lane: int,
    items: Seq<(ClientId, Share, SharePath)>,
    canonical: Seq<ClientId>,
    share_sum: Seq<DgtNTTPoly>,
    agg: ShareOpening,
    pos: int,
    k: int,
)
    requires
        is_lane_sum(scp, lane, items, canonical, share_sum, agg),
        0 <= pos < share_sum.len(),
        0 <= k < N,
    ensures
        share_sum.len() == scp.block_len,
        share_sum[pos]@[k] == sum(
            Seq::new(
                canonical.len(),
                |i: int| items[last_at3(items, canonical[i])->0].1[pos]@[k],
            ),
        ) % (DGT_MODULUS as int),
{
    assert(lane_column(items, canonical, pos, k) =~= Seq::new(
        canonical.len(),
        |i: int| items[last_at3(items, canonical[i])->0].1[pos]@[k],
    ));
}

} // verus!
