//! The recipient: settles the client set, then decodes over it.

use super::aggregator::{ctxts_of, lengths_fit, roots_of};
use super::roster::{
    ids_ascend, is_sorted_set, lemma_has_sorted_set, lemma_sorted_set_unique, same_ids,
    sorted_dedup,
};
use super::verify::{
    aggregate_and_decrypt, aggregate_fault, chosen_ctxts, chosen_roots, client_fault,
    decrypt_aggregate, direct_fault, floor_fault, is_plaintext, key_samples, lemma_summed, opening_fault, openings_fault, recovered_key,
    roster_fault, server_repeats, bad_server, servers_cover, summed, VerifyError,
};
use super::{ClientId, ProtocolParams, ServerId};
use crate::bulletin::{same_post, ClientBulletinEntry, ServerBulletinEntry};
use crate::cs::{Commitment, HidingMerkleCommitment};
use crate::hvc::hvc_sum;
use crate::kahe::{kahe_views, Kahe};
use crate::negacyclic::Coeffs;
use crate::rings::KahePoly;
use vstd::prelude::*;

verus! {

/// Decode over exactly the anchor, if its size is within bounds.
pub struct SetPolicy<'a> {
    pub anchor: &'a [ClientId],
    pub max_clients: usize,
    pub min_clients: usize,
}

impl<'a> SetPolicy<'a> {
    pub fn anchored(set: &'a [ClientId], min_clients: usize, max_clients: usize) -> (r: Self)
        ensures
            r.anchor@ == set@,
            r.min_clients == min_clients,
            r.max_clients == max_clients,
    {
        SetPolicy { anchor: set, max_clients, min_clients }
    }
}

pub struct Recovered {
    pub canonical: Vec<ClientId>,
    pub plaintext: Vec<KahePoly>,
    /// Servers left out, in the order of their exclusion.
    pub culprits: Vec<ServerId>,
}

#[derive(Debug, PartialEq, Eq)]
pub enum RecipientError {
    BelowShareThreshold { have: usize, need: usize },
    Rejected(RejectReason),
}

#[derive(Debug, PartialEq, Eq)]
pub enum RejectReason {
    BelowAnonymityFloor { got: usize, min: usize },
    AboveMaxClients { got: usize, max: usize },
    TooFewAgreeingServers { agreeing: usize, need: usize },
    MissingClientPublics { have: usize, need: usize },
    GroupAggregateMissing { group_of: ClientId },
    GroupMembershipMismatch { got: usize, expected: usize },
    ExhaustedShares { remaining: usize, need: usize, excluded: usize },
    Unattributable(VerifyError),
}

// ---------------------------------------------------------------
// The set
// ---------------------------------------------------------------

/// The members of `ids`, ascending, each once.
pub open spec fn roster_of(ids: Seq<ClientId>) -> Seq<ClientId> {
    choose|r: Seq<ClientId>| is_sorted_set(r, ids)
}

proof fn lemma_roster(r: Seq<ClientId>, ids: Seq<ClientId>)
    requires
        is_sorted_set(r, ids),
    ensures
        r == roster_of(ids),
{
    lemma_sorted_set_unique(r, roster_of(ids), ids);
}

/// The servers that shared over exactly `canonical`.
pub open spec fn agreeing(
    servers: Seq<ServerBulletinEntry>,
    canonical: Seq<ClientId>,
) -> Seq<ServerBulletinEntry>
    decreases servers.len(),
{
    if servers.len() == 0 {
        seq![]
    } else {
        let low = agreeing(servers.drop_last(), canonical);
        if roster_of(servers.last().clients@) == canonical {
            low.push(servers.last())
        } else {
            low
        }
    }
}

/// The same posts, one by one.
pub open spec fn same_posts(
    a: Seq<ServerBulletinEntry>,
    b: Seq<ServerBulletinEntry>,
) -> bool {
    &&& a.len() == b.len()
    &&& forall|i: int| 0 <= i < a.len() ==> same_post(#[trigger] a[i], b[i])
}

fn anchored_set(policy: &SetPolicy, server_outputs: &[ServerBulletinEntry]) -> (r: (
    Vec<ClientId>,
    Vec<ServerBulletinEntry>,
))
    ensures
        r.0@ == roster_of(policy.anchor@),
        same_posts(r.1@, agreeing(server_outputs@, r.0@)),
        r.1.len() <= server_outputs.len(),
{
    let canonical: Vec<ClientId> = sorted_dedup(policy.anchor);
    proof {
        lemma_roster(canonical@, policy.anchor@);
    }
    let mut kept: Vec<ServerBulletinEntry> = Vec::new();
    for i in 0..server_outputs.len()
        invariant
            kept.len() <= i,
            same_posts(kept@, agreeing(server_outputs@.take(i as int), canonical@)),
    {
        let theirs: Vec<ClientId> = sorted_dedup(&server_outputs[i].clients);
        proof {
            let now = server_outputs@.take(i + 1);
            assert(now.drop_last() =~= server_outputs@.take(i as int));
            assert(now.last() == server_outputs@[i as int]);
            lemma_roster(theirs@, server_outputs@[i as int].clients@);
        }
        if same_ids(&theirs, &canonical) {
            kept.push(server_outputs[i].clone());
        }
    }
    assert(server_outputs@.take(server_outputs.len() as int) =~= server_outputs@);
    (canonical, kept)
}

/// The greater of the two floors.
pub open spec fn floor_of(pp: ProtocolParams, policy: SetPolicy) -> usize {
    if policy.min_clients >= pp.min_clients {
        policy.min_clients
    } else {
        pp.min_clients
    }
}

/// Why the set is not admitted, if it is not.
pub open spec fn admission_fault(
    pp: ProtocolParams,
    policy: SetPolicy,
    size: int,
    agreeing: int,
) -> Option<RejectReason> {
    if size < floor_of(pp, policy) {
        Some(
            RejectReason::BelowAnonymityFloor { got: size as usize, min: floor_of(pp, policy) },
        )
    } else if size > policy.max_clients {
        Some(RejectReason::AboveMaxClients { got: size as usize, max: policy.max_clients })
    } else if agreeing < pp.shamir.t {
        Some(
            RejectReason::TooFewAgreeingServers {
                agreeing: agreeing as usize,
                need: pp.shamir.t,
            },
        )
    } else {
        None
    }
}

fn check_admission(
    pp: &ProtocolParams,
    policy: &SetPolicy,
    canonical: &[ClientId],
    agreeing: usize,
) -> (r:
    Result<(), RejectReason>)
    ensures
        match r {
            Ok(_) => admission_fault(*pp, *policy, canonical.len() as int, agreeing as int) is None,
            Err(e) => admission_fault(*pp, *policy, canonical.len() as int, agreeing as int)
                == Some(e),
        },
{
    let floor: usize = if policy.min_clients >= pp.min_clients {
        policy.min_clients
    } else {
        pp.min_clients
    };
    let got: usize = canonical.len();
    if got < floor {
        return Err(RejectReason::BelowAnonymityFloor { got, min: floor });
    }
    if got > policy.max_clients {
        return Err(RejectReason::AboveMaxClients { got, max: policy.max_clients });
    }
    if agreeing < pp.shamir.t {
        return Err(RejectReason::TooFewAgreeingServers { agreeing, need: pp.shamir.t });
    }
    Ok(())
}

/// Why the flow stops before it looks at any client, if it does.
pub open spec fn early_fault(
    pp: ProtocolParams,
    policy: SetPolicy,
    servers: Seq<ServerBulletinEntry>,
) -> Option<RecipientError> {
    let canonical = roster_of(policy.anchor@);
    if servers.len() < pp.shamir.t {
        Some(
            RecipientError::BelowShareThreshold {
                have: servers.len() as usize,
                need: pp.shamir.t,
            },
        )
    } else {
        match admission_fault(
            pp,
            policy,
            canonical.len() as int,
            agreeing(servers, canonical).len() as int,
        ) {
            Some(e) => Some(RecipientError::Rejected(e)),
            None => None,
        }
    }
}

// ---------------------------------------------------------------
// Exclusion
// ---------------------------------------------------------------

/// Servers are dropped, one at a time, as long as the fault names one: the
/// servers that remain and those dropped, or why that ended.
pub open spec fn exclusion(
    t: usize,
    servers: Seq<ServerBulletinEntry>,
    dropped: Seq<ServerId>,
    fault: spec_fn(Seq<ServerBulletinEntry>) -> Option<VerifyError>,
) -> Result<(Seq<ServerBulletinEntry>, Seq<ServerId>), RejectReason>
    decreases servers.len(),
{
    if servers.len() < t {
        Err(
            RejectReason::ExhaustedShares {
                remaining: servers.len() as usize,
                need: t,
                excluded: dropped.len() as usize,
            },
        )
    } else {
        match fault(servers) {
            None => Ok((servers, dropped)),
            Some(VerifyError::InvalidServerOpening(i)) => if i < servers.len() {
                exclusion(
                    t,
                    servers.remove(i as int),
                    dropped.push(servers[i as int].server_id),
                    fault,
                )
            } else {
                Err(RejectReason::Unattributable(VerifyError::InvalidServerOpening(i)))
            },
            Some(VerifyError::ShareOpeningMismatch(i)) => if i < servers.len() {
                exclusion(
                    t,
                    servers.remove(i as int),
                    dropped.push(servers[i as int].server_id),
                    fault,
                )
            } else {
                Err(RejectReason::Unattributable(VerifyError::ShareOpeningMismatch(i)))
            },
            Some(e) => Err(RejectReason::Unattributable(e)),
        }
    }
}

/// `fault` and `key` read the posts' values alone.
spec fn reads_values(
    fault: spec_fn(Seq<ServerBulletinEntry>) -> Option<VerifyError>,
    key: spec_fn(Seq<ServerBulletinEntry>) -> Coeffs,
) -> bool {
    forall|a: Seq<ServerBulletinEntry>, b: Seq<ServerBulletinEntry>| #[trigger]
        same_posts(a, b) ==> fault(a) == fault(b) && (fault(a) is None ==> key(a) == key(b))
}

/// Drops servers whose shares fail their opening until the rest decodes.
fn exclude_and_decode<F>(
    t: usize,
    start: Vec<ServerBulletinEntry>,
    decode: F,
    Ghost(posts): Ghost<Seq<ServerBulletinEntry>>,
    Ghost(fault): Ghost<spec_fn(Seq<ServerBulletinEntry>) -> Option<VerifyError>>,
    Ghost(key): Ghost<spec_fn(Seq<ServerBulletinEntry>) -> Coeffs>,
    Ghost(plain): Ghost<spec_fn(Coeffs, Seq<KahePoly>) -> bool>,
) -> (r: Result<(Vec<KahePoly>, Vec<ServerId>), RejectReason>) where
    F: Fn(&[ServerBulletinEntry]) -> Result<Vec<KahePoly>, VerifyError>,

    requires
        same_posts(start@, posts),
        reads_values(fault, key),
        forall|outs: &[ServerBulletinEntry]| #[trigger] call_requires(decode, (outs,)),
        forall|outs: &[ServerBulletinEntry], m: Result<Vec<KahePoly>, VerifyError>|
            #[trigger] call_ensures(decode, (outs,), m) ==> match m {
                Ok(p) => fault(outs@) is None && plain(key(outs@), p@),
                Err(e) => fault(outs@) == Some(e),
            },
    ensures
        match r {
            Ok(v) => exclusion(t, posts, seq![], fault) matches Ok(end) && v.1@ == end.1 && plain(
                key(end.0),
                v.0@,
            ),
            Err(e) => exclusion(t, posts, seq![], fault) == Err::<
                (Seq<ServerBulletinEntry>, Seq<ServerId>),
                RejectReason,
            >(e),
        },
{
    let mut outputs: Vec<ServerBulletinEntry> = start;
    let mut culprits: Vec<ServerId> = Vec::new();
    let ghost mut left: Seq<ServerBulletinEntry> = posts;
    loop
        invariant
            same_posts(outputs@, left),
            reads_values(fault, key),
            forall|outs: &[ServerBulletinEntry]| #[trigger] call_requires(decode, (outs,)),
            forall|outs: &[ServerBulletinEntry], m: Result<Vec<KahePoly>, VerifyError>|
                #[trigger] call_ensures(decode, (outs,), m) ==> match m {
                    Ok(p) => fault(outs@) is None && plain(key(outs@), p@),
                    Err(e) => fault(outs@) == Some(e),
                },
            exclusion(t, posts, seq![], fault) == exclusion(t, left, culprits@, fault),
        decreases outputs.len(),
    {
        if outputs.len() < t {
            return Err(
                RejectReason::ExhaustedShares {
                    remaining: outputs.len(),
                    need: t,
                    excluded: culprits.len(),
                },
            );
        }
        let at: usize = match decode(outputs.as_slice()) {
            Ok(plaintext) => {
                return Ok((plaintext, culprits));
            },
            Err(VerifyError::InvalidServerOpening(i)) => {
                if i >= outputs.len() {
                    return Err(RejectReason::Unattributable(VerifyError::InvalidServerOpening(i)));
                }
                i
            },
            Err(VerifyError::ShareOpeningMismatch(i)) => {
                if i >= outputs.len() {
                    return Err(RejectReason::Unattributable(VerifyError::ShareOpeningMismatch(i)));
                }
                i
            },
            Err(e) => {
                return Err(RejectReason::Unattributable(e));
            },
        };
        let ghost before = outputs@;
        culprits.push(outputs[at].server_id);
        let _dropped: ServerBulletinEntry = outputs.remove(at);
        proof {
            assert(same_post(before[at as int], left[at as int]));
            let next = left.remove(at as int);
            assert forall|i: int| 0 <= i < outputs@.len() implies same_post(
                #[trigger] outputs@[i],
                next[i],
            ) by {
                let j = if i < at { i } else { i + 1 };
                assert(same_post(before[j], left[j]));
            }
            left = next;
        }
    }
}

// ---------------------------------------------------------------
// Values decide
// ---------------------------------------------------------------

proof fn lemma_same_cover(
    pp: ProtocolParams,
    a: Seq<ServerBulletinEntry>,
    b: Seq<ServerBulletinEntry>,
)
    requires
        same_posts(a, b),
        servers_cover(pp, a),
    ensures
        servers_cover(pp, b),
{
    assert forall|i: int| 0 <= i < b.len() implies !#[trigger] bad_server(pp, b, i) by {
        assert(!bad_server(pp, a, i));
        assert(same_post(a[i], b[i]));
        if server_repeats(b, i) {
            let j = choose|j: int| 0 <= j < i && (#[trigger] b[j]).server_id == b[i].server_id;
            assert(same_post(a[j], b[j]));
            assert(a[j].server_id == a[i].server_id);
        }
    }
}

proof fn lemma_same_rosters(
    a: Seq<ServerBulletinEntry>,
    b: Seq<ServerBulletinEntry>,
    canonical: Seq<ClientId>,
    i: int,
)
    requires
        same_posts(a, b),
        0 <= i <= a.len(),
    ensures
        roster_fault(a, canonical, i) == roster_fault(b, canonical, i),
    decreases a.len() - i,
{
    if i < a.len() {
        assert(same_post(a[i], b[i]));
        lemma_same_rosters(a, b, canonical, i + 1);
    }
}

proof fn lemma_same_openings(
    pp: ProtocolParams,
    root: Coeffs,
    a: Seq<ServerBulletinEntry>,
    b: Seq<ServerBulletinEntry>,
    i: int,
)
    requires
        same_posts(a, b),
        0 <= i <= a.len(),
    ensures
        openings_fault(pp, root, a, i) == openings_fault(pp, root, b, i),
    decreases a.len() - i,
{
    if i < a.len() {
        assert(same_post(a[i], b[i]));
        assert(opening_fault(pp, root, a[i], i as usize) == opening_fault(
            pp,
            root,
            b[i],
            i as usize,
        ));
        lemma_same_openings(pp, root, a, b, i + 1);
    }
}

proof fn lemma_same_posts_swap(a: Seq<ServerBulletinEntry>, b: Seq<ServerBulletinEntry>)
    requires
        same_posts(a, b),
    ensures
        same_posts(b, a),
{
    assert forall|i: int| 0 <= i < b.len() implies same_post(#[trigger] b[i], a[i]) by {
        assert(same_post(a[i], b[i]));
    }
}

proof fn lemma_same_key(
    pp: ProtocolParams,
    a: Seq<ServerBulletinEntry>,
    b: Seq<ServerBulletinEntry>,
)
    requires
        same_posts(a, b),
        a.len() >= pp.shamir.t,
    ensures
        recovered_key(pp, a) == recovered_key(pp, b),
{
    let t = pp.shamir.t as int;
    assert forall|i: int| 0 <= i < t implies key_samples(a, t)[i] == key_samples(b, t)[i] by {
        assert(same_post(a[i], b[i]));
    }
    assert(key_samples(a, t) =~= key_samples(b, t));
}

/// The fault of the direct flow, as a function of the servers' posts.
pub open spec fn direct_faults(
    pp: ProtocolParams,
    canonical: Seq<ClientId>,
    entries: Seq<(ClientId, ClientBulletinEntry)>,
) -> spec_fn(Seq<ServerBulletinEntry>) -> Option<VerifyError> {
    |servers: Seq<ServerBulletinEntry>| direct_fault(pp, canonical, entries, servers)
}

/// The fault of the aggregated flow, as a function of the servers' posts.
pub open spec fn aggregate_faults(pp: ProtocolParams, ctxt_len: int, root: Coeffs) -> spec_fn(
    Seq<ServerBulletinEntry>,
) -> Option<VerifyError> {
    |servers: Seq<ServerBulletinEntry>| aggregate_fault(pp, ctxt_len, root, servers)
}

proof fn lemma_direct_reads(
    pp: ProtocolParams,
    canonical: Seq<ClientId>,
    entries: Seq<(ClientId, ClientBulletinEntry)>,
    key: spec_fn(Seq<ServerBulletinEntry>) -> Coeffs,
)
    requires
        key == (|servers: Seq<ServerBulletinEntry>| recovered_key(pp, servers)),
    ensures
        reads_values(direct_faults(pp, canonical, entries), key),
{
    let fault = direct_faults(pp, canonical, entries);
    assert forall|a: Seq<ServerBulletinEntry>, b: Seq<ServerBulletinEntry>| #[trigger]
        same_posts(a, b) implies fault(a) == fault(b) && (fault(a) is None ==> key(a) == key(b)) by {
        lemma_same_posts_swap(a, b);
        if servers_cover(pp, a) {
            lemma_same_cover(pp, a, b);
        }
        if servers_cover(pp, b) {
            lemma_same_cover(pp, b, a);
        }
        lemma_same_rosters(a, b, canonical, 0);
        lemma_same_openings(
            pp,
            hvc_sum(super::verify::chosen_roots(entries, canonical)),
            a,
            b,
            0,
        );
        if a.len() > 0 {
            assert(same_post(a[0], b[0]));
        }
        if a.len() >= pp.shamir.t {
            lemma_same_key(pp, a, b);
        }
    }
}

proof fn lemma_aggregate_reads(
    pp: ProtocolParams,
    ctxt_len: int,
    root: Coeffs,
    key: spec_fn(Seq<ServerBulletinEntry>) -> Coeffs,
)
    requires
        key == (|servers: Seq<ServerBulletinEntry>| recovered_key(pp, servers)),
    ensures
        reads_values(aggregate_faults(pp, ctxt_len, root), key),
{
    let fault = aggregate_faults(pp, ctxt_len, root);
    assert forall|a: Seq<ServerBulletinEntry>, b: Seq<ServerBulletinEntry>| #[trigger]
        same_posts(a, b) implies fault(a) == fault(b) && (fault(a) is None ==> key(a) == key(b)) by {
        lemma_same_posts_swap(a, b);
        if servers_cover(pp, a) {
            lemma_same_cover(pp, a, b);
        }
        if servers_cover(pp, b) {
            lemma_same_cover(pp, b, a);
        }
        if a.len() > 0 {
            assert(same_post(a[0], b[0]));
            lemma_same_rosters(a, b, a[0].clients@, 0);
        }
        lemma_same_openings(pp, root, a, b, 0);
        if a.len() >= pp.shamir.t {
            lemma_same_key(pp, a, b);
        }
    }
}

// ---------------------------------------------------------------
// The flows
// ---------------------------------------------------------------

/// One attempt over a set that the caller names.
pub fn recover_once(
    pp: &ProtocolParams,
    canonical: &[ClientId],
    publics: &[(ClientId, ClientBulletinEntry)],
    server_outputs: &[ServerBulletinEntry],
) -> (r: Result<Vec<KahePoly>, VerifyError>)
    requires
        pp.wf(),
    ensures
        match r {
            Ok(m) => direct_fault(*pp, canonical@, publics@, server_outputs@) is None
                && is_plaintext(
                *pp,
                summed(chosen_ctxts(publics@, canonical@)),
                recovered_key(*pp, server_outputs@),
                m@,
            ),
            Err(e) => direct_fault(*pp, canonical@, publics@, server_outputs@) == Some(e),
        },
{
    aggregate_and_decrypt(pp, canonical, publics, server_outputs)
}

/// The answers that are there, each with the client asked for.
pub open spec fn answered(
    canonical: Seq<ClientId>,
    answers: Seq<Option<ClientBulletinEntry>>,
) -> Seq<(ClientId, ClientBulletinEntry)>
    decreases answers.len(),
{
    if answers.len() == 0 {
        seq![]
    } else {
        let low = answered(canonical, answers.drop_last());
        match answers.last() {
            Some(e) => low.push((canonical[answers.len() - 1], e)),
            None => low,
        }
    }
}

/// What the direct flow makes of the posts.
pub open spec fn direct_outcome(
    pp: ProtocolParams,
    canonical: Seq<ClientId>,
    entries: Seq<(ClientId, ClientBulletinEntry)>,
    servers: Seq<ServerBulletinEntry>,
    r: Result<Recovered, RecipientError>,
) -> bool {
    if entries.len() != canonical.len() {
        r == Err::<Recovered, RecipientError>(
            RecipientError::Rejected(
                RejectReason::MissingClientPublics {
                    have: entries.len() as usize,
                    need: canonical.len() as usize,
                },
            ),
        )
    } else {
        match exclusion(
            pp.shamir.t,
            agreeing(servers, canonical),
            seq![],
            direct_faults(pp, canonical, entries),
        ) {
            Err(e) => r == Err::<Recovered, RecipientError>(RecipientError::Rejected(e)),
            Ok(end) => r matches Ok(v) && {
                &&& v.canonical@ == canonical
                &&& v.culprits@ == end.1
                &&& is_plaintext(
                    pp,
                    summed(chosen_ctxts(entries, canonical)),
                    recovered_key(pp, end.0),
                    v.plaintext@,
                )
            },
        }
    }
}

/// Clients posted their own ciphertext and commitment, which `publics` looks
/// up.
pub fn recover_direct<L>(
    pp: &ProtocolParams,
    policy: &SetPolicy,
    publics: L,
    server_outputs: &[ServerBulletinEntry],
) -> (r: Result<Recovered, RecipientError>) where L: Fn(ClientId) -> Option<ClientBulletinEntry>
    requires
        pp.wf(),
        forall|id: ClientId| #[trigger] call_requires(publics, (id,)),
    ensures
        match early_fault(*pp, *policy, server_outputs@) {
            Some(e) => r == Err::<Recovered, RecipientError>(e),
            None => exists|answers: Seq<Option<ClientBulletinEntry>>|
                {
                    &&& answers.len() == roster_of(policy.anchor@).len()
                    &&& forall|i: int|
                        0 <= i < answers.len() ==> call_ensures(
                            publics,
                            (#[trigger] roster_of(policy.anchor@)[i],),
                            answers[i],
                        )
                    &&& #[trigger] direct_outcome(
                        *pp,
                        roster_of(policy.anchor@),
                        answered(roster_of(policy.anchor@), answers),
                        server_outputs@,
                        r,
                    )
                },
        },
{
    if server_outputs.len() < pp.shamir.t {
        return Err(
            RecipientError::BelowShareThreshold { have: server_outputs.len(), need: pp.shamir.t },
        );
    }
    let (canonical, kept) = anchored_set(policy, server_outputs);
    match check_admission(pp, policy, &canonical, kept.len()) {
        Err(e) => {
            return Err(RecipientError::Rejected(e));
        },
        Ok(_) => {},
    }
    let n: usize = canonical.len();
    let mut entries: Vec<(ClientId, ClientBulletinEntry)> = Vec::with_capacity(n);
    let ghost mut answers: Seq<Option<ClientBulletinEntry>> = seq![];
    for i in 0..n
        invariant
            n == canonical.len(),
            answers.len() == i,
            entries.len() <= i,
            forall|id: ClientId| #[trigger] call_requires(publics, (id,)),
            forall|k: int|
                0 <= k < i ==> call_ensures(publics, (#[trigger] canonical@[k],), answers[k]),
            entries@ == answered(canonical@, answers),
    {
        let id: ClientId = canonical[i];
        let answer: Option<ClientBulletinEntry> = publics(id);
        proof {
            assert(answers.push(answer).drop_last() =~= answers);
            answers = answers.push(answer);
        }
        match answer {
            Some(e) => {
                entries.push((id, e));
            },
            None => {},
        }
    }
    if entries.len() != n {
        let r = Err(
            RecipientError::Rejected(
                RejectReason::MissingClientPublics { have: entries.len(), need: n },
            ),
        );
        assert(direct_outcome(
            *pp,
            canonical@,
            answered(canonical@, answers),
            server_outputs@,
            r,
        ));
        return r;
    }
    let ghost fault = direct_faults(*pp, canonical@, entries@);
    let ghost key = |servers: Seq<ServerBulletinEntry>| recovered_key(*pp, servers);
    let ghost plain = |k: Coeffs, m: Seq<KahePoly>|
        is_plaintext(*pp, summed(chosen_ctxts(entries@, canonical@)), k, m);
    proof {
        lemma_direct_reads(*pp, canonical@, entries@, key);
    }
    let decode = |outs: &[ServerBulletinEntry]| -> (m: Result<Vec<KahePoly>, VerifyError>)
        ensures
            match m {
                Ok(p) => direct_fault(*pp, canonical@, entries@, outs@) is None && is_plaintext(
                    *pp,
                    summed(chosen_ctxts(entries@, canonical@)),
                    recovered_key(*pp, outs@),
                    p@,
                ),
                Err(e) => direct_fault(*pp, canonical@, entries@, outs@) == Some(e),
            },
        { aggregate_and_decrypt(pp, &canonical, &entries, outs) };
    let ghost posts = agreeing(server_outputs@, canonical@);
    let decoded = exclude_and_decode(
        pp.shamir.t,
        kept,
        decode,
        Ghost(posts),
        Ghost(fault),
        Ghost(key),
        Ghost(plain),
    );
    let ghost found = (canonical@, entries@);
    let r = match decoded {
        Err(e) => Err(RecipientError::Rejected(e)),
        Ok((plaintext, culprits)) => Ok(Recovered { canonical, plaintext, culprits }),
    };
    assert(direct_outcome(*pp, found.0, answered(found.0, answers), server_outputs@, r));
    r
}

/// The posts of the groups.
pub open spec fn group_posts(groups: Seq<(Vec<ClientId>, ClientBulletinEntry)>) -> Seq<
    ClientBulletinEntry,
> {
    groups.map_values(|g: (Vec<ClientId>, ClientBulletinEntry)| g.1)
}

/// The members of the groups, one group after the other.
pub open spec fn group_members(groups: Seq<(Vec<ClientId>, ClientBulletinEntry)>) -> Seq<ClientId>
    decreases groups.len(),
{
    if groups.len() == 0 {
        seq![]
    } else {
        group_members(groups.drop_last()) + groups.last().0@
    }
}

/// The first client from `i` that `covered` leaves out.
pub open spec fn uncovered(
    canonical: Seq<ClientId>,
    covered: Seq<ClientId>,
    i: int,
) -> Option<ClientId>
    decreases canonical.len() - i,
{
    if i >= canonical.len() {
        None
    } else if !covered.contains(canonical[i]) {
        Some(canonical[i])
    } else {
        uncovered(canonical, covered, i + 1)
    }
}

/// Why the groups with these members do not make up the set, if they do not:
/// every client of the set must be in exactly one group, and nobody else in any.
pub open spec fn coverage_fault(canonical: Seq<ClientId>, members: Seq<ClientId>) -> Option<
    RejectReason,
> {
    let covered = roster_of(members);
    if covered == canonical {
        if members.no_duplicates() {
            None
        } else {
            Some(
                RejectReason::GroupMembershipMismatch {
                    got: members.len() as usize,
                    expected: canonical.len() as usize,
                },
            )
        }
    } else {
        match uncovered(canonical, covered, 0) {
            Some(c) => Some(RejectReason::GroupAggregateMissing { group_of: c }),
            None => Some(
                RejectReason::GroupMembershipMismatch {
                    got: covered.len() as usize,
                    expected: canonical.len() as usize,
                },
            ),
        }
    }
}

proof fn lemma_once_each(covered: Seq<ClientId>, members: Seq<ClientId>)
    requires
        is_sorted_set(covered, members),
    ensures
        members.no_duplicates() <==> members.len() == covered.len(),
{
    assert(covered.no_duplicates());
    assert(covered.to_set() =~= members.to_set());
    covered.unique_seq_to_set();
    if members.no_duplicates() {
        members.unique_seq_to_set();
    }
    if members.len() == covered.len() {
        members.lemma_no_dup_set_cardinality();
    }
}

/// What the aggregated flow makes of the groups.
pub open spec fn aggregated_outcome(
    pp: ProtocolParams,
    canonical: Seq<ClientId>,
    groups: Seq<(Vec<ClientId>, ClientBulletinEntry)>,
    servers: Seq<ServerBulletinEntry>,
    r: Result<Recovered, RecipientError>,
) -> bool {
    let total = summed(ctxts_of(group_posts(groups)));
    match coverage_fault(canonical, group_members(groups)) {
        Some(e) => r == Err::<Recovered, RecipientError>(RecipientError::Rejected(e)),
        None => match exclusion(
            pp.shamir.t,
            agreeing(servers, canonical),
            seq![],
            aggregate_faults(
                pp,
                total.len() as int,
                hvc_sum(roots_of(group_posts(groups))),
            ),
        ) {
            Err(e) => r == Err::<Recovered, RecipientError>(RecipientError::Rejected(e)),
            Ok(end) => r matches Ok(v) && {
                &&& v.canonical@ == canonical
                &&& v.culprits@ == end.1
                &&& is_plaintext(pp, total, recovered_key(pp, end.0), v.plaintext@)
            },
        },
    }
}

fn check_groups(canonical: &[ClientId], groups: &[(Vec<ClientId>, ClientBulletinEntry)]) -> (r:
    Result<(), RejectReason>)
    ensures
        match r {
            Ok(_) => coverage_fault(canonical@, group_members(groups@)) is None,
            Err(e) => coverage_fault(canonical@, group_members(groups@)) == Some(e),
        },
{
    let mut members: Vec<ClientId> = Vec::new();
    for i in 0..groups.len()
        invariant
            members@ == group_members(groups@.take(i as int)),
    {
        let ghost before = members@;
        let g: &Vec<ClientId> = &groups[i].0;
        for j in 0..g.len()
            invariant
                members@ == before + g@.take(j as int),
        {
            members.push(g[j]);
            assert(members@ =~= before + g@.take(j + 1));
        }
        proof {
            assert(g@.take(g.len() as int) =~= g@);
            assert(groups@.take(i + 1).drop_last() =~= groups@.take(i as int));
            assert(groups@.take(i + 1).last() == groups@[i as int]);
        }
    }
    assert(groups@.take(groups.len() as int) =~= groups@);
    let covered: Vec<ClientId> = sorted_dedup(&members);
    proof {
        lemma_roster(covered@, group_members(groups@));
    }
    if same_ids(&covered, canonical) {
        proof {
            lemma_once_each(covered@, members@);
        }
        if members.len() != covered.len() {
            return Err(
                RejectReason::GroupMembershipMismatch {
                    got: members.len(),
                    expected: canonical.len(),
                },
            );
        }
        return Ok(());
    }
    for i in 0..canonical.len()
        invariant
            covered@ != canonical@,
            covered@ == roster_of(group_members(groups@)),
            uncovered(canonical@, covered@, 0) == uncovered(canonical@, covered@, i as int),
    {
        let mut found: bool = false;
        for j in 0..covered.len()
            invariant
                i < canonical.len(),
                found <==> covered@.take(j as int).contains(canonical@[i as int]),
        {
            proof {
                super::roster::lemma_push_contains(covered@.take(j as int), covered@[j as int]);
                assert(covered@.take(j + 1) =~= covered@.take(j as int).push(covered@[j as int]));
            }
            if covered[j] == canonical[i] {
                found = true;
            }
        }
        assert(covered@.take(covered.len() as int) =~= covered@);
        if !found {
            return Err(RejectReason::GroupAggregateMissing { group_of: canonical[i] });
        }
    }
    Err(
        RejectReason::GroupMembershipMismatch { got: covered.len(), expected: canonical.len() },
    )
}

/// Aggregators summed each group's public part already.
pub fn recover_aggregated(
    pp: &ProtocolParams,
    policy: &SetPolicy,
    groups: &[(Vec<ClientId>, ClientBulletinEntry)],
    server_outputs: &[ServerBulletinEntry],
) -> (r: Result<Recovered, RecipientError>)
    requires
        pp.wf(),
        lengths_fit(ctxts_of(group_posts(groups@))),
    ensures
        match early_fault(*pp, *policy, server_outputs@) {
            Some(e) => r == Err::<Recovered, RecipientError>(e),
            None => aggregated_outcome(
                *pp,
                roster_of(policy.anchor@),
                groups@,
                server_outputs@,
                r,
            ),
        },
{
    if server_outputs.len() < pp.shamir.t {
        return Err(
            RecipientError::BelowShareThreshold { have: server_outputs.len(), need: pp.shamir.t },
        );
    }
    let (canonical, kept) = anchored_set(policy, server_outputs);
    match check_admission(pp, policy, &canonical, kept.len()) {
        Err(e) => {
            return Err(RecipientError::Rejected(e));
        },
        Ok(_) => {},
    }
    match check_groups(&canonical, groups) {
        Err(e) => {
            return Err(RecipientError::Rejected(e));
        },
        Ok(_) => {},
    }
    let ghost all = ctxts_of(group_posts(groups@));
    let n: usize = groups.len();
    let mut ctxts: Vec<&[KahePoly]> = Vec::with_capacity(n);
    let mut comms: Vec<&Commitment> = Vec::with_capacity(n);
    for i in 0..n
        invariant
            n == groups.len(),
            all == ctxts_of(group_posts(groups@)),
            ctxts.len() == i,
            comms.len() == i,
            forall|k: int| 0 <= k < i ==> (#[trigger] ctxts[k])@ == all[k],
            forall|k: int|
                0 <= k < i ==> (#[trigger] comms[k]).root@ == roots_of(group_posts(groups@))[k],
    {
        ctxts.push(groups[i].1.ctxt.as_slice());
        comms.push(&groups[i].1.comm);
    }
    proof {
        assert forall|k: int| 0 <= k < ctxts.len() implies (#[trigger] ctxts[k])@.len()
            >= ctxts[0]@.len() by {
            assert(ctxts[0]@ == all[0]);
            assert(all[k].len() >= all[0].len());
        }
    }
    let total_ctxt: Vec<KahePoly> = Kahe::agg_ctxt_refs(&ctxts);
    let total_comm: Commitment = HidingMerkleCommitment::sum_commitment_refs(&comms);
    let ghost total = summed(all);
    let ghost root = hvc_sum(roots_of(group_posts(groups@)));
    proof {
        assert(ctxts@.map(|_i: int, s: &[KahePoly]| s@) =~= all);
        assert(comms@.map(|_i: int, c: &Commitment| c.root@) =~= roots_of(group_posts(groups@)));
        if all.len() > 0 {
            assert(ctxts[0]@ == all[0]);
        }
        lemma_summed(all, total_ctxt@);
        assert(kahe_views(total_ctxt@) =~= total);
        crate::kahe::lemma_roomy(total_ctxt@);
    }
    let ghost fault = aggregate_faults(*pp, total.len() as int, root);
    let ghost key = |servers: Seq<ServerBulletinEntry>| recovered_key(*pp, servers);
    let ghost plain = |k: Coeffs, m: Seq<KahePoly>| is_plaintext(*pp, total, k, m);
    proof {
        lemma_aggregate_reads(*pp, total.len() as int, root, key);
    }
    let decode = |outs: &[ServerBulletinEntry]| -> (m: Result<Vec<KahePoly>, VerifyError>)
        ensures
            match m {
                Ok(p) => aggregate_fault(*pp, total_ctxt.len() as int, total_comm.root@, outs@)
                    is None && is_plaintext(
                    *pp,
                    kahe_views(total_ctxt@),
                    recovered_key(*pp, outs@),
                    p@,
                ),
                Err(e) => aggregate_fault(*pp, total_ctxt.len() as int, total_comm.root@, outs@)
                    == Some(e),
            },
        { decrypt_aggregate(pp, &total_ctxt, &total_comm, outs) };
    let ghost posts = agreeing(server_outputs@, canonical@);
    let decoded = exclude_and_decode(
        pp.shamir.t,
        kept,
        decode,
        Ghost(posts),
        Ghost(fault),
        Ghost(key),
        Ghost(plain),
    );
    match decoded {
        Err(e) => Err(RecipientError::Rejected(e)),
        Ok((plaintext, culprits)) => Ok(Recovered { canonical, plaintext, culprits }),
    }
}

// ---------------------------------------------------------------
// What exclusion keeps
// ---------------------------------------------------------------

/// The server's opening stands against the summed commitment.
pub open spec fn stands(pp: ProtocolParams, root: Coeffs, sp: ServerBulletinEntry) -> bool {
    opening_fault(pp, root, sp, 0) is None
}

/// The servers whose openings stand, in order.
pub open spec fn standing(
    pp: ProtocolParams,
    root: Coeffs,
    servers: Seq<ServerBulletinEntry>,
) -> Seq<ServerBulletinEntry>
    decreases servers.len(),
{
    if servers.len() == 0 {
        seq![]
    } else if stands(pp, root, servers[0]) {
        seq![servers[0]] + standing(pp, root, servers.drop_first())
    } else {
        standing(pp, root, servers.drop_first())
    }
}

/// The servers whose openings do not stand, in order.
pub open spec fn failing(
    pp: ProtocolParams,
    root: Coeffs,
    servers: Seq<ServerBulletinEntry>,
) -> Seq<ServerId>
    decreases servers.len(),
{
    if servers.len() == 0 {
        seq![]
    } else if stands(pp, root, servers[0]) {
        failing(pp, root, servers.drop_first())
    } else {
        seq![servers[0].server_id] + failing(pp, root, servers.drop_first())
    }
}

proof fn lemma_standing_len(pp: ProtocolParams, root: Coeffs, servers: Seq<ServerBulletinEntry>)
    ensures
        standing(pp, root, servers).len() <= servers.len(),
    decreases servers.len(),
{
    if servers.len() > 0 {
        lemma_standing_len(pp, root, servers.drop_first());
    }
}

/// Removing the first failing server.
proof fn lemma_remove_failing(
    pp: ProtocolParams,
    root: Coeffs,
    servers: Seq<ServerBulletinEntry>,
    i: int,
)
    requires
        0 <= i < servers.len(),
        !stands(pp, root, servers[i]),
        forall|j: int| 0 <= j < i ==> stands(pp, root, #[trigger] servers[j]),
    ensures
        standing(pp, root, servers.remove(i)) == standing(pp, root, servers),
        failing(pp, root, servers) == seq![servers[i].server_id] + failing(
            pp,
            root,
            servers.remove(i),
        ),
    decreases servers.len(),
{
    let rest = servers.drop_first();
    if i == 0 {
        assert(servers.remove(0) =~= rest);
    } else {
        assert forall|j: int| 0 <= j < i - 1 implies stands(pp, root, #[trigger] rest[j]) by {
            assert(stands(pp, root, servers[j + 1]));
        }
        lemma_remove_failing(pp, root, rest, i - 1);
        assert(servers.remove(i).drop_first() =~= rest.remove(i - 1));
        assert(servers.remove(i)[0] == servers[0]);
    }
}

proof fn lemma_all_stand(pp: ProtocolParams, root: Coeffs, servers: Seq<ServerBulletinEntry>)
    requires
        forall|j: int| 0 <= j < servers.len() ==> stands(pp, root, #[trigger] servers[j]),
    ensures
        standing(pp, root, servers) == servers,
        failing(pp, root, servers) == Seq::<ServerId>::empty(),
    decreases servers.len(),
{
    if servers.len() > 0 {
        let rest = servers.drop_first();
        assert forall|j: int| 0 <= j < rest.len() implies stands(pp, root, #[trigger] rest[j]) by {
            assert(stands(pp, root, servers[j + 1]));
        }
        lemma_all_stand(pp, root, rest);
        assert(seq![servers[0]] + rest =~= servers);
    }
}

/// Where the openings' fault lies.
proof fn lemma_first_failing(
    pp: ProtocolParams,
    root: Coeffs,
    servers: Seq<ServerBulletinEntry>,
    from: int,
) -> (i: int)
    requires
        0 <= from <= servers.len(),
        servers.len() <= usize::MAX,
        forall|j: int| 0 <= j < from ==> stands(pp, root, #[trigger] servers[j]),
    ensures
        from <= i <= servers.len(),
        forall|j: int| 0 <= j < i ==> stands(pp, root, #[trigger] servers[j]),
        i == servers.len() ==> openings_fault(pp, root, servers, from) is None,
        i < servers.len() ==> !stands(pp, root, servers[i]) && (openings_fault(
            pp,
            root,
            servers,
            from,
        ) == Some(VerifyError::InvalidServerOpening(i as usize)) || openings_fault(
            pp,
            root,
            servers,
            from,
        ) == Some(VerifyError::ShareOpeningMismatch(i as usize))),
    decreases servers.len() - from,
{
    if from == servers.len() {
        from
    } else if stands(pp, root, servers[from]) {
        lemma_first_failing(pp, root, servers, from + 1)
    } else {
        from
    }
}

proof fn lemma_client_fault_free(
    pp: ProtocolParams,
    entries: Seq<(ClientId, ClientBulletinEntry)>,
    canonical: Seq<ClientId>,
    a: ServerId,
    b: ServerId,
    i: int,
)
    requires
        client_fault(pp, entries, canonical, a, i) is None,
    ensures
        client_fault(pp, entries, canonical, b, i) is None,
    decreases canonical.len() - i,
{
    if i < canonical.len() {
        lemma_client_fault_free(pp, entries, canonical, a, b, i + 1);
    }
}

proof fn lemma_rosters_agree(
    servers: Seq<ServerBulletinEntry>,
    canonical: Seq<ClientId>,
    i: int,
)
    requires
        0 <= i,
        forall|j: int| 0 <= j < servers.len() ==> (#[trigger] servers[j]).clients@ == canonical,
    ensures
        roster_fault(servers, canonical, i) is None,
    decreases servers.len() - i,
{
    if i < servers.len() {
        lemma_rosters_agree(servers, canonical, i + 1);
    }
}

proof fn lemma_exclusion(
    pp: ProtocolParams,
    canonical: Seq<ClientId>,
    entries: Seq<(ClientId, ClientBulletinEntry)>,
    first: ServerId,
    servers: Seq<ServerBulletinEntry>,
    dropped: Seq<ServerId>,
)
    requires
        pp.shamir.t >= 1,
        servers.len() <= usize::MAX,
        servers_cover(pp, servers),
        forall|j: int| 0 <= j < servers.len() ==> (#[trigger] servers[j]).clients@ == canonical,
        floor_fault(pp, canonical) is None,
        client_fault(pp, entries, canonical, first, 0) is None,
        standing(pp, hvc_sum(chosen_roots(entries, canonical)), servers).len() >= pp.shamir.t,
    ensures
        exclusion(pp.shamir.t, servers, dropped, direct_faults(pp, canonical, entries)) == Ok::<
            (Seq<ServerBulletinEntry>, Seq<ServerId>),
            RejectReason,
        >(
            (
                standing(pp, hvc_sum(chosen_roots(entries, canonical)), servers),
                dropped + failing(pp, hvc_sum(chosen_roots(entries, canonical)), servers),
            ),
        ),
    decreases servers.len(),
{
    let root = hvc_sum(chosen_roots(entries, canonical));
    let fault = direct_faults(pp, canonical, entries);
    lemma_standing_len(pp, root, servers);
    lemma_rosters_agree(servers, canonical, 0);
    lemma_client_fault_free(pp, entries, canonical, first, servers[0].server_id, 0);
    assert(fault(servers) == openings_fault(pp, root, servers, 0));
    let i = lemma_first_failing(pp, root, servers, 0);
    if i == servers.len() {
        lemma_all_stand(pp, root, servers);
        assert(dropped + Seq::<ServerId>::empty() =~= dropped);
    } else {
        let rest = servers.remove(i);
        let id = servers[i].server_id;
        lemma_remove_failing(pp, root, servers, i);
        assert forall|j: int| 0 <= j < rest.len() implies (#[trigger] rest[j]).clients@
            == canonical by {
            assert(rest[j] == if j < i {
                servers[j]
            } else {
                servers[j + 1]
            });
        }
        assert(servers_cover(pp, rest)) by {
            assert forall|j: int| 0 <= j < rest.len() implies !#[trigger] bad_server(
                pp,
                rest,
                j,
            ) by {
                let at = if j < i {
                    j
                } else {
                    j + 1
                };
                assert(rest[j] == servers[at]);
                assert(!bad_server(pp, servers, at));
                if server_repeats(rest, j) {
                    let k = choose|k: int|
                        0 <= k < j && (#[trigger] rest[k]).server_id == rest[j].server_id;
                    let from = if k < i {
                        k
                    } else {
                        k + 1
                    };
                    assert(servers[from].server_id == servers[at].server_id);
                    assert(server_repeats(servers, at));
                }
            }
        }
        lemma_exclusion(pp, canonical, entries, first, rest, dropped.push(id));
        assert(dropped.push(id) + failing(pp, root, rest) =~= dropped + failing(
            pp,
            root,
            servers,
        ));
    }
}

/// Servers whose openings fail cost only themselves: while enough others
/// remain, exactly those are left out, in order, and the rest decodes.
pub proof fn law_failing_servers_are_left_out(
    pp: ProtocolParams,
    canonical: Seq<ClientId>,
    entries: Seq<(ClientId, ClientBulletinEntry)>,
    servers: Seq<ServerBulletinEntry>,
)
    requires
        pp.wf(),
        servers.len() <= usize::MAX,
        servers_cover(pp, servers),
        forall|j: int| 0 <= j < servers.len() ==> (#[trigger] servers[j]).clients@ == canonical,
        floor_fault(pp, canonical) is None,
        servers.len() > 0,
        client_fault(pp, entries, canonical, servers[0].server_id, 0) is None,
        standing(pp, hvc_sum(chosen_roots(entries, canonical)), servers).len() >= pp.shamir.t,
    ensures
        exclusion(pp.shamir.t, servers, seq![], direct_faults(pp, canonical, entries)) == Ok::<
            (Seq<ServerBulletinEntry>, Seq<ServerId>),
            RejectReason,
        >(
            (
                standing(pp, hvc_sum(chosen_roots(entries, canonical)), servers),
                failing(pp, hvc_sum(chosen_roots(entries, canonical)), servers),
            ),
        ),
{
    let root = hvc_sum(chosen_roots(entries, canonical));
    lemma_exclusion(pp, canonical, entries, servers[0].server_id, servers, seq![]);
    assert(Seq::<ServerId>::empty() + failing(pp, root, servers) =~= failing(pp, root, servers));
}

// ---------------------------------------------------------------
// What the decisions mean
// ---------------------------------------------------------------

proof fn lemma_roster_members(ids: Seq<ClientId>, r: Seq<ClientId>)
    requires
        ids_ascend(r),
    ensures
        roster_of(ids) == r <==> forall|x: ClientId| #[trigger] ids.contains(x) <==> r.contains(x),
        is_sorted_set(roster_of(ids), ids),
{
    let s = lemma_has_sorted_set(ids);
    assert(is_sorted_set(roster_of(ids), ids));
    if forall|x: ClientId| #[trigger] ids.contains(x) <==> r.contains(x) {
        assert forall|x: ClientId| #[trigger] r.contains(x) <==> ids.contains(x) by {
            assert(ids.contains(x) <==> r.contains(x));
        }
        lemma_roster(r, ids);
    }
    if roster_of(ids) == r {
        assert forall|x: ClientId| #[trigger] ids.contains(x) <==> r.contains(x) by {
            assert(r.contains(x) <==> ids.contains(x));
        }
    }
}

/// The servers that count are exactly those whose lists have the same members as
/// the set, in the order in which they posted: the result gives their places.
pub proof fn law_agreeing_servers(
    servers: Seq<ServerBulletinEntry>,
    canonical: Seq<ClientId>,
) -> (at: Seq<int>)
    requires
        forall|i: int, j: int|
            0 <= i < j < canonical.len() ==> (#[trigger] canonical[i]).0 < (
            #[trigger] canonical[j]).0,
    ensures
        at.len() == agreeing(servers, canonical).len(),
        forall|j: int| 0 <= j < at.len() ==> 0 <= #[trigger] at[j] < servers.len(),
        forall|j: int, k: int| 0 <= j < k < at.len() ==> #[trigger] at[j] < #[trigger] at[k],
        forall|j: int|
            0 <= j < at.len() ==> #[trigger] agreeing(servers, canonical)[j] == servers[at[j]],
        forall|i: int|
            0 <= i < servers.len() ==> (at.contains(i) <==> forall|x: ClientId| #[trigger]
                servers[i].clients@.contains(x) <==> canonical.contains(x)),
    decreases servers.len(),
{
    assert(ids_ascend(canonical));
    if servers.len() == 0 {
        Seq::empty()
    } else {
        let (low, last) = (servers.drop_last(), servers.last());
        let before = law_agreeing_servers(low, canonical);
        lemma_roster_members(last.clients@, canonical);
        let n = low.len() as int;
        let same = roster_of(last.clients@) == canonical;
        let at = if same {
            before.push(n)
        } else {
            before
        };
        let (a, b) = (agreeing(low, canonical), agreeing(servers, canonical));
        assert forall|j: int| 0 <= j < at.len() implies 0 <= #[trigger] at[j] < servers.len() by {
            if j < before.len() {
                assert(0 <= before[j] < low.len());
            }
        }
        assert forall|j: int, k: int| 0 <= j < k < at.len() implies #[trigger] at[j]
            < #[trigger] at[k] by {
            assert(0 <= before[j] < low.len());
            if k < before.len() {
                assert(before[j] < before[k]);
            }
        }
        assert forall|j: int| 0 <= j < at.len() implies #[trigger] b[j] == servers[at[j]] by {
            if j < before.len() {
                assert(a[j] == low[before[j]]);
                assert(0 <= before[j] < low.len());
            }
        }
        assert forall|i: int| 0 <= i < servers.len() implies (at.contains(i) <==> forall|
            x: ClientId,
        | #[trigger]
            servers[i].clients@.contains(x) <==> canonical.contains(x)) by {
            if i < n {
                assert(low[i] == servers[i]);
                if before.contains(i) {
                    let j = choose|j: int| 0 <= j < before.len() && before[j] == i;
                    assert(at[j] == i);
                }
                if at.contains(i) {
                    let j = choose|j: int| 0 <= j < at.len() && at[j] == i;
                    assert(j < before.len());
                    assert(before[j] == i);
                }
            } else {
                if same {
                    assert(at[before.len() as int] == n);
                }
                if at.contains(n) {
                    let j = choose|j: int| 0 <= j < at.len() && at[j] == n;
                    if j < before.len() {
                        assert(0 <= before[j] < low.len());
                    }
                }
            }
        }
        at
    }
}

/// The flow looks at the clients exactly if enough servers posted, the set is no
/// smaller than either floor asks and no larger than the policy admits, and
/// enough servers shared over it.
pub proof fn law_admission(
    pp: ProtocolParams,
    policy: SetPolicy,
    servers: Seq<ServerBulletinEntry>,
    canonical: Seq<ClientId>,
)
    requires
        forall|i: int, j: int|
            0 <= i < j < canonical.len() ==> (#[trigger] canonical[i]).0 < (
            #[trigger] canonical[j]).0,
        forall|x: ClientId| #[trigger] policy.anchor@.contains(x) <==> canonical.contains(x),
    ensures
        roster_of(policy.anchor@) == canonical,
        early_fault(pp, policy, servers) is None <==> {
            &&& servers.len() >= pp.shamir.t
            &&& canonical.len() >= pp.min_clients
            &&& canonical.len() >= policy.min_clients
            &&& canonical.len() <= policy.max_clients
            &&& agreeing(servers, canonical).len() >= pp.shamir.t
        },
{
    lemma_roster_members(policy.anchor@, canonical);
}

/// The groups are taken exactly if every client of the set is in one of them,
/// none is in two or twice in one, and nobody else is in any. A missing group is
/// asked of a client that no group has.
pub proof fn law_groups_cover(canonical: Seq<ClientId>, members: Seq<ClientId>)
    requires
        forall|i: int, j: int|
            0 <= i < j < canonical.len() ==> (#[trigger] canonical[i]).0 < (
            #[trigger] canonical[j]).0,
    ensures
        coverage_fault(canonical, members) is None <==> members.no_duplicates() && forall|
            x: ClientId,
        | #[trigger]
            members.contains(x) <==> canonical.contains(x),
        coverage_fault(canonical, members) matches Some(
            RejectReason::GroupAggregateMissing { group_of },
        ) ==> canonical.contains(group_of) && !members.contains(group_of),
{
    lemma_roster_members(members, canonical);
    lemma_uncovered(canonical, roster_of(members), 0);
    let covered = roster_of(members);
    match uncovered(canonical, covered, 0) {
        Some(c) => {
            assert(covered.contains(c) <==> members.contains(c));
        },
        None => {},
    }
}

proof fn lemma_uncovered(canonical: Seq<ClientId>, covered: Seq<ClientId>, i: int)
    requires
        0 <= i,
    ensures
        uncovered(canonical, covered, i) matches Some(c) ==> canonical.contains(c)
            && !covered.contains(c),
    decreases canonical.len() - i,
{
    if i < canonical.len() {
        lemma_uncovered(canonical, covered, i + 1);
        assert(canonical.contains(canonical[i]));
    }
}

/// One of the posts is this server's.
pub open spec fn posted_by(servers: Seq<ServerBulletinEntry>, id: ServerId) -> bool {
    exists|x: ServerBulletinEntry| #[trigger] servers.contains(x) && x.server_id == id
}

/// Leaving servers out keeps the rest as posted: what is decrypted in the end
/// has no fault and enough servers, all of them among those given, and every
/// server given is kept or named. Giving up means that too few are left, or that
/// some of the servers show a fault that names none of them.
pub proof fn law_exclusion_keeps_the_rest(
    t: usize,
    servers: Seq<ServerBulletinEntry>,
    dropped: Seq<ServerId>,
    fault: spec_fn(Seq<ServerBulletinEntry>) -> Option<VerifyError>,
)
    requires
        servers.len() + dropped.len() <= usize::MAX,
    ensures
        match exclusion(t, servers, dropped, fault) {
            Ok(end) => {
                &&& fault(end.0) is None
                &&& end.0.len() >= t
                &&& end.0.len() + end.1.len() == servers.len() + dropped.len()
                &&& forall|x: ServerBulletinEntry| #[trigger]
                    end.0.contains(x) ==> servers.contains(x)
                &&& dropped.len() <= end.1.len()
                &&& end.1.take(dropped.len() as int) == dropped
                &&& forall|i: int|
                    dropped.len() <= i < end.1.len() ==> posted_by(servers, #[trigger] end.1[i])
            },
            Err(RejectReason::ExhaustedShares { remaining, need, excluded }) => need == t
                && remaining < t && remaining + excluded == servers.len() + dropped.len(),
            Err(RejectReason::Unattributable(e)) => exists|left: Seq<ServerBulletinEntry>|
                #[trigger]
                fault(left) == Some(e) && left.len() >= t && (match e {
                    VerifyError::InvalidServerOpening(i) => i >= left.len(),
                    VerifyError::ShareOpeningMismatch(i) => i >= left.len(),
                    _ => true,
                }),
            Err(_) => false,
        },
    decreases servers.len(), 1int,
{
    if servers.len() >= t {
        match fault(servers) {
            None => {
                assert(dropped.take(dropped.len() as int) =~= dropped);
            },
            Some(VerifyError::InvalidServerOpening(i)) => {
                if i < servers.len() {
                    lemma_one_left_out(t, servers, dropped, fault, i as int);
                }
            },
            Some(VerifyError::ShareOpeningMismatch(i)) => {
                if i < servers.len() {
                    lemma_one_left_out(t, servers, dropped, fault, i as int);
                }
            },
            Some(_) => {},
        }
    }
}

proof fn lemma_one_left_out(
    t: usize,
    servers: Seq<ServerBulletinEntry>,
    dropped: Seq<ServerId>,
    fault: spec_fn(Seq<ServerBulletinEntry>) -> Option<VerifyError>,
    i: int,
)
    requires
        servers.len() + dropped.len() <= usize::MAX,
        0 <= i < servers.len(),
        exclusion(t, servers, dropped, fault) == exclusion(
            t,
            servers.remove(i),
            dropped.push(servers[i].server_id),
            fault,
        ),
    ensures
        match exclusion(t, servers, dropped, fault) {
            Ok(end) => {
                &&& fault(end.0) is None
                &&& end.0.len() >= t
                &&& end.0.len() + end.1.len() == servers.len() + dropped.len()
                &&& forall|x: ServerBulletinEntry| #[trigger]
                    end.0.contains(x) ==> servers.contains(x)
                &&& dropped.len() <= end.1.len()
                &&& end.1.take(dropped.len() as int) == dropped
                &&& forall|i: int|
                    dropped.len() <= i < end.1.len() ==> posted_by(servers, #[trigger] end.1[i])
            },
            Err(RejectReason::ExhaustedShares { remaining, need, excluded }) => need == t
                && remaining < t && remaining + excluded == servers.len() + dropped.len(),
            Err(RejectReason::Unattributable(e)) => exists|left: Seq<ServerBulletinEntry>|
                #[trigger]
                fault(left) == Some(e) && left.len() >= t && (match e {
                    VerifyError::InvalidServerOpening(i) => i >= left.len(),
                    VerifyError::ShareOpeningMismatch(i) => i >= left.len(),
                    _ => true,
                }),
            Err(_) => false,
        },
    decreases servers.len(), 0int,
{
    let (rest, more) = (servers.remove(i), dropped.push(servers[i].server_id));
    law_exclusion_keeps_the_rest(t, rest, more, fault);
    assert forall|x: ServerBulletinEntry| #[trigger] rest.contains(x) implies servers.contains(x) by {
        let k = choose|k: int| 0 <= k < rest.len() && rest[k] == x;
        assert(servers[if k < i { k } else { k + 1 }] == x);
    }
    match exclusion(t, servers, dropped, fault) {
        Ok(end) => {
            let n = dropped.len() as int;
            assert(end.1.take(n) =~= end.1.take(n + 1).take(n));
            assert(end.1.take(n + 1) == more);
            assert(more.take(n) =~= dropped);
            assert(end.1[n] == end.1.take(n + 1)[n]);
            assert(servers.contains(servers[i]));
            assert forall|k: int| n <= k < end.1.len() implies posted_by(
                servers,
                #[trigger] end.1[k],
            ) by {
                if k > n {
                    assert(posted_by(rest, end.1[k]));
                    let x = choose|x: ServerBulletinEntry| #[trigger]
                        rest.contains(x) && x.server_id == end.1[k];
                    assert(servers.contains(x));
                }
            }
        },
        _ => {},
    }
}

/// If every client asked for has an answer, the answers are taken one by one,
/// each under the client it was asked of.
pub proof fn law_answers_in_order(
    canonical: Seq<ClientId>,
    answers: Seq<Option<ClientBulletinEntry>>,
)
    ensures
        answered(canonical, answers).len() <= answers.len(),
        answered(canonical, answers).len() == answers.len() <==> forall|i: int|
            0 <= i < answers.len() ==> #[trigger] answers[i] is Some,
        answered(canonical, answers).len() == answers.len() ==> forall|i: int|
            0 <= i < answers.len() ==> #[trigger] answered(canonical, answers)[i] == (
                canonical[i],
                answers[i]->0,
            ),
    decreases answers.len(),
{
    if answers.len() > 0 {
        let low = answers.drop_last();
        law_answers_in_order(canonical, low);
        let (a, b) = (answered(canonical, low), answered(canonical, answers));
        if b.len() == answers.len() {
            assert(answers.last() is Some);
            assert forall|i: int| 0 <= i < answers.len() implies #[trigger] answers[i] is Some by {
                if i < low.len() {
                    assert(low[i] is Some);
                }
            }
            assert forall|i: int| 0 <= i < answers.len() implies #[trigger] b[i] == (
                canonical[i],
                answers[i]->0,
            ) by {
                if i < low.len() {
                    assert(a[i] == (canonical[i], low[i]->0));
                }
            }
        } else if forall|i: int| 0 <= i < answers.len() ==> #[trigger] answers[i] is Some {
            assert(answers[answers.len() - 1] is Some);
            assert forall|i: int| 0 <= i < low.len() implies #[trigger] low[i] is Some by {
                assert(answers[i] is Some);
            }
        }
    }
}

} // verus!
