//! Narrowing an inconsistent sum to a group of clients, by bisection.
//!
//! A failing sum says that someone is inconsistent, not who. The servers and
//! lanes can be run over any subset, so halving localises the failure, down to
//! the anonymity that the caller is willing to spend.

use super::roster::{is_sorted_set, sorted_dedup};
use super::verify::{aggregate_and_decrypt_rs, is_rs_answer, VerifyError};
use super::{ClientId, ProtocolParams, SessionId};
use crate::bulletin::{RsClientBulletinEntry, RsNodeBulletinEntry, ServerBulletinEntry};
use crate::rings::KahePoly;
use crate::share_commitment::dgt_wf;
use vstd::prelude::*;

verus! {

/// What the servers and lanes post for one subset.
pub type SubsetOutputs = (Vec<ServerBulletinEntry>, Vec<RsNodeBulletinEntry>);

#[derive(Debug, PartialEq, Eq)]
pub enum DisputeOutcome {
    /// The smallest group tested that still fails.
    Culprits(Vec<ClientId>),
    /// Both halves pass: the inconsistency is in no subset.
    NotAttributable(Vec<ClientId>),
    /// A subset could not be run, or failed for another reason.
    Inconclusive(Vec<ClientId>),
}

/// What running one half showed.
#[derive(Debug, Clone, Copy, PartialEq, Eq, Structural)]
pub enum HalfCheck {
    Mismatch,
    Clean,
    Unknown,
}

/// What the verifier's answer shows.
pub open spec fn judged(answer: Result<Vec<KahePoly>, VerifyError>) -> HalfCheck {
    match answer {
        Ok(_) => HalfCheck::Clean,
        Err(VerifyError::CiphertextOutOfRange) => HalfCheck::Mismatch,
        Err(_) => HalfCheck::Unknown,
    }
}

/// Reads the verifier's answer: a sum that is not one of honest ciphertexts is
/// a mismatch, any other refusal says nothing about the clients.
pub fn judge(answer: &Result<Vec<KahePoly>, VerifyError>) -> (r: HalfCheck)
    ensures
        r == judged(*answer),
{
    match answer {
        Ok(_) => HalfCheck::Clean,
        Err(VerifyError::CiphertextOutOfRange) => HalfCheck::Mismatch,
        Err(_) => HalfCheck::Unknown,
    }
}

/// A search in progress: the failing group, and whether its first half is
/// known to be clean.
pub struct Bisection {
    pub group: Vec<ClientId>,
    pub floor: usize,
    pub second: bool,
}

fn copy_part(ids: &[ClientId], from: usize, to: usize) -> (r: Vec<ClientId>)
    requires
        from <= to <= ids.len(),
    ensures
        r@ == ids@.subrange(from as int, to as int),
{
    let mut r: Vec<ClientId> = Vec::with_capacity(to - from);
    for i in from..to
        invariant
            from <= i,
            from <= to <= ids.len(),
            r@ == ids@.subrange(from as int, i as int),
    {
        r.push(ids[i]);
        assert(r@ =~= ids@.subrange(from as int, i + 1));
    }
    r
}

/// The first or the second half of a group.
pub open spec fn half_of(group: Seq<ClientId>, second: bool) -> Seq<ClientId> {
    let mid = group.len() as int / 2;
    if second {
        group.subrange(mid, group.len() as int)
    } else {
        group.subrange(0, mid)
    }
}

impl Bisection {
    /// Splitting further would drop a half below the floor.
    pub open spec fn finished(&self) -> bool {
        self.group.len() < 2 * self.floor
    }

    /// The half to test next.
    pub open spec fn half(&self) -> Seq<ClientId> {
        half_of(self.group@, self.second)
    }

    /// Starts over the failing clients.
    pub fn new(failing: &[ClientId], floor: usize) -> (r: Self)
        requires
            floor >= 1,
        ensures
            is_sorted_set(r.group@, failing@),
            r.floor == floor,
            !r.second,
    {
        Bisection { group: sorted_dedup(failing), floor, second: false }
    }

    /// The next half to run, if there is one.
    pub fn pending(&self) -> (r: Option<Vec<ClientId>>)
        requires
            self.floor >= 1,
        ensures
            r is None <==> self.finished(),
            r matches Some(h) ==> h@ == self.half() && self.floor <= h.len() < self.group.len(),
    {
        let mid: usize = self.group.len() / 2;
        if mid < self.floor {
            return None;
        }
        if self.second {
            Some(copy_part(&self.group, mid, self.group.len()))
        } else {
            Some(copy_part(&self.group, 0, mid))
        }
    }

    /// Takes in what the pending half showed: the search goes on in that half,
    /// in the other one, or it ends.
    pub fn report(self, check: HalfCheck) -> (r: Result<Self, DisputeOutcome>)
        ensures
            match check {
                HalfCheck::Unknown => r matches Err(DisputeOutcome::Inconclusive(g)) && g@
                    == self.group@,
                HalfCheck::Mismatch => r matches Ok(s) && s.group@ == self.half() && s.floor
                    == self.floor && !s.second,
                HalfCheck::Clean => if self.second {
                    r matches Err(DisputeOutcome::NotAttributable(g)) && g@ == self.group@
                } else {
                    r matches Ok(s) && s.group@ == self.group@ && s.floor == self.floor && s.second
                },
            },
    {
        match check {
            HalfCheck::Unknown => Err(DisputeOutcome::Inconclusive(self.group)),
            HalfCheck::Mismatch => {
                let mid: usize = self.group.len() / 2;
                let group: Vec<ClientId> = if self.second {
                    copy_part(&self.group, mid, self.group.len())
                } else {
                    copy_part(&self.group, 0, mid)
                };
                Ok(Bisection { group, floor: self.floor, second: false })
            },
            HalfCheck::Clean => {
                if self.second {
                    Err(DisputeOutcome::NotAttributable(self.group))
                } else {
                    Ok(Bisection { group: self.group, floor: self.floor, second: true })
                }
            },
        }
    }
}

/// The two halves make up the group.
pub proof fn law_halves_cover(s: Bisection, t: Bisection)
    requires
        s.group@ == t.group@,
        !s.second,
        t.second,
    ensures
        s.half() + t.half() == s.group@,
{
    assert(s.half() + t.half() =~= s.group@);
}

/// The group an outcome names.
pub open spec fn group_of(o: DisputeOutcome) -> Seq<ClientId> {
    match o {
        DisputeOutcome::Culprits(g) => g@,
        DisputeOutcome::NotAttributable(g) => g@,
        DisputeOutcome::Inconclusive(g) => g@,
    }
}

/// `part` is a run of consecutive members of `whole`.
pub open spec fn is_run(part: Seq<ClientId>, whole: Seq<ClientId>) -> bool {
    exists|at: int|
        0 <= at && at + part.len() <= whole.len() && part == #[trigger] whole.subrange(
            at,
            at + part.len(),
        )
}

proof fn lemma_run_of_run(a: Seq<ClientId>, b: Seq<ClientId>, c: Seq<ClientId>)
    requires
        is_run(a, b),
        is_run(b, c),
    ensures
        is_run(a, c),
{
    let i = choose|at: int|
        0 <= at && at + a.len() <= b.len() && a == #[trigger] b.subrange(at, at + a.len());
    let j = choose|at: int|
        0 <= at && at + b.len() <= c.len() && b == #[trigger] c.subrange(at, at + b.len());
    assert(a =~= c.subrange(i + j, i + j + a.len()));
}

proof fn lemma_half_is_run(s: Bisection)
    ensures
        is_run(s.half(), s.group@),
{
    let mid = s.group.len() as int / 2;
    if s.second {
        assert(s.half() =~= s.group@.subrange(mid, mid + s.half().len()));
    } else {
        assert(s.half() =~= s.group@.subrange(0int, 0int + s.half().len()));
    }
}

/// One half that was run: what the servers and lanes posted, if anything, and
/// what that showed.
pub struct Step {
    pub posted: Option<SubsetOutputs>,
    pub check: HalfCheck,
}

/// The posts are what `rerun` gave over the half, and the check is what the
/// verifier's answer on them shows.
pub open spec fn is_step<F: Fn(&[ClientId]) -> Option<SubsetOutputs>>(
    pp: ProtocolParams,
    sid: SessionId,
    entries: Seq<(ClientId, RsClientBulletinEntry)>,
    rerun: F,
    half: Seq<ClientId>,
    step: Step,
) -> bool {
    &&& exists|ids: &[ClientId]| ids@ == half && #[trigger] call_ensures(rerun, (ids,), step.posted)
    &&& match step.posted {
        None => step.check == HalfCheck::Unknown,
        Some(v) => exists|answer: Result<Vec<KahePoly>, VerifyError>| #[trigger]
            is_rs_answer(pp, sid, half, entries, v.0@, v.1@, answer) && step.check == judged(
                answer,
            ),
    }
}

/// Run along these steps, the search over `group` ends in `r`: it follows the
/// first half that shows a mismatch, and stops at a group too small to split,
/// at two clean halves, or at a half that shows nothing.
pub open spec fn ends_in<F: Fn(&[ClientId]) -> Option<SubsetOutputs>>(
    pp: ProtocolParams,
    sid: SessionId,
    entries: Seq<(ClientId, RsClientBulletinEntry)>,
    rerun: F,
    floor: int,
    group: Seq<ClientId>,
    second: bool,
    trace: Seq<Step>,
    r: DisputeOutcome,
) -> bool
    decreases trace.len(),
{
    if trace.len() == 0 {
        group.len() < 2 * floor && r is Culprits && group_of(r) == group
    } else {
        let half = half_of(group, second);
        &&& group.len() >= 2 * floor
        &&& is_step(pp, sid, entries, rerun, half, trace[0])
        &&& match trace[0].check {
            HalfCheck::Unknown => trace.len() == 1 && r is Inconclusive && group_of(r) == group,
            HalfCheck::Mismatch => ends_in(
                pp,
                sid,
                entries,
                rerun,
                floor,
                half,
                false,
                trace.drop_first(),
                r,
            ),
            HalfCheck::Clean => if second {
                trace.len() == 1 && r is NotAttributable && group_of(r) == group
            } else {
                ends_in(pp, sid, entries, rerun, floor, group, true, trace.drop_first(), r)
            },
        }
    }
}

/// Some run over the sorted clients ends in `r`.
pub open spec fn is_outcome<F: Fn(&[ClientId]) -> Option<SubsetOutputs>>(
    pp: ProtocolParams,
    sid: SessionId,
    entries: Seq<(ClientId, RsClientBulletinEntry)>,
    failing: Seq<ClientId>,
    floor: int,
    rerun: F,
    r: DisputeOutcome,
) -> bool {
    exists|start: Seq<ClientId>, trace: Seq<Step>|
        is_sorted_set(start, failing) && #[trigger] ends_in(
            pp,
            sid,
            entries,
            rerun,
            floor,
            start,
            false,
            trace,
            r,
        )
}

/// Bisects `failing`; `rerun` runs the servers and lanes over a subset. The
/// search follows the half that still fails. The group named is a run of the
/// sorted failing clients, no smaller than the floor unless there were fewer to
/// begin with.
pub fn bisect_digest_failure<F>(
    pp: &ProtocolParams,
    sid: &SessionId,
    client_entries: &[(ClientId, RsClientBulletinEntry)],
    failing: &[ClientId],
    floor: usize,
    rerun: F,
) -> (r: DisputeOutcome) where F: Fn(&[ClientId]) -> Option<SubsetOutputs>
    requires
        pp.wf(),
        floor >= 1,
        forall|i: int| 0 <= i < client_entries.len() ==> (#[trigger] client_entries[i]).1.fits(),
        forall|ids: &[ClientId]| #[trigger] call_requires(rerun, (ids,)),
        forall|ids: &[ClientId], o: Option<SubsetOutputs>| #[trigger]
            call_ensures(rerun, (ids,), o) ==> (o matches Some(v) ==> forall|i: int|
                0 <= i < v.1.len() ==> dgt_wf((#[trigger] v.1[i]).share_sum@)),
    ensures
        is_outcome(*pp, *sid, client_entries@, failing@, floor as int, rerun, r),
        exists|start: Seq<ClientId>| #[trigger]
            is_sorted_set(start, failing@) && is_run(group_of(r), start) && (start.len() >= floor
                ==> group_of(r).len() >= floor) && (r is Culprits ==> group_of(r).len() < 2 * floor)
                && (r !is Culprits ==> group_of(r).len() >= 2 * floor) && (start.len() < 2 * floor
                ==> r is Culprits && group_of(r) == start),
{
    let mut search: Bisection = Bisection::new(failing, floor);
    let ghost start = search.group@;
    proof {
        assert(start =~= start.subrange(0int, 0int + start.len()));
    }
    let ghost mut done: Seq<Step> = seq![];
    proof {
        assert forall|rest: Seq<Step>| #[trigger] (done + rest) == rest by {
            assert(done + rest =~= rest);
        }
    }
    loop
        invariant
            pp.wf(),
            forall|rest: Seq<Step>, r: DisputeOutcome| #[trigger]
                ends_in(
                    *pp,
                    *sid,
                    client_entries@,
                    rerun,
                    floor as int,
                    search.group@,
                    search.second,
                    rest,
                    r,
                ) ==> ends_in(
                    *pp,
                    *sid,
                    client_entries@,
                    rerun,
                    floor as int,
                    start,
                    false,
                    done + rest,
                    r,
                ),
            floor >= 1,
            search.floor == floor,
            is_sorted_set(start, failing@),
            is_run(search.group@, start),
            start.len() >= floor ==> search.group.len() >= floor,
            start.len() < 2 * floor ==> search.group@ == start,
            forall|i: int|
                0 <= i < client_entries.len() ==> (#[trigger] client_entries[i]).1.fits(),
            forall|ids: &[ClientId]| #[trigger] call_requires(rerun, (ids,)),
            forall|ids: &[ClientId], o: Option<SubsetOutputs>| #[trigger]
                call_ensures(rerun, (ids,), o) ==> (o matches Some(v) ==> forall|i: int|
                    0 <= i < v.1.len() ==> dgt_wf((#[trigger] v.1[i]).share_sum@)),
        decreases search.group.len(),
            (if search.second {
                0int
            } else {
                1int
            }),
    {
        let half: Vec<ClientId> = match search.pending() {
            None => {
                let r = DisputeOutcome::Culprits(search.group);
                assert(ends_in(
                    *pp,
                    *sid,
                    client_entries@,
                    rerun,
                    floor as int,
                    search.group@,
                    search.second,
                    seq![],
                    r,
                ));
                return r;
            },
            Some(h) => h,
        };
        let posted: Option<SubsetOutputs> = rerun(half.as_slice());
        let check: HalfCheck = match &posted {
            None => HalfCheck::Unknown,
            Some(v) => {
                let answer = aggregate_and_decrypt_rs(pp, sid, &half, client_entries, &v.0, &v.1);
                judge(&answer)
            },
        };
        let ghost step = Step { posted, check };
        let ghost (group, second) = (search.group@, search.second);
        proof {
            lemma_half_is_run(search);
            lemma_run_of_run(search.half(), search.group@, start);
            assert(is_step(*pp, *sid, client_entries@, rerun, half@, step));
        }
        search = match search.report(check) {
            Err(outcome) => {
                assert(ends_in(
                    *pp,
                    *sid,
                    client_entries@,
                    rerun,
                    floor as int,
                    group,
                    second,
                    seq![step],
                    outcome,
                ));
                return outcome;
            },
            Ok(next) => next,
        };
        proof {
            assert forall|rest: Seq<Step>, r: DisputeOutcome| #[trigger]
                ends_in(
                    *pp,
                    *sid,
                    client_entries@,
                    rerun,
                    floor as int,
                    search.group@,
                    search.second,
                    rest,
                    r,
                ) implies ends_in(
                *pp,
                *sid,
                client_entries@,
                rerun,
                floor as int,
                start,
                false,
                done.push(step) + rest,
                r,
            ) by {
                let longer = seq![step] + rest;
                assert(longer.drop_first() =~= rest);
                assert(done.push(step) + rest =~= done + longer);
                assert(ends_in(
                    *pp,
                    *sid,
                    client_entries@,
                    rerun,
                    floor as int,
                    group,
                    second,
                    longer,
                    r,
                ));
            }
            done = done.push(step);
        }
    }
}

/// The halves are as equal as they can be, so the search ends exactly when one of
/// them would drop below the floor.
pub proof fn law_halves_are_equal(group: Seq<ClientId>, s: Bisection)
    requires
        s.group@ == group,
    ensures
        0 <= half_of(group, true).len() - half_of(group, false).len() <= 1,
        half_of(group, false) + half_of(group, true) == group,
        s.finished() <==> half_of(group, false).len() < s.floor,
{
    assert(half_of(group, false) + half_of(group, true) =~= group);
}

/// Only a sum that no honest ciphertexts have counts against a half, and only a
/// decrypted one for it.
pub proof fn law_what_counts_against_a_half(answer: Result<Vec<KahePoly>, VerifyError>)
    ensures
        judged(answer) == HalfCheck::Clean <==> answer is Ok,
        judged(answer) == HalfCheck::Mismatch <==> answer == Err::<Vec<KahePoly>, VerifyError>(
            VerifyError::CiphertextOutOfRange,
        ),
{
}

} // verus!
