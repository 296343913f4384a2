//! Aggregators: sum the public part of a group's posts.

use super::roster::{is_sorted_set, lemma_push_contains, sorted_dedup};
use super::verify::{lemma_summed, summed};
use super::ClientId;
use crate::bulletin::ClientBulletinEntry;
use crate::cs::{Commitment, HidingMerkleCommitment};
use crate::field::{self, cong, sum};
use crate::hvc::{coefficient, hvc_sum};
use crate::kahe::{aggregated_at, all_reduced, kahe_views, position_column, Kahe};
use crate::negacyclic::{lemma_centered, lemma_centered_cong, Coeffs, N};
use crate::rings::{KahePoly, HVC_MODULUS, KAHE_MODULUS};
use vstd::prelude::*;

verus! {

/// One group's summed public part.
pub struct AggregatedPublic {
    /// The group, ascending, each client once.
    pub clients: Vec<ClientId>,
    pub summed_ctxt: Vec<KahePoly>,
    pub summed_comm: Commitment,
}

/// The posting clients, in posting order.
pub open spec fn posters(entries: Seq<(ClientId, ClientBulletinEntry)>) -> Seq<ClientId> {
    entries.map_values(|e: (ClientId, ClientBulletinEntry)| e.0)
}

/// Each client's first post.
pub open spec fn first_posts(entries: Seq<(ClientId, ClientBulletinEntry)>) -> Seq<
    ClientBulletinEntry,
>
    decreases entries.len(),
{
    if entries.len() == 0 {
        seq![]
    } else {
        let low = entries.drop_last();
        if posters(low).contains(entries.last().0) {
            first_posts(low)
        } else {
            first_posts(low).push(entries.last().1)
        }
    }
}

/// The ciphertexts of `posts`.
pub open spec fn ctxts_of(posts: Seq<ClientBulletinEntry>) -> Seq<Seq<KahePoly>> {
    posts.map_values(|e: ClientBulletinEntry| e.ctxt@)
}

/// The commitments of `posts`.
pub open spec fn roots_of(posts: Seq<ClientBulletinEntry>) -> Seq<Coeffs> {
    posts.map_values(|e: ClientBulletinEntry| e.comm.root@)
}

/// No ciphertext is shorter than the first.
pub open spec fn lengths_fit(ctxts: Seq<Seq<KahePoly>>) -> bool {
    forall|i: int| 0 <= i < ctxts.len() ==> (#[trigger] ctxts[i]).len() >= ctxts[0].len()
}

fn lists(ids: &[ClientId], id: ClientId) -> (r: bool)
    ensures
        r == ids@.contains(id),
{
    for i in 0..ids.len()
        invariant
            forall|k: int| 0 <= k < i ==> ids@[k] != id,
    {
        if ids[i] == id {
            assert(ids@[i as int] == id);
            return true;
        }
    }
    false
}

/// Sums the ciphertexts and commitments of a group, one post per client: the
/// first.
pub fn run_aggregator_round(entries: &[(ClientId, ClientBulletinEntry)]) -> (r: AggregatedPublic)
    requires
        lengths_fit(ctxts_of(first_posts(entries@))),
    ensures
        is_sorted_set(r.clients@, posters(entries@)),
        kahe_views(r.summed_ctxt@) == summed(ctxts_of(first_posts(entries@))),
        all_reduced(r.summed_ctxt@),
        r.summed_comm.root@ == hvc_sum(roots_of(first_posts(entries@))),
{
    let n: usize = entries.len();
    let mut seen: Vec<ClientId> = Vec::with_capacity(n);
    let mut ctxts: Vec<&[KahePoly]> = Vec::with_capacity(n);
    let mut comms: Vec<&Commitment> = Vec::with_capacity(n);
    for i in 0..n
        invariant
            n == entries.len(),
            forall|x: ClientId|
                #[trigger] seen@.contains(x) <==> posters(entries@.take(i as int)).contains(x),
            ctxts@.map(|_i: int, s: &[KahePoly]| s@) == ctxts_of(
                first_posts(entries@.take(i as int)),
            ),
            comms@.map(|_i: int, c: &Commitment| c.root@) == roots_of(
                first_posts(entries@.take(i as int)),
            ),
    {
        let ghost (low, now) = (entries@.take(i as int), entries@.take(i + 1));
        let id: ClientId = entries[i].0;
        proof {
            assert(now.drop_last() =~= low);
            assert(posters(now) =~= posters(low).push(id));
            lemma_push_contains(posters(low), id);
            lemma_push_contains(seen@, id);
        }
        if !lists(&seen, id) {
            seen.push(id);
            let ghost (was, had) = (ctxts@, comms@);
            ctxts.push(entries[i].1.ctxt.as_slice());
            comms.push(&entries[i].1.comm);
            proof {
                let posts = first_posts(low);
                assert(first_posts(now) == posts.push(entries@[i as int].1));
                assert(ctxts@.map(|_i: int, s: &[KahePoly]| s@) =~= was.map(
                    |_i: int, s: &[KahePoly]| s@,
                ).push(entries@[i as int].1.ctxt@));
                assert(ctxts_of(first_posts(now)) =~= ctxts_of(posts).push(
                    entries@[i as int].1.ctxt@,
                ));
                assert(comms@.map(|_i: int, c: &Commitment| c.root@) =~= had.map(
                    |_i: int, c: &Commitment| c.root@,
                ).push(entries@[i as int].1.comm.root@));
                assert(roots_of(first_posts(now)) =~= roots_of(posts).push(
                    entries@[i as int].1.comm.root@,
                ));
            }
        }
    }
    assert(entries@.take(n as int) =~= entries@);
    let ghost all = ctxts_of(first_posts(entries@));
    proof {
        assert forall|k: int| 0 <= k < ctxts.len() implies (#[trigger] ctxts[k])@.len()
            >= ctxts[0]@.len() by {
            assert(ctxts@.map(|_i: int, s: &[KahePoly]| s@)[k] == all[k]);
            assert(ctxts@.map(|_i: int, s: &[KahePoly]| s@)[0] == all[0]);
        }
    }
    let clients: Vec<ClientId> = sorted_dedup(&seen);
    let summed_ctxt: Vec<KahePoly> = Kahe::agg_ctxt_refs(&ctxts);
    let summed_comm: Commitment = HidingMerkleCommitment::sum_commitment_refs(&comms);
    proof {
        if all.len() > 0 {
            assert(ctxts@.map(|_i: int, s: &[KahePoly]| s@)[0] == all[0]);
        }
        lemma_summed(all, summed_ctxt@);
        assert(kahe_views(summed_ctxt@) =~= summed(all));
        assert(posters(entries@.take(n as int)) == posters(entries@));
    }
    AggregatedPublic { clients, summed_ctxt, summed_comm }
}

// ---------------------------------------------------------------
// Summing in groups
// ---------------------------------------------------------------

/// The groups, one after the other.
pub open spec fn pooled<T>(groups: Seq<Seq<T>>) -> Seq<T>
    decreases groups.len(),
{
    if groups.len() == 0 {
        seq![]
    } else {
        pooled(groups.drop_last()) + groups.last()
    }
}

proof fn lemma_sum_append(a: Seq<int>, b: Seq<int>)
    ensures
        sum(a + b) == sum(a) + sum(b),
    decreases b.len(),
{
    if b.len() == 0 {
        assert(a + b =~= a);
    } else {
        assert((a + b).drop_last() =~= a + b.drop_last());
        lemma_sum_append(a, b.drop_last());
    }
}

proof fn lemma_sum_remove(s: Seq<int>, i: int)
    requires
        0 <= i < s.len(),
    ensures
        sum(s) == sum(s.remove(i)) + s[i],
{
    let (a, b) = (s.take(i), s.skip(i + 1));
    assert(s =~= a.push(s[i]) + b);
    assert(s.remove(i) =~= a + b);
    lemma_sum_append(a.push(s[i]), b);
    lemma_sum_append(a, b);
    field::lemma_sum_push(a, s[i]);
}

/// A sum does not depend on the order.
proof fn lemma_sum_order<T>(a: Seq<T>, b: Seq<T>, f: spec_fn(T) -> int)
    requires
        a.to_multiset() == b.to_multiset(),
    ensures
        sum(a.map_values(f)) == sum(b.map_values(f)),
    decreases a.len(),
{
    broadcast use vstd::seq_lib::group_to_multiset_ensures;

    assert(a.len() == a.to_multiset().len());
    assert(b.len() == b.to_multiset().len());
    if a.len() == 0 {
        assert(a.map_values(f) =~= b.map_values(f));
    } else {
        let x = a.last();
        assert(a.contains(x)) by {
            assert(a[a.len() - 1] == x);
        }
        assert(b.to_multiset().count(x) > 0);
        assert(b.contains(x));
        let i = choose|i: int| 0 <= i < b.len() && b[i] == x;
        let (al, bl) = (a.drop_last(), b.remove(i));
        assert(a.remove(a.len() - 1) =~= al);
        assert(al.to_multiset() =~= bl.to_multiset());
        lemma_sum_order(al, bl, f);
        lemma_sum_remove(b.map_values(f), i);
        assert(b.map_values(f).remove(i) =~= bl.map_values(f));
        assert(a.map_values(f).drop_last() =~= al.map_values(f));
    }
}

/// Summing sums is summing everything.
proof fn lemma_sum_groups<T>(groups: Seq<Seq<T>>, f: spec_fn(T) -> int, sums: Seq<int>, m: int)
    requires
        m > 0,
        sums.len() == groups.len(),
        forall|g: int|
            0 <= g < groups.len() ==> cong(#[trigger] sums[g], sum(groups[g].map_values(f)), m),
    ensures
        cong(sum(sums), sum(pooled(groups).map_values(f)), m),
    decreases groups.len(),
{
    if groups.len() == 0 {
        assert(sum(pooled(groups).map_values(f)) == 0);
    } else {
        let low = groups.drop_last();
        let g = groups.len() - 1;
        assert forall|h: int| 0 <= h < low.len() implies cong(
            #[trigger] sums.drop_last()[h],
            sum(low[h].map_values(f)),
            m,
        ) by {
            assert(cong(sums[h], sum(groups[h].map_values(f)), m));
        }
        lemma_sum_groups(low, f, sums.drop_last(), m);
        assert(cong(sums[g], sum(groups[g].map_values(f)), m));
        assert(pooled(groups).map_values(f) =~= pooled(low).map_values(f) + groups.last().map_values(
            f,
        ));
        lemma_sum_append(pooled(low).map_values(f), groups.last().map_values(f));
        field::lemma_cong_ops(
            sum(sums.drop_last()),
            sum(pooled(low).map_values(f)),
            sums.last(),
            sum(groups.last().map_values(f)),
            m,
        );
    }
}

/// Summing the groups' sums gives the sum over all their ciphertexts, in
/// whatever order they are listed.
pub proof fn law_regrouped_ctxts(
    groups: Seq<Seq<Seq<KahePoly>>>,
    sums: Seq<Seq<KahePoly>>,
    all: Seq<Seq<KahePoly>>,
    len: nat,
)
    requires
        sums.len() == groups.len(),
        forall|g: int| 0 <= g < groups.len() ==> (#[trigger] groups[g]).len() > 0,
        forall|g: int|
            0 <= g < groups.len() ==> kahe_views(#[trigger] sums[g]) == summed(groups[g]),
        forall|g: int, i: int|
            0 <= g < groups.len() && 0 <= i < groups[g].len() ==> (#[trigger] groups[g][i]).len()
                == len,
        forall|i: int| 0 <= i < all.len() ==> (#[trigger] all[i]).len() == len,
        all.to_multiset() == pooled(groups).to_multiset(),
    ensures
        summed(sums) == summed(all),
{
    broadcast use vstd::seq_lib::group_to_multiset_ensures;

    let q = KAHE_MODULUS as int;
    assert(pooled(groups).len() == pooled(groups).to_multiset().len());
    assert(all.len() == all.to_multiset().len());
    lemma_pooled_len(groups);
    assert forall|g: int| 0 <= g < sums.len() implies (#[trigger] sums[g]).len() == len by {
        assert(groups[g][0].len() == len);
        assert(kahe_views(sums[g]).len() == summed(groups[g]).len());
    }
    if sums.len() > 0 {
        assert(sums[0].len() == len);
        assert(all[0].len() == len);
    }
    assert(summed(sums).len() == summed(all).len());
    assert forall|pos: int| 0 <= pos < summed(sums).len() implies #[trigger] summed(sums)[pos]
        == summed(all)[pos] by {
        assert forall|k: int| 0 <= k < N implies aggregated_at(sums, pos, k) == aggregated_at(
            all,
            pos,
            k,
        ) by {
            let f = |c: Seq<KahePoly>| c[pos]@[k];
            let col = position_column(sums, pos, k);
            assert forall|g: int| 0 <= g < groups.len() implies cong(
                #[trigger] col[g],
                sum(groups[g].map_values(f)),
                q,
            ) by {
                assert(sums[g].len() == len);
                assert(groups[g][0].len() == len);
                assert(kahe_views(sums[g])[pos] == summed(groups[g])[pos]);
                assert(sums[g][pos]@[k] == aggregated_at(groups[g], pos, k));
                assert(position_column(groups[g], pos, k) =~= groups[g].map_values(f));
                lemma_centered(sum(groups[g].map_values(f)), q);
            }
            lemma_sum_groups(groups, f, col, q);
            lemma_sum_order(all, pooled(groups), f);
            assert(position_column(all, pos, k) =~= all.map_values(f));
            lemma_centered_cong(sum(col), sum(all.map_values(f)), q);
        }
        assert(summed(sums)[pos] =~= summed(all)[pos]);
    }
    assert(summed(sums) =~= summed(all));
}

proof fn lemma_pooled_len<T>(groups: Seq<Seq<T>>)
    requires
        forall|g: int| 0 <= g < groups.len() ==> (#[trigger] groups[g]).len() > 0,
    ensures
        pooled(groups).len() >= groups.len(),
        groups.len() == 0 ==> pooled(groups).len() == 0,
    decreases groups.len(),
{
    if groups.len() > 0 {
        assert forall|g: int| 0 <= g < groups.drop_last().len() implies (
        #[trigger] groups.drop_last()[g]).len() > 0 by {
            assert(groups[g].len() > 0);
        }
        lemma_pooled_len(groups.drop_last());
        assert(groups[groups.len() - 1].len() > 0);
    }
}

/// As [`law_regrouped_ctxts`], of commitments.
pub proof fn law_regrouped_roots(groups: Seq<Seq<Coeffs>>, all: Seq<Coeffs>)
    requires
        all.to_multiset() == pooled(groups).to_multiset(),
    ensures
        hvc_sum(groups.map_values(|g: Seq<Coeffs>| hvc_sum(g))) == hvc_sum(all),
{
    let q = HVC_MODULUS as int;
    let sums = groups.map_values(|g: Seq<Coeffs>| hvc_sum(g));
    assert forall|k: int| 0 <= k < N implies hvc_sum(sums)[k] == hvc_sum(all)[k] by {
        let f = |c: Coeffs| c[k];
        let col = coefficient(sums, k);
        assert forall|g: int| 0 <= g < groups.len() implies cong(
            #[trigger] col[g],
            sum(groups[g].map_values(f)),
            q,
        ) by {
            assert(coefficient(groups[g], k) =~= groups[g].map_values(f));
            lemma_centered(sum(groups[g].map_values(f)), q);
        }
        lemma_sum_groups(groups, f, col, q);
        lemma_sum_order(all, pooled(groups), f);
        assert(coefficient(all, k) =~= all.map_values(f));
        lemma_centered_cong(sum(col), sum(all.map_values(f)), q);
    }
    assert(hvc_sum(sums) =~= hvc_sum(all));
}

/// One post counts per client, the first, in posting order: the result gives the
/// places of the posts that count.
pub proof fn law_first_posts_count(
    entries: Seq<(ClientId, ClientBulletinEntry)>,
) -> (at: Seq<int>)
    ensures
        at.len() == first_posts(entries).len(),
        forall|j: int| 0 <= j < at.len() ==> 0 <= #[trigger] at[j] < entries.len(),
        forall|j: int, k: int| 0 <= j < k < at.len() ==> #[trigger] at[j] < #[trigger] at[k],
        forall|j: int|
            0 <= j < at.len() ==> #[trigger] first_posts(entries)[j] == entries[at[j]].1,
        forall|i: int|
            0 <= i < entries.len() ==> (at.contains(i) <==> forall|h: int|
                0 <= h < i ==> (#[trigger] entries[h]).0 != entries[i].0),
    decreases entries.len(),
{
    if entries.len() == 0 {
        Seq::empty()
    } else {
        let (low, last) = (entries.drop_last(), entries.last());
        let before = law_first_posts_count(low);
        let n = low.len() as int;
        let known = posters(low).contains(last.0);
        assert(known <==> exists|h: int| 0 <= h < n && (#[trigger] entries[h]).0 == last.0) by {
            if known {
                let h = choose|h: int| 0 <= h < posters(low).len() && posters(low)[h] == last.0;
                assert(entries[h].0 == last.0);
            }
            if exists|h: int| 0 <= h < n && (#[trigger] entries[h]).0 == last.0 {
                let h = choose|h: int| 0 <= h < n && (#[trigger] entries[h]).0 == last.0;
                assert(posters(low)[h] == last.0);
            }
        }
        let at = if known {
            before
        } else {
            before.push(n)
        };
        let (a, b) = (first_posts(low), first_posts(entries));
        assert forall|j: int| 0 <= j < at.len() implies 0 <= #[trigger] at[j] < entries.len() by {
            if j < before.len() {
                assert(0 <= before[j] < low.len());
            }
        }
        assert forall|j: int, k: int| 0 <= j < k < at.len() implies #[trigger] at[j]
            < #[trigger] at[k] by {
            assert(0 <= before[j] < low.len());
            if k < before.len() {
                assert(before[j] < before[k]);
            }
        }
        assert forall|j: int| 0 <= j < at.len() implies #[trigger] b[j] == entries[at[j]].1 by {
            if j < before.len() {
                assert(a[j] == low[before[j]].1);
                assert(0 <= before[j] < low.len());
            }
        }
        assert forall|i: int| 0 <= i < entries.len() implies (at.contains(i) <==> forall|h: int|
            0 <= h < i ==> (#[trigger] entries[h]).0 != entries[i].0) by {
            if i < n {
                assert(low[i] == entries[i]);
                assert(forall|h: int| 0 <= h < i ==> low[h] == #[trigger] entries[h]);
                assert(forall|h: int| 0 <= h < i ==> entries[h] == #[trigger] low[h]);
                if before.contains(i) {
                    let j = choose|j: int| 0 <= j < before.len() && before[j] == i;
                    assert(at[j] == i);
                }
                if at.contains(i) {
                    let j = choose|j: int| 0 <= j < at.len() && at[j] == i;
                    assert(j < before.len());
                    assert(before[j] == i);
                }
            } else {
                if !known {
                    assert(at[before.len() as int] == n);
                }
                if at.contains(n) {
                    let j = choose|j: int| 0 <= j < at.len() && at[j] == n;
                    if j < before.len() {
                        assert(0 <= before[j] < low.len());
                    }
                }
            }
        }
        at
    }
}

} // verus!
