//! Lists of clients.

use super::ClientId;
use vstd::prelude::*;

verus! {

/// Index of the last item listed under `id`.
pub open spec fn last_at<T>(items: Seq<(ClientId, T)>, id: ClientId) -> Option<int>
    decreases items.len(),
{
    if items.len() == 0 {
        None
    } else if items.last().0 == id {
        Some(items.len() - 1)
    } else {
        last_at(items.drop_last(), id)
    }
}

pub proof fn lemma_last_at<T>(items: Seq<(ClientId, T)>, id: ClientId)
    ensures
        match last_at(items, id) {
            Some(i) => 0 <= i < items.len() && items[i].0 == id && forall|j: int|
                i < j < items.len() ==> (#[trigger] items[j]).0 != id,
            None => forall|j: int| 0 <= j < items.len() ==> (#[trigger] items[j]).0 != id,
        },
    decreases items.len(),
{
    if items.len() > 0 && items.last().0 != id {
        let low = items.drop_last();
        lemma_last_at(low, id);
        assert forall|j: int| 0 <= j < low.len() implies low[j] == items[j] by {}
        match last_at(low, id) {
            Some(i) => {
                assert forall|j: int| i < j < items.len() implies (#[trigger] items[j]).0 != id by {
                    if j < low.len() {
                        assert(low[j].0 != id);
                    }
                }
            },
            None => {
                assert forall|j: int| 0 <= j < items.len() implies (#[trigger] items[j]).0 != id by {
                    if j < low.len() {
                        assert(low[j].0 != id);
                    }
                }
            },
        }
    }
}

/// Finds the last item listed under `id`.
pub fn last_of<T>(items: &[(ClientId, T)], id: ClientId) -> (r: Option<usize>)
    ensures
        r is Some <==> last_at(items@, id) is Some,
        r matches Some(i) ==> last_at(items@, id) == Some(i as int) && i < items.len(),
{
    let mut i: usize = items.len();
    assert(items@.take(i as int) =~= items@);
    while i > 0
        invariant
            i <= items.len(),
            last_at(items@, id) == last_at(items@.take(i as int), id),
        decreases i,
    {
        let ghost t = items@.take(i as int);
        assert(t.last() == items@[i - 1]);
        assert(t.drop_last() =~= items@.take(i - 1));
        if items[i - 1].0 == id {
            return Some(i - 1);
        }
        i = i - 1;
    }
    None
}

/// Index of the last triple listed under `id`.
pub open spec fn last_at3<A, B>(items: Seq<(ClientId, A, B)>, id: ClientId) -> Option<int>
    decreases items.len(),
{
    if items.len() == 0 {
        None
    } else if items.last().0 == id {
        Some(items.len() - 1)
    } else {
        last_at3(items.drop_last(), id)
    }
}

/// Finds the last triple listed under `id`.
pub fn last_of3<A, B>(items: &[(ClientId, A, B)], id: ClientId) -> (r: Option<usize>)
    ensures
        r is Some <==> last_at3(items@, id) is Some,
        r matches Some(i) ==> last_at3(items@, id) == Some(i as int) && i < items.len(),
{
    let mut i: usize = items.len();
    assert(items@.take(i as int) =~= items@);
    while i > 0
        invariant
            i <= items.len(),
            last_at3(items@, id) == last_at3(items@.take(i as int), id),
        decreases i,
    {
        let ghost t = items@.take(i as int);
        assert(t.last() == items@[i - 1]);
        assert(t.drop_last() =~= items@.take(i - 1));
        if items[i - 1].0 == id {
            return Some(i - 1);
        }
        i = i - 1;
    }
    None
}

/// Number of distinct clients.
pub open spec fn distinct_count(ids: Seq<ClientId>) -> nat {
    ids.to_set().len()
}

/// Whether `id` is among the first `n`.
fn listed_before(ids: &[ClientId], n: usize, id: ClientId) -> (r: bool)
    requires
        n <= ids.len(),
    ensures
        r == ids@.take(n as int).contains(id),
{
    for i in 0..n
        invariant
            n <= ids.len(),
            forall|k: int| 0 <= k < i ==> ids@.take(n as int)[k] != id,
    {
        if ids[i] == id {
            assert(ids@.take(n as int)[i as int] == id);
            return true;
        }
    }
    false
}

pub fn count_distinct(ids: &[ClientId]) -> (r: usize)
    ensures
        r == distinct_count(ids@),
{
    let n: usize = ids.len();
    let mut count: usize = 0;
    proof {
        assert(ids@.take(0).to_set() =~= Set::<ClientId>::empty());
    }
    for i in 0..n
        invariant
            n == ids.len(),
            count <= i,
            count == ids@.take(i as int).to_set().len(),
            ids@.take(i as int).to_set().finite(),
    {
        let ghost (a, b) = (ids@.take(i as int), ids@.take(i + 1));
        proof {
            assert(b =~= a.push(ids@[i as int]));
            assert(b.to_set() =~= a.to_set().insert(ids@[i as int])) by {
                assert forall|x: ClientId| b.to_set().contains(x) == a.to_set().insert(
                    ids@[i as int],
                ).contains(x) by {
                    if b.contains(x) {
                        let k = choose|k: int| 0 <= k < b.len() && b[k] == x;
                        if k < a.len() {
                            assert(a[k] == x);
                        }
                    }
                    if a.contains(x) {
                        let k = choose|k: int| 0 <= k < a.len() && a[k] == x;
                        assert(b[k] == x);
                    }
                    if x == ids@[i as int] {
                        assert(b[a.len() as int] == x);
                    }
                }
            }
        }
        if !listed_before(ids, i, ids[i]) {
            count = count + 1;
        }
    }
    assert(ids@.take(n as int) =~= ids@);
    count
}

/// Whether two lists are equal.
pub fn same_ids(a: &[ClientId], b: &[ClientId]) -> (r: bool)
    ensures
        r == (a@ == b@),
{
    if a.len() != b.len() {
        return false;
    }
    for i in 0..a.len()
        invariant
            a.len() == b.len(),
            forall|k: int| 0 <= k < i ==> a@[k] == b@[k],
    {
        if a[i] != b[i] {
            assert(a@[i as int] != b@[i as int]);
            return false;
        }
    }
    assert(a@ =~= b@);
    true
}

/// Strictly ascending.
pub open spec fn ids_ascend(s: Seq<ClientId>) -> bool {
    forall|i: int, j: int| 0 <= i < j < s.len() ==> (#[trigger] s[i]).0 < (#[trigger] s[j]).0
}

/// `r` lists the members of `s`, ascending, each once.
pub open spec fn is_sorted_set(r: Seq<ClientId>, s: Seq<ClientId>) -> bool {
    &&& ids_ascend(r)
    &&& forall|x: ClientId| #[trigger] r.contains(x) <==> s.contains(x)
}

/// The members, ascending, each once.
pub fn sorted_dedup(set: &[ClientId]) -> (r: Vec<ClientId>)
    ensures
        is_sorted_set(r@, set@),
{
    let mut r: Vec<ClientId> = Vec::new();
    let n: usize = set.len();
    proof {
        assert(set@.take(0) =~= Seq::<ClientId>::empty());
    }
    for i in 0..n
        invariant
            n == set.len(),
            ids_ascend(r@),
            forall|x: ClientId| #[trigger] r@.contains(x) <==> set@.take(i as int).contains(x),
    {
        let x: ClientId = set[i];
        let mut at: usize = 0;
        while at < r.len() && r[at].0 < x.0
            invariant
                at <= r.len(),
                ids_ascend(r@),
                forall|k: int| 0 <= k < at ==> (#[trigger] r@[k]).0 < x.0,
            decreases r.len() - at,
        {
            at = at + 1;
        }
        let ghost before = r@;
        let found: bool = at < r.len() && r[at].0 == x.0;
        proof {
            let t = set@.take(i + 1);
            assert(t =~= set@.take(i as int).push(x));
            lemma_push_contains(set@.take(i as int), x);
            if found {
                assert(before[at as int] == x);
                assert(before.contains(x));
            } else {
                lemma_insert_contains(before, at as int, x);
                let now = before.insert(at as int, x);
                assert forall|a: int, b: int| 0 <= a < b < now.len() implies (#[trigger] now[a]).0
                    < (#[trigger] now[b]).0 by {
                    let (p, q) = (if a < at { a } else { a - 1 }, if b < at { b } else { b - 1 });
                    if a != at && b != at {
                        assert(before[p].0 < before[q].0);
                    } else if a == at {
                        assert(before[at as int].0 > x.0);
                        if q > at {
                            assert(before[at as int].0 < before[q].0);
                        }
                    } else {
                        assert(before[p].0 < x.0);
                    }
                }
            }
        }
        if !found {
            r.insert(at, x);
        }
    }
    assert(set@.take(n as int) =~= set@);
    r
}

pub proof fn lemma_push_contains(s: Seq<ClientId>, x: ClientId)
    ensures
        forall|y: ClientId| #[trigger] s.push(x).contains(y) <==> s.contains(y) || y == x,
{
    assert forall|y: ClientId| #[trigger] s.push(x).contains(y) <==> s.contains(y) || y == x by {
        if s.contains(y) {
            let k = choose|k: int| 0 <= k < s.len() && s[k] == y;
            assert(s.push(x)[k] == y);
        }
        if y == x {
            assert(s.push(x)[s.len() as int] == y);
        }
        if s.push(x).contains(y) {
            let k = choose|k: int| 0 <= k < s.push(x).len() && s.push(x)[k] == y;
            if k < s.len() {
                assert(s[k] == y);
            }
        }
    }
}

proof fn lemma_insert_contains(s: Seq<ClientId>, at: int, x: ClientId)
    requires
        0 <= at <= s.len(),
    ensures
        forall|y: ClientId| #[trigger] s.insert(at, x).contains(y) <==> s.contains(y) || y == x,
{
    let t = s.insert(at, x);
    assert forall|y: ClientId| #[trigger] t.contains(y) <==> s.contains(y) || y == x by {
        if s.contains(y) {
            let k = choose|k: int| 0 <= k < s.len() && s[k] == y;
            assert(t[if k < at { k } else { k + 1 }] == y);
        }
        if y == x {
            assert(t[at] == y);
        }
        if t.contains(y) {
            let k = choose|k: int| 0 <= k < t.len() && t[k] == y;
            if k != at {
                assert(s[if k < at { k } else { k - 1 }] == y);
            }
        }
    }
}

/// Two ascending lists with the same members are equal.
pub proof fn lemma_sorted_set_unique(a: Seq<ClientId>, b: Seq<ClientId>, s: Seq<ClientId>)
    requires
        is_sorted_set(a, s),
        is_sorted_set(b, s),
    ensures
        a == b,
    decreases a.len(),
{
    if a.len() == 0 {
        if b.len() > 0 {
            assert(b.contains(b[0]));
            assert(a.contains(b[0]));
        }
        assert(a =~= b);
    } else {
        assert(a.contains(a[0]));
        assert(b.contains(a[0]));
        let (al, bl) = (a.drop_last(), b.drop_last());
        let (x, y) = (a.last(), b.last());
        assert(a.contains(x));
        assert(b.contains(x));
        assert(b.contains(y));
        assert(a.contains(y));
        let i = choose|i: int| 0 <= i < b.len() && b[i] == x;
        let j = choose|j: int| 0 <= j < a.len() && a[j] == y;
        if i < b.len() - 1 {
            assert(b[i].0 < b[b.len() - 1].0);
        }
        if j < a.len() - 1 {
            assert(a[j].0 < a[a.len() - 1].0);
        }
        assert(x == y);
        assert forall|z: ClientId| #[trigger] al.contains(z) <==> bl.contains(z) by {
            lemma_drop_contains(a, z);
            lemma_drop_contains(b, z);
        }
        assert forall|p: int, q: int| 0 <= p < q < al.len() implies (#[trigger] al[p]).0 < (
        #[trigger] al[q]).0 by {
            assert(a[p].0 < a[q].0);
        }
        assert forall|p: int, q: int| 0 <= p < q < bl.len() implies (#[trigger] bl[p]).0 < (
        #[trigger] bl[q]).0 by {
            assert(b[p].0 < b[q].0);
        }
        lemma_sorted_set_unique(al, bl, al);
        assert(a =~= al.push(x));
        assert(b =~= bl.push(y));
    }
}

proof fn lemma_drop_contains(a: Seq<ClientId>, z: ClientId)
    requires
        ids_ascend(a),
        a.len() > 0,
    ensures
        a.drop_last().contains(z) <==> a.contains(z) && z != a.last(),
{
    let al = a.drop_last();
    if al.contains(z) {
        let k = choose|k: int| 0 <= k < al.len() && al[k] == z;
        assert(a[k] == z);
        assert(a[k].0 < a[a.len() - 1].0);
    }
    if a.contains(z) && z != a.last() {
        let k = choose|k: int| 0 <= k < a.len() && a[k] == z;
        assert(al[k] == z);
    }
}

/// Where `x` belongs in an ascending list that does not have it.
proof fn lemma_spot(r: Seq<ClientId>, x: ClientId) -> (at: int)
    requires
        ids_ascend(r),
        !r.contains(x),
    ensures
        0 <= at <= r.len(),
        forall|k: int| 0 <= k < at ==> (#[trigger] r[k]).0 < x.0,
        forall|k: int| at <= k < r.len() ==> (#[trigger] r[k]).0 > x.0,
    decreases r.len(),
{
    if r.len() == 0 {
        0
    } else {
        let y = r.last();
        assert(r.contains(y));
        let low = r.drop_last();
        assert forall|i: int, j: int| 0 <= i < j < low.len() implies (#[trigger] low[i]).0 < (
        #[trigger] low[j]).0 by {
            assert(r[i].0 < r[j].0);
        }
        if y.0 < x.0 {
            assert forall|k: int| 0 <= k < r.len() implies (#[trigger] r[k]).0 < x.0 by {
                if k < r.len() - 1 {
                    assert(r[k].0 < r[r.len() - 1].0);
                }
            }
            r.len() as int
        } else {
            if low.contains(x) {
                let k = choose|k: int| 0 <= k < low.len() && low[k] == x;
                assert(r[k] == x);
            }
            let at = lemma_spot(low, x);
            assert forall|k: int| 0 <= k < at implies (#[trigger] r[k]).0 < x.0 by {
                assert(low[k].0 < x.0);
            }
            assert forall|k: int| at <= k < r.len() implies (#[trigger] r[k]).0 > x.0 by {
                if k < low.len() {
                    assert(low[k].0 > x.0);
                }
            }
            at
        }
    }
}

/// Every list has a sorted form.
pub proof fn lemma_has_sorted_set(ids: Seq<ClientId>) -> (r: Seq<ClientId>)
    ensures
        is_sorted_set(r, ids),
    decreases ids.len(),
{
    if ids.len() == 0 {
        ids
    } else {
        let (low, x) = (ids.drop_last(), ids.last());
        let r = lemma_has_sorted_set(low);
        lemma_push_contains(low, x);
        assert(ids =~= low.push(x));
        if r.contains(x) {
            r
        } else {
            let at = lemma_spot(r, x);
            let now = r.insert(at, x);
            lemma_insert_contains(r, at, x);
            assert forall|a: int, b: int| 0 <= a < b < now.len() implies (#[trigger] now[a]).0 < (
            #[trigger] now[b]).0 by {
                let (p, q) = (if a < at { a } else { a - 1 }, if b < at { b } else { b - 1 });
                if a != at && b != at {
                    assert(r[p].0 < r[q].0);
                } else if a == at {
                    assert(r[q].0 > x.0);
                } else {
                    assert(r[p].0 < x.0);
                }
            }
            now
        }
    }
}

/// The number of distinct clients is that of any list of them without
/// repetition.
pub proof fn law_distinct_clients(ids: Seq<ClientId>, once: Seq<ClientId>)
    requires
        once.no_duplicates(),
        forall|x: ClientId| #[trigger] once.contains(x) <==> ids.contains(x),
    ensures
        distinct_count(ids) == once.len(),
{
    assert(once.to_set() =~= ids.to_set());
    once.unique_seq_to_set();
}

/// Of triples too the last one under an identifier counts.
pub proof fn law_last_triple_counts<A, B>(items: Seq<(ClientId, A, B)>, id: ClientId)
    ensures
        match last_at3(items, id) {
            Some(i) => 0 <= i < items.len() && items[i].0 == id && forall|j: int|
                i < j < items.len() ==> (#[trigger] items[j]).0 != id,
            None => forall|j: int| 0 <= j < items.len() ==> (#[trigger] items[j]).0 != id,
        },
    decreases items.len(),
{
    if items.len() > 0 && items.last().0 != id {
        let low = items.drop_last();
        law_last_triple_counts(low, id);
        assert forall|j: int| 0 <= j < low.len() implies low[j] == items[j] by {}
        match last_at3(low, id) {
            Some(i) => {
                assert forall|j: int| i < j < items.len() implies (#[trigger] items[j]).0 != id by {
                    if j < low.len() {
                        assert(low[j].0 != id);
                    }
                }
            },
            None => {
                assert forall|j: int| 0 <= j < items.len() implies (#[trigger] items[j]).0 != id by {
                    if j < low.len() {
                        assert(low[j].0 != id);
                    }
                }
            },
        }
    }
}

} // verus!
