//! Peeling of tables that superpose items.
//!
//! A table has levels of cells; a cell is a vector whose entry 0 counts items.
//! An item is a vector with entry 0 equal to one. It is added into one cell per
//! level, chosen by the item itself; entries are kept modulo `m`. A cell that
//! counts one item shows that item, which can then be taken out everywhere.

use crate::field::{self, cong};
use crate::negacyclic::{centered, lemma_centered, lemma_centered_cong, lemma_centered_id};
use vstd::multiset::Multiset;
use vstd::prelude::*;

verus! {

pub type Cell = Seq<int>;

pub type Grid = Seq<Seq<Seq<int>>>;

/// How entries are kept modulo `m`, and where items go.
pub struct Shape {
    pub m: int,
    /// Entries are centered; otherwise in `[0, m)`.
    pub signed: bool,
    /// The cell of each level that an item is added into.
    pub place: spec_fn(Cell) -> Seq<int>,
}

/// The kept form of an entry.
pub open spec fn kept(s: Shape, x: int) -> int {
    if s.signed {
        centered(x, s.m)
    } else {
        x % s.m
    }
}

/// Entry `c` that `items` add up to in cell `i` of level `l`.
pub open spec fn load(s: Shape, items: Seq<Cell>, l: int, i: int, c: int) -> int
    decreases items.len(),
{
    if items.len() == 0 {
        0
    } else {
        load(s, items.drop_last(), l, i, c) + share(s, items.last(), l, i, c)
    }
}

/// What one item adds to entry `c` of cell `i` of level `l`.
pub open spec fn share(s: Shape, x: Cell, l: int, i: int, c: int) -> int {
    if (s.place)(x)[l] == i {
        x[c]
    } else {
        0
    }
}

/// Every cell has `w` entries.
pub open spec fn regular(g: Grid, w: nat) -> bool {
    forall|l: int, i: int|
        0 <= l < g.len() && 0 <= i < g[l].len() ==> (#[trigger] g[l][i]).len() == w
}

/// `x` is an item for a table shaped like `g`.
pub open spec fn is_item(s: Shape, g: Grid, w: nat, x: Cell) -> bool {
    &&& x.len() == w
    &&& w >= 1
    &&& x[0] == 1
    &&& forall|c: int| 0 <= c < w ==> kept(s, #[trigger] x[c]) == x[c]
    &&& (s.place)(x).len() == g.len()
    &&& forall|l: int| 0 <= l < g.len() ==> 0 <= #[trigger] (s.place)(x)[l] < g[l].len()
}

/// `g` superposes exactly `items`.
pub open spec fn holds(s: Shape, g: Grid, w: nat, items: Seq<Cell>) -> bool {
    &&& regular(g, w)
    &&& forall|j: int| 0 <= j < items.len() ==> is_item(s, g, w, #[trigger] items[j])
    &&& forall|l: int, i: int, c: int|
        0 <= l < g.len() && 0 <= i < g[l].len() && 0 <= c < w ==> #[trigger] g[l][i][c] == kept(
            s,
            load(s, items, l, i, c),
        )
}

/// Cell `i` of level `l` counts one item.
pub open spec fn is_pure(g: Grid, l: int, i: int) -> bool {
    0 <= l < g.len() && 0 <= i < g[l].len() && g[l][i][0] == 1
}

/// `v` taken out of cell `i` of level `l`.
pub open spec fn lessened(s: Shape, g: Grid, v: Cell, l: int, i: int) -> Cell {
    Seq::new(v.len(), |c: int| kept(s, g[l][i][c] - v[c]))
}

/// `g` with `v` taken out of its cell in every level.
pub open spec fn take_out(s: Shape, g: Grid, v: Cell) -> Grid {
    Seq::new(
        g.len(),
        |l: int| g[l].update((s.place)(v)[l], lessened(s, g, v, l, (s.place)(v)[l])),
    )
}

/// `g` after taking out what the cells in `steps` show, one after the other.
pub open spec fn after(s: Shape, g: Grid, steps: Seq<(int, int)>) -> Grid
    decreases steps.len(),
{
    if steps.len() == 0 {
        g
    } else {
        let p = after(s, g, steps.drop_last());
        take_out(s, p, p[steps.last().0][steps.last().1])
    }
}

/// What the cells in `steps` showed when they were taken.
pub open spec fn shown(s: Shape, g: Grid, steps: Seq<(int, int)>) -> Seq<Cell>
    decreases steps.len(),
{
    if steps.len() == 0 {
        Seq::empty()
    } else {
        let p = after(s, g, steps.drop_last());
        shown(s, g, steps.drop_last()).push(p[steps.last().0][steps.last().1])
    }
}

/// Every step takes a cell that counts one item at that moment.
pub open spec fn legal(s: Shape, g: Grid, steps: Seq<(int, int)>) -> bool
    decreases steps.len(),
{
    steps.len() == 0 || {
        &&& legal(s, g, steps.drop_last())
        &&& is_pure(after(s, g, steps.drop_last()), steps.last().0, steps.last().1)
    }
}

/// No cell counts exactly one item.
pub open spec fn stuck(g: Grid) -> bool {
    forall|l: int, i: int| !#[trigger] is_pure(g, l, i)
}

/// Every entry is zero.
pub open spec fn is_clear(g: Grid) -> bool {
    forall|l: int, i: int, c: int|
        0 <= l < g.len() && 0 <= i < g[l].len() && 0 <= c < g[l][i].len() ==> #[trigger] g[l][i][c]
            == 0
}

/// The cells of a level, among its first `n`, that count one item, in order.
pub open spec fn pure_in_level(g: Grid, l: int, n: nat) -> Seq<(int, int)>
    decreases n,
{
    if n == 0 {
        seq![]
    } else {
        let before = pure_in_level(g, l, (n - 1) as nat);
        if g[l][n - 1][0] == 1 {
            before.push((l, n - 1))
        } else {
            before
        }
    }
}

/// The cells of the first `n` levels that count one item, in order.
pub open spec fn pure_in_order(g: Grid, n: nat) -> Seq<(int, int)>
    decreases n,
{
    if n == 0 {
        seq![]
    } else {
        pure_in_order(g, (n - 1) as nat) + pure_in_level(g, n - 1, g[n - 1].len())
    }
}

/// The cells of `v` in the first `n` levels that count one item once `v` is
/// taken out, in order.
pub open spec fn bared(s: Shape, g: Grid, v: Cell, n: nat) -> Seq<(int, int)>
    decreases n,
{
    if n == 0 {
        seq![]
    } else {
        let before = bared(s, g, v, (n - 1) as nat);
        let at = (s.place)(v)[n - 1];
        if lessened(s, g, v, n - 1, at)[0] == 1 {
            before.push((n - 1, at))
        } else {
            before
        }
    }
}

/// Places as integers.
pub open spec fn cells_of(queue: Seq<(usize, usize)>) -> Seq<(int, int)> {
    queue.map_values(|x: (usize, usize)| (x.0 as int, x.1 as int))
}

pub proof fn lemma_kept(s: Shape, x: int)
    requires
        s.m > 1,
    ensures
        cong(kept(s, x), x, s.m),
{
    lemma_centered(x, s.m);
    field::lemma_cong_mod(x, s.m);
}

pub proof fn lemma_kept_cong(s: Shape, x: int, y: int)
    requires
        s.m > 1,
        cong(x, y, s.m),
    ensures
        kept(s, x) == kept(s, y),
{
    lemma_centered_cong(x, y, s.m);
}

/// Loads add up over appended items.
pub proof fn lemma_load_concat(s: Shape, a: Seq<Cell>, b: Seq<Cell>, l: int, i: int, c: int)
    ensures
        load(s, a + b, l, i, c) == load(s, a, l, i, c) + load(s, b, l, i, c),
    decreases b.len(),
{
    if b.len() == 0 {
        assert(a + b =~= a);
    } else {
        lemma_load_concat(s, a, b.drop_last(), l, i, c);
        assert((a + b).drop_last() =~= a + b.drop_last());
    }
}

pub proof fn lemma_load_push(s: Shape, a: Seq<Cell>, x: Cell, l: int, i: int, c: int)
    ensures
        load(s, a.push(x), l, i, c) == load(s, a, l, i, c) + share(s, x, l, i, c),
{
    assert(a.push(x).drop_last() =~= a);
}

/// Removing an item removes its share.
proof fn lemma_load_remove(s: Shape, items: Seq<Cell>, j: int, l: int, i: int, c: int)
    requires
        0 <= j < items.len(),
    ensures
        load(s, items.remove(j), l, i, c) == load(s, items, l, i, c) - share(s, items[j], l, i, c),
    decreases items.len(),
{
    let n = items.len() - 1;
    if j == n {
        assert(items.remove(j) =~= items.drop_last());
    } else {
        let low = items.drop_last();
        lemma_load_remove(s, low, j, l, i, c);
        assert(items.remove(j).drop_last() =~= low.remove(j));
        assert(items.remove(j).last() == items.last());
    }
}

/// Counts lie between zero and the number of items; a positive count comes from
/// some item.
proof fn lemma_count(s: Shape, items: Seq<Cell>, l: int, i: int)
    requires
        forall|j: int| 0 <= j < items.len() ==> (#[trigger] items[j])[0] == 1,
    ensures
        0 <= load(s, items, l, i, 0) <= items.len(),
        load(s, items, l, i, 0) > 0 ==> exists|j: int|
            0 <= j < items.len() && (s.place)(#[trigger] items[j])[l] == i,
        (exists|j: int| 0 <= j < items.len() && (s.place)(#[trigger] items[j])[l] == i) ==> load(
            s,
            items,
            l,
            i,
            0,
        ) > 0,
    decreases items.len(),
{
    if items.len() > 0 {
        let low = items.drop_last();
        let n = low.len() as int;
        assert forall|j: int| 0 <= j < low.len() implies (#[trigger] low[j])[0] == 1 by {
            assert(low[j] == items[j]);
        }
        lemma_count(s, low, l, i);
        assert(items[n] == items.last());
        if load(s, low, l, i, 0) > 0 {
            let j = choose|j: int| 0 <= j < low.len() && (s.place)(#[trigger] low[j])[l] == i;
            assert((s.place)(items[j])[l] == i);
        }
        if exists|j: int| 0 <= j < items.len() && (s.place)(#[trigger] items[j])[l] == i {
            let j = choose|j: int| 0 <= j < items.len() && (s.place)(#[trigger] items[j])[l] == i;
            if j < n {
                assert((s.place)(low[j])[l] == i);
            }
        }
    }
}

/// Where no item is counted, nothing is loaded.
proof fn lemma_unloaded(s: Shape, items: Seq<Cell>, l: int, i: int, c: int)
    requires
        forall|j: int| 0 <= j < items.len() ==> (s.place)(#[trigger] items[j])[l] != i,
    ensures
        load(s, items, l, i, c) == 0,
    decreases items.len(),
{
    if items.len() > 0 {
        let low = items.drop_last();
        assert forall|j: int| 0 <= j < low.len() implies (s.place)(#[trigger] low[j])[l] != i by {
            assert(low[j] == items[j]);
        }
        lemma_unloaded(s, low, l, i, c);
        assert(items[items.len() - 1] == items.last());
    }
}

proof fn lemma_small_count(s: Shape, k: int)
    requires
        s.m > 2,
        0 <= k < s.m,
    ensures
        kept(s, k) == 1 ==> k == 1,
        kept(s, k) == 0 ==> k == 0,
{
    lemma_kept(s, k);
    if kept(s, k) == 1 {
        field::lemma_cong_close(k, 1, s.m);
    }
    if kept(s, k) == 0 {
        field::lemma_cong_close(k, 0, s.m);
    }
}

/// A cell that counts one item shows that item.
pub proof fn lemma_shows(s: Shape, g: Grid, w: nat, items: Seq<Cell>, l: int, i: int) -> (j: int)
    requires
        s.m > 2,
        w >= 1,
        items.len() < s.m,
        holds(s, g, w, items),
        is_pure(g, l, i),
    ensures
        0 <= j < items.len(),
        items[j] == g[l][i],
        (s.place)(items[j])[l] == i,
{
    assert forall|t: int| 0 <= t < items.len() implies (#[trigger] items[t])[0] == 1 by {
        assert(is_item(s, g, w, items[t]));
    }
    lemma_count(s, items, l, i);
    let k = load(s, items, l, i, 0);
    assert(g[l][i][0] == kept(s, k));
    lemma_small_count(s, k);
    let j = choose|j: int| 0 <= j < items.len() && (s.place)(#[trigger] items[j])[l] == i;
    assert(is_item(s, g, w, items[j]));
    let rest = items.remove(j);
    assert forall|t: int| 0 <= t < rest.len() implies (#[trigger] rest[t])[0] == 1 by {
        let u = if t < j { t } else { t + 1 };
        assert(rest[t] == items[u]);
    }
    lemma_load_remove(s, items, j, l, i, 0);
    lemma_count(s, rest, l, i);
    assert(g[l][i].len() == w);
    assert forall|c: int| 0 <= c < w implies g[l][i][c] == items[j][c] by {
        lemma_load_remove(s, items, j, l, i, c);
        lemma_unloaded(s, rest, l, i, c);
        assert(kept(s, items[j][c]) == items[j][c]);
        assert(g[l][i][c] == kept(s, load(s, items, l, i, c)));
    }
    assert(g[l][i] =~= items[j]);
    j
}

/// Taking an item out leaves the other items.
pub proof fn lemma_take_out(s: Shape, g: Grid, w: nat, items: Seq<Cell>, j: int)
    requires
        s.m > 2,
        holds(s, g, w, items),
        0 <= j < items.len(),
    ensures
        holds(s, take_out(s, g, items[j]), w, items.remove(j)),
{
    let v = items[j];
    let t = take_out(s, g, v);
    let rest = items.remove(j);
    assert(is_item(s, g, w, v));
    assert forall|l: int| 0 <= l < g.len() implies #[trigger] t[l].len() == g[l].len() by {}
    assert forall|l: int, i: int| 0 <= l < t.len() && 0 <= i < t[l].len() implies (
    #[trigger] t[l][i]).len() == w by {
        assert(0 <= (s.place)(v)[l] < g[l].len());
        assert(g[l][i].len() == w);
    }
    assert forall|k: int| 0 <= k < rest.len() implies is_item(s, t, w, #[trigger] rest[k]) by {
        let u = if k < j { k } else { k + 1 };
        assert(rest[k] == items[u]);
        assert(is_item(s, g, w, items[u]));
        assert forall|l: int| 0 <= l < t.len() implies 0 <= #[trigger] (s.place)(rest[k])[l]
            < t[l].len() by {
            assert(0 <= (s.place)(items[u])[l] < g[l].len());
        }
    }
    assert forall|l: int, i: int, c: int|
        0 <= l < t.len() && 0 <= i < t[l].len() && 0 <= c < w implies #[trigger] t[l][i][c] == kept(
        s,
        load(s, rest, l, i, c),
    ) by {
        assert(0 <= (s.place)(v)[l] < g[l].len());
        lemma_load_remove(s, items, j, l, i, c);
        let (a, b) = (g[l][i][c], load(s, items, l, i, c));
        assert(a == kept(s, b));
        if i == (s.place)(v)[l] {
            lemma_kept(s, b);
            field::lemma_cong_ops(a, b, v[c], v[c], s.m);
            lemma_kept_cong(s, a - v[c], b - v[c]);
        }
    }
}

/// Same levels, same cells, `w` entries each.
pub open spec fn alike(g: Grid, t: Grid, w: nat) -> bool {
    &&& regular(t, w)
    &&& t.len() == g.len()
    &&& forall|l: int| 0 <= l < g.len() ==> (#[trigger] t[l]).len() == g[l].len()
}

/// `t` is `g` with item `x` added into its cell of every level.
pub open spec fn is_put(s: Shape, g: Grid, w: nat, x: Cell, t: Grid) -> bool {
    &&& alike(g, t, w)
    &&& forall|l: int, i: int, c: int|
        0 <= l < g.len() && 0 <= i < g[l].len() && 0 <= c < w ==> #[trigger] t[l][i][c] == (
        if (s.place)(x)[l] == i {
            kept(s, g[l][i][c] + x[c])
        } else {
            g[l][i][c]
        })
}

/// `t` is the entry-wise sum of `a` and `b`.
pub open spec fn is_union(s: Shape, a: Grid, b: Grid, w: nat, t: Grid) -> bool {
    &&& alike(a, t, w)
    &&& alike(a, b, w)
    &&& forall|l: int, i: int, c: int|
        0 <= l < a.len() && 0 <= i < a[l].len() && 0 <= c < w ==> #[trigger] t[l][i][c] == kept(
            s,
            a[l][i][c] + b[l][i][c],
        )
}

/// Adding an item to a table that holds `items` gives one that holds it too.
pub proof fn lemma_put_in(s: Shape, g: Grid, w: nat, items: Seq<Cell>, x: Cell, t: Grid)
    requires
        s.m > 2,
        holds(s, g, w, items),
        is_item(s, g, w, x),
        is_put(s, g, w, x, t),
    ensures
        holds(s, t, w, items.push(x)),
{
    let all = items.push(x);
    assert forall|k: int| 0 <= k < all.len() implies is_item(s, t, w, #[trigger] all[k]) by {
        assert(k < items.len() ==> is_item(s, g, w, items[k]));
        assert forall|l: int| 0 <= l < t.len() implies 0 <= #[trigger] (s.place)(all[k])[l]
            < t[l].len() by {}
    }
    assert forall|l: int, i: int, c: int|
        0 <= l < t.len() && 0 <= i < t[l].len() && 0 <= c < w implies #[trigger] t[l][i][c] == kept(
        s,
        load(s, all, l, i, c),
    ) by {
        lemma_load_push(s, items, x, l, i, c);
        let (a, b) = (g[l][i][c], load(s, items, l, i, c));
        assert(a == kept(s, b));
        if (s.place)(x)[l] == i {
            lemma_kept(s, b);
            field::lemma_cong_ops(a, b, x[c], x[c], s.m);
            lemma_kept_cong(s, a + x[c], b + x[c]);
        }
    }
}

/// The entry-wise sum of two tables holds the items of both.
pub proof fn lemma_union(
    s: Shape,
    a: Grid,
    b: Grid,
    w: nat,
    items_a: Seq<Cell>,
    items_b: Seq<Cell>,
    t: Grid,
)
    requires
        s.m > 2,
        holds(s, a, w, items_a),
        holds(s, b, w, items_b),
        is_union(s, a, b, w, t),
    ensures
        holds(s, t, w, items_a + items_b),
{
    let all = items_a + items_b;
    assert forall|k: int| 0 <= k < all.len() implies is_item(s, t, w, #[trigger] all[k]) by {
        let n = items_a.len() as int;
        let src = if k < n { a } else { b };
        if k < n {
            assert(is_item(s, a, w, items_a[k]));
        } else {
            assert(is_item(s, b, w, items_b[k - n]));
        }
        assert(is_item(s, src, w, all[k]));
        assert forall|l: int| 0 <= l < t.len() implies 0 <= #[trigger] (s.place)(all[k])[l]
            < t[l].len() by {
            assert(t[l].len() == a[l].len() && b[l].len() == a[l].len());
            assert(0 <= (s.place)(all[k])[l] < src[l].len());
        }
    }
    assert forall|l: int, i: int, c: int|
        0 <= l < t.len() && 0 <= i < t[l].len() && 0 <= c < w implies #[trigger] t[l][i][c] == kept(
        s,
        load(s, all, l, i, c),
    ) by {
        assert(t[l].len() == a[l].len() && b[l].len() == a[l].len());
        lemma_load_concat(s, items_a, items_b, l, i, c);
        let (x, y) = (load(s, items_a, l, i, c), load(s, items_b, l, i, c));
        assert(a[l][i][c] == kept(s, x) && b[l][i][c] == kept(s, y));
        lemma_kept(s, x);
        lemma_kept(s, y);
        field::lemma_cong_ops(kept(s, x), x, kept(s, y), y, s.m);
        lemma_kept_cong(s, kept(s, x) + kept(s, y), x + y);
    }
}

/// The empty table holds nothing.
pub proof fn lemma_empty(s: Shape, g: Grid, w: nat)
    requires
        s.m > 2,
        regular(g, w),
        is_clear(g),
    ensures
        holds(s, g, w, Seq::empty()),
{
    let none = Seq::<Cell>::empty();
    assert forall|l: int, i: int, c: int|
        0 <= l < g.len() && 0 <= i < g[l].len() && 0 <= c < w implies #[trigger] g[l][i][c] == kept(
        s,
        load(s, none, l, i, c),
    ) by {
        assert(g[l][i].len() == w);
        assert(g[l][i][c] == 0);
        lemma_centered_id(0, s.m);
        vstd::arithmetic::div_mod::lemma_small_mod(0, s.m as nat);
    }
}

/// Peeling a table that holds `items` shows items and leaves the rest: what was
/// shown together with what is left is exactly what was put in.
pub proof fn law_peeling_is_sound(
    s: Shape,
    g: Grid,
    w: nat,
    items: Seq<Cell>,
    steps: Seq<(int, int)>,
) -> (rest: Seq<Cell>)
    requires
        s.m > 2,
        w >= 1,
        items.len() < s.m,
        holds(s, g, w, items),
        legal(s, g, steps),
    ensures
        holds(s, after(s, g, steps), w, rest),
        items.to_multiset() == shown(s, g, steps).to_multiset().add(rest.to_multiset()),
        rest.len() + steps.len() == items.len(),
    decreases steps.len(),
{
    broadcast use vstd::seq_lib::group_to_multiset_ensures;

    if steps.len() == 0 {
        assert(shown(s, g, steps).to_multiset() =~= Multiset::empty());
        assert(items.to_multiset() =~= shown(s, g, steps).to_multiset().add(items.to_multiset()));
        items
    } else {
        let low = steps.drop_last();
        let before = law_peeling_is_sound(s, g, w, items, low);
        let p = after(s, g, low);
        let (l, i) = steps.last();
        let j = lemma_shows(s, p, w, before, l, i);
        lemma_take_out(s, p, w, before, j);
        let rest = before.remove(j);
        let (a, x) = (shown(s, g, low), p[l][i]);
        assert(rest.to_multiset() =~= before.to_multiset().remove(x));
        assert(a.push(x).to_multiset() =~= a.to_multiset().insert(x));
        assert(before.to_multiset().count(x) > 0) by {
            assert(before.contains(x));
        }
        assert(items.to_multiset() =~= shown(s, g, steps).to_multiset().add(rest.to_multiset()));
        rest
    }
}

/// A table that holds fewer than `m` items and is all zeros holds none.
pub proof fn law_clear_holds_nothing(s: Shape, g: Grid, w: nat, items: Seq<Cell>)
    requires
        s.m > 2,
        w >= 1,
        g.len() > 0,
        items.len() < s.m,
        holds(s, g, w, items),
        is_clear(g),
    ensures
        items.len() == 0,
{
    if items.len() > 0 {
        assert forall|t: int| 0 <= t < items.len() implies (#[trigger] items[t])[0] == 1 by {
            assert(is_item(s, g, w, items[t]));
        }
        let x = items[0];
        assert(is_item(s, g, w, x));
        let i = (s.place)(x)[0];
        assert(0 <= i < g[0].len());
        assert(g[0][i].len() == w);
        assert((s.place)(items[0])[0] == i);
        lemma_count(s, items, 0, i);
        assert(g[0][i][0] == 0);
        assert(g[0][i][0] == kept(s, load(s, items, 0, i, 0)));
        lemma_small_count(s, load(s, items, 0, i, 0));
    }
}

/// Taking a shown item out never meets a cell that counts none.
pub proof fn lemma_counts_positive(
    s: Shape,
    g: Grid,
    w: nat,
    items: Seq<Cell>,
    j: int,
    l: int,
)
    requires
        s.m > 2,
        w >= 1,
        items.len() < s.m,
        holds(s, g, w, items),
        0 <= j < items.len(),
        0 <= l < g.len(),
    ensures
        g[l][(s.place)(items[j])[l]][0] != 0,
{
    assert forall|t: int| 0 <= t < items.len() implies (#[trigger] items[t])[0] == 1 by {
        assert(is_item(s, g, w, items[t]));
    }
    assert(is_item(s, g, w, items[j]));
    let i = (s.place)(items[j])[l];
    lemma_count(s, items, l, i);
    assert(g[l][i][0] == kept(s, load(s, items, l, i, 0)));
    lemma_small_count(s, load(s, items, l, i, 0));
}

/// A cell whose item was taken out counts none from that moment on.
proof fn lemma_taken_is_empty(
    s: Shape,
    g: Grid,
    w: nat,
    items: Seq<Cell>,
    steps: Seq<(int, int)>,
    k: int,
) -> (rest: Seq<Cell>)
    requires
        s.m > 2,
        w >= 1,
        items.len() < s.m,
        holds(s, g, w, items),
        legal(s, g, steps),
        0 <= k < steps.len(),
    ensures
        holds(s, after(s, g, steps), w, rest),
        rest.len() < s.m,
        load(s, rest, steps[k].0, steps[k].1, 0) == 0,
    decreases steps.len(),
{
    let low = steps.drop_last();
    let p = after(s, g, low);
    let (l, i) = steps.last();
    let (tl, ti) = steps[k];
    let n = low.len() as int;
    let before = if k < n {
        assert(low[k] == steps[k]);
        lemma_taken_is_empty(s, g, w, items, low, k)
    } else {
        law_peeling_is_sound(s, g, w, items, low)
    };
    let j = lemma_shows(s, p, w, before, l, i);
    lemma_take_out(s, p, w, before, j);
    let rest = before.remove(j);
    assert forall|t: int| 0 <= t < before.len() implies (#[trigger] before[t])[0] == 1 by {
        assert(is_item(s, p, w, before[t]));
    }
    assert forall|t: int| 0 <= t < rest.len() implies (#[trigger] rest[t])[0] == 1 by {
        let u = if t < j { t } else { t + 1 };
        assert(rest[t] == before[u]);
    }
    lemma_load_remove(s, before, j, tl, ti, 0);
    lemma_count(s, rest, tl, ti);
    if k == n {
        lemma_count(s, before, l, i);
        assert(p[l][i][0] == kept(s, load(s, before, l, i, 0)));
        lemma_small_count(s, load(s, before, l, i, 0));
    }
    rest
}

/// Peeling a table that holds fewer than `m` items until every cell that counts
/// one has been taken leaves no cell that counts one.
pub proof fn law_peeling_gets_stuck(
    s: Shape,
    g: Grid,
    w: nat,
    items: Seq<Cell>,
    steps: Seq<(int, int)>,
)
    requires
        s.m > 2,
        w >= 1,
        items.len() < s.m,
        holds(s, g, w, items),
        legal(s, g, steps),
        forall|l: int, i: int|
            #[trigger] is_pure(after(s, g, steps), l, i) ==> steps.contains((l, i)),
    ensures
        stuck(after(s, g, steps)),
{
    let t = after(s, g, steps);
    assert forall|l: int, i: int| !#[trigger] is_pure(t, l, i) by {
        if is_pure(t, l, i) {
            let k = choose|k: int| 0 <= k < steps.len() && steps[k] == (l, i);
            let rest = lemma_taken_is_empty(s, g, w, items, steps, k);
            assert(t[l][i].len() == w);
            assert(t[l][i][0] == kept(s, load(s, rest, l, i, 0)));
            lemma_small_count(s, 1);
            lemma_kept(s, 0);
            if kept(s, 0) == 1 {
                field::lemma_cong_close(1, 0, s.m);
            }
        }
    }
}

/// Sum of the counts of some cells.
pub open spec fn tally_row(row: Seq<Cell>) -> int
    decreases row.len(),
{
    if row.len() == 0 {
        0
    } else {
        tally_row(row.drop_last()) + row.last()[0]
    }
}

/// Replacing a cell changes the tally by the change of its count.
pub proof fn lemma_tally_update(row: Seq<Cell>, i: int, x: Cell)
    requires
        0 <= i < row.len(),
    ensures
        tally_row(row.update(i, x)) == tally_row(row) - row[i][0] + x[0],
    decreases row.len(),
{
    let n = row.len() - 1;
    let low = row.drop_last();
    if i == n {
        assert(row.update(i, x).drop_last() =~= low);
    } else {
        lemma_tally_update(low, i, x);
        assert(row.update(i, x).drop_last() =~= low.update(i, x));
    }
}

/// A tally of counts that are not negative is not negative.
pub proof fn lemma_tally_nonnegative(row: Seq<Cell>)
    requires
        forall|i: int| 0 <= i < row.len() ==> (#[trigger] row[i])[0] >= 0,
    ensures
        tally_row(row) >= 0,
    decreases row.len(),
{
    if row.len() > 0 {
        let low = row.drop_last();
        assert forall|i: int| 0 <= i < low.len() implies (#[trigger] low[i])[0] >= 0 by {
            assert(low[i] == row[i]);
        }
        lemma_tally_nonnegative(low);
        assert(row[row.len() - 1][0] >= 0);
    }
}

/// Sequences with the same items, mapped, have the same items.
pub proof fn lemma_map_multiset<A, B>(a: Seq<A>, b: Seq<A>, f: spec_fn(A) -> B)
    requires
        a.to_multiset() == b.to_multiset(),
    ensures
        a.map_values(f).to_multiset() == b.map_values(f).to_multiset(),
    decreases a.len(),
{
    broadcast use vstd::seq_lib::group_to_multiset_ensures;

    assert(a.len() == a.to_multiset().len() && b.len() == b.to_multiset().len());
    if a.len() == 0 {
        assert(a.map_values(f) =~= b.map_values(f));
    } else {
        let n = a.len() - 1;
        let x = a[n];
        assert(a.contains(x));
        assert(a.to_multiset().count(x) > 0);
        assert(b.contains(x));
        let j = choose|j: int| 0 <= j < b.len() && b[j] == x;
        let (p, r) = (a.drop_last(), b.remove(j));
        assert(p =~= a.remove(n));
        lemma_map_multiset(p, r, f);
        let (am, bm) = (a.map_values(f), b.map_values(f));
        assert(am.remove(n) =~= p.map_values(f));
        assert(bm.remove(j) =~= r.map_values(f));
        assert(am.contains(f(x))) by {
            assert(am[n] == f(x));
        }
        assert(bm.contains(f(x))) by {
            assert(bm[j] == f(x));
        }
        assert(am.to_multiset() =~= am.remove(n).to_multiset().insert(f(x)));
        assert(bm.to_multiset() =~= bm.remove(j).to_multiset().insert(f(x)));
    }
}

/// As [`law_peeling_is_sound`], read through `f`.
pub proof fn lemma_peeled_values<B>(
    items: Seq<Cell>,
    shown_items: Seq<Cell>,
    rest: Seq<Cell>,
    f: spec_fn(Cell) -> B,
)
    requires
        items.to_multiset() == shown_items.to_multiset().add(rest.to_multiset()),
    ensures
        items.map_values(f).to_multiset() == shown_items.map_values(f).to_multiset().add(
            rest.map_values(f).to_multiset(),
        ),
{
    broadcast use vstd::seq_lib::group_to_multiset_ensures;

    let both = shown_items + rest;
    vstd::seq_lib::lemma_multiset_commutative(shown_items, rest);
    lemma_map_multiset(items, both, f);
    let (a, b) = (shown_items.map_values(f), rest.map_values(f));
    vstd::seq_lib::lemma_multiset_commutative(a, b);
    assert(both.map_values(f) =~= a + b);
}

// ---------------------------------------------------------------
// Order and representatives
// ---------------------------------------------------------------

proof fn lemma_load_multiset(s: Shape, a: Seq<Cell>, b: Seq<Cell>, l: int, i: int, c: int)
    requires
        a.to_multiset() == b.to_multiset(),
    ensures
        load(s, a, l, i, c) == load(s, b, l, i, c),
    decreases a.len(),
{
    broadcast use vstd::seq_lib::group_to_multiset_ensures;

    assert(a.len() == a.to_multiset().len() && b.len() == b.to_multiset().len());
    if a.len() > 0 {
        let n = a.len() - 1;
        let x = a[n];
        assert(a.contains(x));
        assert(a.to_multiset().count(x) > 0);
        assert(b.contains(x));
        let j = choose|j: int| 0 <= j < b.len() && b[j] == x;
        assert(a.drop_last() =~= a.remove(n));
        lemma_load_multiset(s, a.drop_last(), b.remove(j), l, i, c);
        lemma_load_remove(s, b, j, l, i, c);
    }
}

/// Tables of the same dimensions that hold the same items, in whatever order
/// they were put in, are equal.
pub proof fn law_order_does_not_matter(
    s: Shape,
    g: Grid,
    h: Grid,
    w: nat,
    a: Seq<Cell>,
    b: Seq<Cell>,
)
    requires
        holds(s, g, w, a),
        holds(s, h, w, b),
        alike(g, h, w),
        a.to_multiset() == b.to_multiset(),
    ensures
        g == h,
{
    assert forall|l: int| 0 <= l < g.len() implies #[trigger] g[l] == h[l] by {
        assert(h[l].len() == g[l].len());
        assert forall|i: int| 0 <= i < g[l].len() implies #[trigger] g[l][i] == h[l][i] by {
            assert(g[l][i].len() == w && h[l][i].len() == w);
            assert forall|c: int| 0 <= c < w implies #[trigger] g[l][i][c] == h[l][i][c] by {
                lemma_load_multiset(s, a, b, l, i, c);
                assert(h[l][i][c] == kept(s, load(s, b, l, i, c)));
            }
            assert(g[l][i] =~= h[l][i]);
        }
        assert(g[l] =~= h[l]);
    }
    assert(g =~= h);
}

/// `v` and `u` stand for the same entries, and are equal where either counts no
/// item or one.
pub open spec fn same_count(s: Shape, v: Cell, u: Cell, w: nat) -> bool {
    &&& v.len() == w
    &&& u.len() == w
    &&& (v[0] == 0 || v[0] == 1 || u[0] == 0 || u[0] == 1 ==> v == u)
    &&& forall|c: int| 0 <= c < w ==> #[trigger] kept(s, v[c]) == kept(s, u[c])
}

/// Every cell of `w` entries has a place in every level.
pub open spec fn all_placed(s: Shape, g: Grid, w: nat) -> bool {
    forall|v: Cell, l: int|
        v.len() == w && 0 <= l < g.len() ==> 0 <= #[trigger] (s.place)(v)[l] < g[l].len()
}

/// Two tables of the same dimensions, cell by cell.
pub open spec fn same_counts(s: Shape, g: Grid, h: Grid, w: nat) -> bool {
    &&& h.len() == g.len()
    &&& forall|l: int| 0 <= l < g.len() ==> (#[trigger] h[l]).len() == g[l].len()
    &&& forall|l: int, i: int|
        0 <= l < g.len() && 0 <= i < g[l].len() ==> same_count(s, #[trigger] g[l][i], h[l][i], w)
}

proof fn lemma_same_lessened(s: Shape, g: Grid, h: Grid, w: nat, v: Cell, l: int, i: int)
    requires
        s.m > 2,
        v.len() == w,
        same_count(s, g[l][i], h[l][i], w),
    ensures
        lessened(s, g, v, l, i) == lessened(s, h, v, l, i),
{
    let (x, y) = (lessened(s, g, v, l, i), lessened(s, h, v, l, i));
    assert forall|c: int| 0 <= c < w implies #[trigger] x[c] == y[c] by {
        let (p, q) = (g[l][i][c], h[l][i][c]);
        assert(kept(s, g[l][i][c]) == kept(s, h[l][i][c]));
        lemma_kept(s, p);
        lemma_kept(s, q);
        field::lemma_cong_ops(p, kept(s, p), v[c], v[c], s.m);
        field::lemma_cong_ops(q, kept(s, q), v[c], v[c], s.m);
        lemma_kept_cong(s, p - v[c], kept(s, p) - v[c]);
        lemma_kept_cong(s, q - v[c], kept(s, q) - v[c]);
    }
    assert(x =~= y);
}

proof fn lemma_same_step(s: Shape, g: Grid, h: Grid, w: nat, v: Cell)
    requires
        s.m > 2,
        same_counts(s, g, h, w),
        all_placed(s, g, w),
        v.len() == w,
        w >= 1,
    ensures
        same_counts(s, take_out(s, g, v), take_out(s, h, v), w),
        all_placed(s, take_out(s, g, v), w),
{
    let (a, b) = (take_out(s, g, v), take_out(s, h, v));
    assert forall|l: int| 0 <= l < a.len() implies (#[trigger] b[l]).len() == a[l].len()
        && a[l].len() == g[l].len() by {
        assert(h[l].len() == g[l].len());
        assert(0 <= (s.place)(v)[l] < g[l].len());
    }
    assert forall|l: int, i: int| 0 <= l < a.len() && 0 <= i < a[l].len() implies same_count(
        s,
        #[trigger] a[l][i],
        b[l][i],
        w,
    ) by {
        assert(h[l].len() == g[l].len() && b[l].len() == a[l].len());
        assert(0 <= (s.place)(v)[l] < g[l].len());
        assert(same_count(s, g[l][i], h[l][i], w));
        if i == (s.place)(v)[l] {
            lemma_same_lessened(s, g, h, w, v, l, i);
        }
    }
}

/// Peeling either of two such tables takes the same cells, shows the same and
/// clears the same.
pub proof fn law_representatives_do_not_matter(
    s: Shape,
    g: Grid,
    h: Grid,
    w: nat,
    steps: Seq<(int, int)>,
)
    requires
        s.m > 2,
        w >= 1,
        same_counts(s, g, h, w),
        all_placed(s, g, w),
    ensures
        legal(s, g, steps) <==> legal(s, h, steps),
        legal(s, g, steps) ==> shown(s, g, steps) == shown(s, h, steps),
        legal(s, g, steps) ==> same_counts(s, after(s, g, steps), after(s, h, steps), w),
        legal(s, g, steps) ==> all_placed(s, after(s, g, steps), w),
    decreases steps.len(),
{
    if steps.len() > 0 {
        let low = steps.drop_last();
        law_representatives_do_not_matter(s, g, h, w, low);
        if legal(s, g, low) {
            let (a, b) = (after(s, g, low), after(s, h, low));
            let (l, i) = steps.last();
            if 0 <= l < a.len() && 0 <= i < a[l].len() {
                assert(b[l].len() == a[l].len());
                assert(same_count(s, a[l][i], b[l][i], w));
                if a[l][i][0] == 1 {
                    lemma_same_step(s, a, b, w, a[l][i]);
                }
            } else if 0 <= l < a.len() {
                assert(b[l].len() == a[l].len());
            }
        }
    }
}

proof fn lemma_same_level(s: Shape, g: Grid, h: Grid, w: nat, l: int, n: nat)
    requires
        same_counts(s, g, h, w),
        0 <= l < g.len(),
        n <= g[l].len(),
    ensures
        pure_in_level(g, l, n) == pure_in_level(h, l, n),
    decreases n,
{
    if n > 0 {
        lemma_same_level(s, g, h, w, l, (n - 1) as nat);
        assert(same_count(s, g[l][n - 1], h[l][n - 1], w));
    }
}

/// The same cells of two such tables count one item.
pub proof fn lemma_same_order(s: Shape, g: Grid, h: Grid, w: nat, n: nat)
    requires
        same_counts(s, g, h, w),
        n <= g.len(),
    ensures
        pure_in_order(g, n) == pure_in_order(h, n),
    decreases n,
{
    if n > 0 {
        lemma_same_order(s, g, h, w, (n - 1) as nat);
        assert(h[n - 1].len() == g[n - 1].len());
        lemma_same_level(s, g, h, w, n - 1, g[n - 1].len());
    }
}

/// Taking an item out of two such tables bares the same cells.
pub proof fn lemma_same_bared(s: Shape, g: Grid, h: Grid, w: nat, v: Cell, n: nat)
    requires
        s.m > 2,
        same_counts(s, g, h, w),
        all_placed(s, g, w),
        v.len() == w,
        n <= g.len(),
    ensures
        bared(s, g, v, n) == bared(s, h, v, n),
    decreases n,
{
    if n > 0 {
        lemma_same_bared(s, g, h, w, v, (n - 1) as nat);
        let at = (s.place)(v)[n - 1];
        assert(0 <= at < g[n - 1].len());
        assert(same_count(s, g[n - 1][at], h[n - 1][at], w));
        lemma_same_lessened(s, g, h, w, v, n - 1, at);
    }
}

/// A cell of a table that holds fewer items than the modulus keeps their exact
/// number; where it is zero, so are all entries.
pub proof fn lemma_exact_counts(
    s: Shape,
    g: Grid,
    w: nat,
    items: Seq<Cell>,
    l: int,
    i: int,
) -> (k: int)
    requires
        s.m > 2,
        w >= 1,
        holds(s, g, w, items),
        items.len() < s.m,
        0 <= l < g.len(),
        0 <= i < g[l].len(),
    ensures
        0 <= k <= items.len(),
        g[l][i][0] == kept(s, k),
        k == 0 ==> forall|c: int| 0 <= c < w ==> #[trigger] g[l][i][c] == 0,
{
    assert forall|j: int| 0 <= j < items.len() implies (#[trigger] items[j])[0] == 1 by {
        assert(is_item(s, g, w, items[j]));
    }
    lemma_count(s, items, l, i);
    let k = load(s, items, l, i, 0);
    assert(g[l][i][0] == kept(s, k));
    if k == 0 {
        assert forall|c: int| 0 <= c < w implies #[trigger] g[l][i][c] == 0 by {
            assert forall|j: int| 0 <= j < items.len() implies (s.place)(#[trigger] items[j])[l]
                != i by {}
            lemma_unloaded(s, items, l, i, c);
            lemma_exact(s, 0);
        }
    }
    k
}

/// Half the modulus is out of reach: a small count is kept as it is.
pub proof fn lemma_exact(s: Shape, k: int)
    requires
        s.m > 2,
        0 <= k,
        2 * k < s.m,
    ensures
        kept(s, k) == k,
{
    if s.signed {
        crate::negacyclic::lemma_centered_id(k, s.m);
    } else {
        vstd::arithmetic::div_mod::lemma_small_mod(k as nat, s.m as nat);
    }
}

// ---------------------------------------------------------------
// When everything comes out
// ---------------------------------------------------------------

/// A cell that no item is in holds nothing.
proof fn lemma_load_none(s: Shape, items: Seq<Cell>, l: int, i: int, c: int)
    requires
        forall|j: int| 0 <= j < items.len() ==> (s.place)(#[trigger] items[j])[l] != i,
    ensures
        load(s, items, l, i, c) == 0,
    decreases items.len(),
{
    if items.len() > 0 {
        let low = items.drop_last();
        assert forall|j: int| 0 <= j < low.len() implies (s.place)(#[trigger] low[j])[l] != i by {
            assert(low[j] == items[j]);
        }
        lemma_load_none(s, low, l, i, c);
        assert((s.place)(items[items.len() - 1])[l] != i);
    }
}

proof fn lemma_levels_stay(s: Shape, g: Grid, steps: Seq<(int, int)>)
    ensures
        after(s, g, steps).len() == g.len(),
    decreases steps.len(),
{
    if steps.len() > 0 {
        lemma_levels_stay(s, g, steps.drop_last());
    }
}

/// An item that is the only one in its cell is all that the cell holds.
proof fn lemma_load_single(s: Shape, items: Seq<Cell>, l: int, i: int, c: int, at: int)
    requires
        0 <= at < items.len(),
        forall|j: int|
            0 <= j < items.len() ==> ((s.place)(#[trigger] items[j])[l] == i <==> j == at),
    ensures
        load(s, items, l, i, c) == items[at][c],
    decreases items.len(),
{
    let low = items.drop_last();
    let n = low.len() as int;
    assert((s.place)(items[n])[l] == i <==> n == at);
    if at < n {
        assert forall|j: int| 0 <= j < low.len() implies ((s.place)(#[trigger] low[j])[l] == i <==> j
            == at) by {
            assert(low[j] == items[j]);
        }
        lemma_load_single(s, low, l, i, c, at);
        assert(low[at] == items[at]);
    } else {
        assert forall|j: int| 0 <= j < low.len() implies (s.place)(#[trigger] low[j])[l] != i by {
            assert(low[j] == items[j]);
        }
        lemma_load_none(s, low, l, i, c);
    }
}

/// The first of the items that are left.
proof fn lemma_first_left(items: Seq<Cell>, rest: Seq<Cell>, k: int) -> (first: int)
    requires
        0 <= k < items.len(),
        rest.contains(items[k]),
    ensures
        0 <= first <= k,
        rest.contains(items[first]),
        forall|j: int| 0 <= j < first ==> !rest.contains(#[trigger] items[j]),
    decreases k,
{
    if exists|j: int| 0 <= j < k && rest.contains(#[trigger] items[j]) {
        let j = choose|j: int| 0 <= j < k && rest.contains(#[trigger] items[j]);
        lemma_first_left(items, rest, j)
    } else {
        k
    }
}

/// A table comes out whole whenever its items can be listed so that each is, in
/// some level, in a cell that no later one is in: then any run that goes on until
/// no cell counts one item shows all of them and leaves the table clear.
pub proof fn law_peelable_tables_clear(
    s: Shape,
    g: Grid,
    w: nat,
    items: Seq<Cell>,
    level: Seq<int>,
    steps: Seq<(int, int)>,
)
    requires
        s.m > 2,
        w >= 1,
        items.len() < s.m,
        holds(s, g, w, items),
        legal(s, g, steps),
        stuck(after(s, g, steps)),
        level.len() == items.len(),
        forall|k: int| 0 <= k < level.len() ==> 0 <= #[trigger] level[k] < g.len(),
        forall|k: int, j: int|
            0 <= k < j < items.len() ==> (s.place)(#[trigger] items[j])[level[k]] != (s.place)(
                #[trigger] items[k],
            )[level[k]],
    ensures
        steps.len() == items.len(),
        shown(s, g, steps).to_multiset() == items.to_multiset(),
        is_clear(after(s, g, steps)),
{
    broadcast use vstd::seq_lib::group_to_multiset_ensures;

    let rest = law_peeling_is_sound(s, g, w, items, steps);
    let t = after(s, g, steps);
    lemma_levels_stay(s, g, steps);
    if rest.len() > 0 {
        assert forall|r: int| 0 <= r < rest.len() implies items.contains(#[trigger] rest[r]) by {
            assert(rest.contains(rest[r]));
            assert(rest.to_multiset().count(rest[r]) > 0);
            assert(items.to_multiset().count(rest[r]) > 0);
        }
        let x = rest[0];
        assert(items.contains(x));
        let k0 = choose|k: int| 0 <= k < items.len() && items[k] == x;
        assert(rest.contains(items[k0]));
        let k = lemma_first_left(items, rest, k0);
        let (l, y) = (level[k], items[k]);
        let i = (s.place)(y)[l];
        let at = choose|at: int| 0 <= at < rest.len() && rest[at] == y;
        lemma_once(items, level, s, k);
        assert forall|r: int| 0 <= r < rest.len() implies ((s.place)(#[trigger] rest[r])[l] == i
            <==> r == at) by {
            assert(items.contains(rest[r]));
            let j = choose|j: int| 0 <= j < items.len() && items[j] == rest[r];
            assert(rest.contains(items[j]));
            if j < k {
                assert(!rest.contains(items[j]));
            }
            if j > k {
                assert((s.place)(items[j])[level[k]] != (s.place)(items[k])[level[k]]);
            } else if r != at {
                lemma_twice(rest, r, at);
                assert(rest.to_multiset().count(y) <= items.to_multiset().count(y));
            }
        }
        assert(is_item(s, t, w, rest[at]));
        lemma_load_single(s, rest, l, i, 0, at);
        assert(0 <= (s.place)(rest[at])[l] < t[l].len());
        assert(t[l][i].len() == w);
        assert(t[l][i][0] == kept(s, load(s, rest, l, i, 0)));
        assert(kept(s, rest[at][0]) == rest[at][0]);
        assert(is_pure(t, l, i));
    }
    assert(rest.len() == 0);
    assert(rest.to_multiset() =~= Multiset::empty());
    assert(shown(s, g, steps).to_multiset() =~= items.to_multiset());
    assert forall|l: int, i: int, c: int|
        0 <= l < t.len() && 0 <= i < t[l].len() && 0 <= c < t[l][i].len() implies
        #[trigger] t[l][i][c] == 0 by {
        assert(t[l][i].len() == w);
        assert(t[l][i][c] == kept(s, load(s, rest, l, i, c)));
        lemma_centered(0, s.m);
        field::lemma_small(0, s.m);
    }
}

/// In such a list no item comes twice.
proof fn lemma_once(items: Seq<Cell>, level: Seq<int>, s: Shape, k: int)
    requires
        0 <= k < items.len(),
        level.len() == items.len(),
        forall|k: int, j: int|
            0 <= k < j < items.len() ==> (s.place)(#[trigger] items[j])[level[k]] != (s.place)(
                #[trigger] items[k],
            )[level[k]],
    ensures
        items.to_multiset().count(items[k]) <= 1,
{
    assert(items.no_duplicates()) by {
        assert forall|a: int, b: int|
            0 <= a < items.len() && 0 <= b < items.len() && a != b implies items[a] != items[b] by {
            let (x, y) = if a < b { (a, b) } else { (b, a) };
            assert((s.place)(items[y])[level[x]] != (s.place)(items[x])[level[x]]);
        }
    }
    items.lemma_multiset_has_no_duplicates();
}

/// A value in two places counts twice.
proof fn lemma_twice(s: Seq<Cell>, a: int, b: int)
    requires
        0 <= a < s.len(),
        0 <= b < s.len(),
        a != b,
        s[a] == s[b],
    ensures
        s.to_multiset().count(s[a]) >= 2,
{
    broadcast use vstd::seq_lib::group_to_multiset_ensures;

    let x = s[a];
    let low = s.remove(a);
    let at = if b < a { b } else { b - 1 };
    assert(low[at] == x);
    assert(low.contains(x));
    assert(s =~= low.insert(a, x));
    assert(s.to_multiset() =~= low.to_multiset().insert(x));
}

} // verus!
