//! What the sum of many contributions decodes to.

use crate::bulletin::{
    ClientBulletinEntry, RsClientBulletinEntry, RsNodeBulletinEntry, ServerBulletinEntry,
};
use crate::channel::{
    is_packed_sketch, is_packed_table, is_unpacked_sketch, is_unpacked_table, lists, peels,
    refuses, resolves, ChannelError, ChannelParams,
};
use crate::cs::Opening;
use crate::field::{self, cong};
use crate::fpoly::ints;
use crate::hvc::hvc_sum;
use crate::kahe::message_sum;
use crate::mse::{
    bucket_of, item, lemma_grid, lemma_position, position, run_payloads, shape, shown_payload,
    tag_of, width, MseEncoding, MseParams, T,
};
use crate::negacyclic::{
    centered_half_open, lemma_centered, lemma_centered_cong, lemma_centered_id, N,
};
use crate::newton::{moment, power_sum};
use crate::peel::{
    after, holds, is_clear, is_item, kept, law_clear_holds_nothing, law_peeling_is_sound, legal,
    lemma_kept, lemma_kept_cong, lemma_load_push, lemma_map_multiset, lessened, load, share, shown,
    take_out, Cell, Grid, Shape,
};
use crate::prony::{
    law_honest_sketch_decodes, lemma_moment_append, lemma_power_sum_append, lemma_row_fits,
    lemma_sizes, paired, reduced, symbol, PronyParams, PronySketch,
};
use crate::protocol::honest::{
    all_honest, all_honest_servers, all_posted, law_honest_round, messages, sums_fit, HonestClient,
};
use crate::protocol::roster::distinct_count;
use crate::protocol::sharded::{
    all_honest_lanes, all_honest_sharded, all_signed, bases, law_honest_sharded_round, totals_fit,
    ShardedClient,
};
use crate::protocol::verify::{
    chosen_ctxts, direct_fault, is_plaintext, lanes_decrypt, recovered_key, rs_fault, signed_roots,
    summed,
};
use crate::protocol::{ClientId, ProtocolParams, SessionId};
use crate::rings::{KahePoly, KAHE_MODULUS};
use crate::rs::Share;
use crate::share_commitment::SharePath;
use vstd::prelude::*;

verus! {

/// One client's contribution: what it carries, if anything, and its
/// polynomials.
pub struct SketchPart {
    pub polys: Seq<KahePoly>,
    pub carried: Option<(PronySketch, int, Seq<i64>)>,
}

/// The polynomials carry the payload at its point, or are all zero.
pub open spec fn is_sketch_part(q: PronyParams, c: SketchPart) -> bool {
    match c.carried {
        Some((t, z, x)) => {
            &&& t.params == q
            &&& 0 < z < q.p
            &&& reduced(x, q)
            &&& t.encodes(seq![z], seq![x])
            &&& is_packed_sketch(t, c.polys)
        },
        None => forall|pos: int, k: int|
            0 <= pos < (q.scalars() + 2047) / 2048 && 0 <= k < N ==> #[trigger] c.polys[pos]@[k]
                == 0,
    }
}

/// The points used.
pub open spec fn points_used(parts: Seq<SketchPart>) -> Seq<int>
    decreases parts.len(),
{
    if parts.len() == 0 {
        Seq::empty()
    } else {
        match parts.last().carried {
            Some((_t, z, _x)) => points_used(parts.drop_last()).push(z),
            None => points_used(parts.drop_last()),
        }
    }
}

/// The payloads carried.
pub open spec fn payloads_sent(parts: Seq<SketchPart>) -> Seq<Seq<i64>>
    decreases parts.len(),
{
    if parts.len() == 0 {
        Seq::empty()
    } else {
        match parts.last().carried {
            Some((_t, _z, x)) => payloads_sent(parts.drop_last()).push(x),
            None => payloads_sent(parts.drop_last()),
        }
    }
}

/// The sum of the contributions at one coefficient.
pub open spec fn contribution_sum(parts: Seq<SketchPart>, pos: int, k: int) -> int
    decreases parts.len(),
{
    if parts.len() == 0 {
        0
    } else {
        contribution_sum(parts.drop_last(), pos, k) + parts.last().polys[pos]@[k]
    }
}

/// `total` is the sum of the contributions as decryption reads it.
pub open spec fn is_read_sum(
    q: PronyParams,
    parts: Seq<SketchPart>,
    total: Seq<KahePoly>,
) -> bool {
    forall|pos: int, k: int|
        0 <= pos < (q.scalars() + 2047) / 2048 && 0 <= k < N ==> #[trigger] total[pos]@[k]
            == centered_half_open(contribution_sum(parts, pos, k), q.p as int)
}

proof fn lemma_sent(q: PronyParams, parts: Seq<SketchPart>)
    requires
        forall|i: int| 0 <= i < parts.len() ==> is_sketch_part(q, #[trigger] parts[i]),
    ensures
        points_used(parts).len() == payloads_sent(parts).len(),
        points_used(parts).len() <= parts.len(),
        forall|i: int|
            0 <= i < points_used(parts).len() ==> 0 < #[trigger] points_used(parts)[i] < q.p,
        forall|i: int|
            0 <= i < payloads_sent(parts).len() ==> reduced(#[trigger] payloads_sent(parts)[i], q),
    decreases parts.len(),
{
    if parts.len() > 0 {
        let low = parts.drop_last();
        assert forall|i: int| 0 <= i < low.len() implies is_sketch_part(q, #[trigger] low[i]) by {
            assert(is_sketch_part(q, parts[i]));
        }
        lemma_sent(q, low);
        assert(is_sketch_part(q, parts[parts.len() - 1]));
    }
}

/// A packed coefficient is the entry it stands for.
proof fn lemma_packed_entry(q: PronyParams, c: SketchPart, j: int)
    requires
        q.valid(),
        is_sketch_part(q, c),
        0 <= j < q.scalars(),
    ensures
        0 <= j / 2048 < (q.scalars() + 2047) / 2048,
        c.carried matches Some((t, _z, _x)) ==> c.polys[j / 2048]@[j % 2048] == t.flat_at(j),
        c.carried is None ==> c.polys[j / 2048]@[j % 2048] == 0,
{
    let (a, b) = (j / 2048, j % 2048);
    assert(a * N + b == j);
    if let Some((t, _z, _x)) = c.carried {
        assert(c.polys[a].coeffs[b] == t.flat_at(a * N + b));
        assert(c.polys[a]@[b] == c.polys[a].coeffs[b]);
    } else {
        assert(c.polys[a]@[b] == 0);
    }
}

proof fn lemma_power_sums(q: PronyParams, parts: Seq<SketchPart>, j: int)
    requires
        q.valid(),
        forall|i: int| 0 <= i < parts.len() ==> is_sketch_part(q, #[trigger] parts[i]),
        0 <= j <= q.columns(),
        0 <= j < q.scalars(),
    ensures
        cong(
            contribution_sum(parts, j / 2048, j % 2048),
            power_sum(points_used(parts), j as nat),
            q.p as int,
        ),
    decreases parts.len(),
{
    let p = q.p as int;
    if parts.len() > 0 {
        let (low, c) = (parts.drop_last(), parts.last());
        assert forall|i: int| 0 <= i < low.len() implies is_sketch_part(q, #[trigger] low[i]) by {
            assert(is_sketch_part(q, parts[i]));
        }
        lemma_power_sums(q, low, j);
        assert(is_sketch_part(q, parts[parts.len() - 1]));
        lemma_packed_entry(q, c, j);
        let (s, v) = (contribution_sum(low, j / 2048, j % 2048), c.polys[j / 2048]@[j % 2048]);
        match c.carried {
            Some((t, z, _x)) => {
                let zs = points_used(low);
                assert(zs.push(z) =~= zs + seq![z]);
                lemma_power_sum_append(zs, seq![z], j as nat);
                assert(cong(t.s[j] as int, power_sum(seq![z], j as nat), p));
                field::lemma_cong_ops(
                    s,
                    power_sum(zs, j as nat),
                    v,
                    power_sum(seq![z], j as nat),
                    p,
                );
            },
            None => {},
        }
    }
}

proof fn lemma_moments(q: PronyParams, parts: Seq<SketchPart>, sym: int, j: int, at: int)
    requires
        q.valid(),
        forall|i: int| 0 <= i < parts.len() ==> is_sketch_part(q, #[trigger] parts[i]),
        0 <= sym < q.payload_symbols,
        0 <= j < q.columns(),
        at == q.columns() + 1 + sym * q.columns() + j,
        at < q.scalars(),
    ensures
        cong(
            contribution_sum(parts, at / 2048, at % 2048),
            moment(symbol(payloads_sent(parts), sym), points_used(parts), j as nat),
            q.p as int,
        ),
    decreases parts.len(),
{
    let p = q.p as int;
    let c0 = q.columns();
    assert(sym * c0 >= 0) by (nonlinear_arith)
        requires
            sym >= 0,
            c0 >= 0,
    ;
    if parts.len() > 0 {
        let (low, c) = (parts.drop_last(), parts.last());
        assert forall|i: int| 0 <= i < low.len() implies is_sketch_part(q, #[trigger] low[i]) by {
            assert(is_sketch_part(q, parts[i]));
        }
        lemma_moments(q, low, sym, j, at);
        assert(is_sketch_part(q, parts[parts.len() - 1]));
        lemma_packed_entry(q, c, at);
        let (s, v) = (contribution_sum(low, at / 2048, at % 2048), c.polys[at / 2048]@[at % 2048]);
        match c.carried {
            Some((t, z, x)) => {
                let (zs, xs) = (points_used(low), payloads_sent(low));
                lemma_sent(q, low);
                assert(zs.push(z) =~= zs + seq![z]);
                assert(xs.push(x) =~= xs + seq![x]);
                lemma_moment_append(xs, seq![x], zs, seq![z], sym, j as nat);
                vstd::arithmetic::div_mod::lemma_fundamental_div_mod_converse(
                    sym * c0 + j,
                    c0,
                    sym,
                    j,
                );
                assert(at - c0 - 1 == sym * c0 + j);
                assert(t.flat_at(at) == t.w[sym][j]);
                assert(cong(
                    t.w[sym][j] as int,
                    moment(symbol(seq![x], sym), seq![z], j as nat),
                    p,
                ));
                field::lemma_cong_ops(
                    s,
                    moment(symbol(xs, sym), zs, j as nat),
                    v,
                    moment(symbol(seq![x], sym), seq![z], j as nat),
                    p,
                );
            },
            None => {},
        }
    }
}

/// The entries read are congruent to the sums.
proof fn lemma_read_entry(
    q: PronyParams,
    parts: Seq<SketchPart>,
    total: Seq<KahePoly>,
    t: PronySketch,
    j: int,
)
    requires
        q.valid(),
        q.p <= crate::prony::DECODE_LIMIT,
        is_read_sum(q, parts, total),
        is_unpacked_sketch(t, q, total),
        0 <= j < q.scalars(),
    ensures
        cong(
            t.flat_at(j) as int,
            contribution_sum(parts, j / 2048, j % 2048),
            q.p as int,
        ),
{
    let (a, b, p) = (j / 2048, j % 2048, q.p as int);
    let s = contribution_sum(parts, a, b);
    assert(total[a]@[b] == centered_half_open(s, p));
    lemma_centered(s, p);
    lemma_centered_id(centered_half_open(s, p), KAHE_MODULUS as int);
}

proof fn lemma_total_encodes(
    q: PronyParams,
    parts: Seq<SketchPart>,
    total: Seq<KahePoly>,
    t: PronySketch,
)
    requires
        q.valid(),
        q.p <= crate::prony::DECODE_LIMIT,
        forall|i: int| 0 <= i < parts.len() ==> is_sketch_part(q, #[trigger] parts[i]),
        is_read_sum(q, parts, total),
        is_unpacked_sketch(t, q, total),
    ensures
        t.encodes(points_used(parts), payloads_sent(parts)),
{
    let p = q.p as int;
    let (zs, xs) = (points_used(parts), payloads_sent(parts));
    lemma_sizes(q);
    lemma_sent(q, parts);
    let c = q.columns();
    assert(q.payload_symbols * c >= 0) by (nonlinear_arith)
        requires
            c >= 0,
            q.payload_symbols >= 0,
    ;
    assert forall|j: int| 0 <= j <= c implies cong(
        #[trigger] t.s[j] as int,
        power_sum(zs, j as nat),
        p,
    ) by {
        lemma_read_entry(q, parts, total, t, j);
        lemma_power_sums(q, parts, j);
    }
    assert forall|sym: int, j: int| 0 <= sym < q.payload_symbols && 0 <= j < c implies cong(
        #[trigger] t.w[sym][j] as int,
        moment(symbol(xs, sym), zs, j as nat),
        p,
    ) by {
        let at = c + 1 + sym * c + j;
        lemma_row_fits(q, sym);
        assert(sym * c >= 0) by (nonlinear_arith)
            requires
                sym >= 0,
                c >= 0,
        ;
        vstd::arithmetic::div_mod::lemma_fundamental_div_mod_converse(sym * c + j, c, sym, j);
        assert(at - c - 1 == sym * c + j);
        lemma_read_entry(q, parts, total, t, at);
        lemma_moments(q, parts, sym, j, at);
    }
}

/// Contributions of at most `capacity` payloads at distinct points, and any
/// number of empty ones, summed and read back, decode, and to exactly the
/// payloads that were sent.
pub proof fn law_sketch_delivers(q: PronyParams, parts: Seq<SketchPart>, total: Seq<KahePoly>)
    requires
        ChannelParams::Prony(q).valid(),
        forall|i: int| 0 <= i < parts.len() ==> is_sketch_part(q, #[trigger] parts[i]),
        1 <= points_used(parts).len() <= q.capacity,
        points_used(parts).no_duplicates(),
        is_read_sum(q, parts, total),
    ensures
        forall|e: ChannelError| !#[trigger] refuses(ChannelParams::Prony(q), total, e),
        forall|elements: Seq<Seq<i64>>| #[trigger]
            lists(ChannelParams::Prony(q), total, elements) ==> elements.to_multiset()
                == payloads_sent(parts).to_multiset(),
{
    let (zs, xs) = (points_used(parts), payloads_sent(parts));
    lemma_sent(q, parts);
    assert forall|t: PronySketch| #[trigger] is_unpacked_sketch(t, q, total) implies {
        &&& t.failure() is None
        &&& forall|y: Seq<u64>, ys: Seq<Seq<i64>>| #[trigger]
            t.explained(y, ys) ==> paired(ints(y), ys).to_multiset() == paired(
                zs,
                xs,
            ).to_multiset()
    } by {
        lemma_total_encodes(q, parts, total, t);
        law_honest_sketch_decodes(t, zs, xs);
    }
    assert forall|elements: Seq<Seq<i64>>| #[trigger]
        lists(ChannelParams::Prony(q), total, elements) implies elements.to_multiset()
        == xs.to_multiset() by {
        let (t, y, ys) = choose|t: PronySketch, y: Seq<u64>, ys: Seq<Seq<i64>>|
            is_unpacked_sketch(t, q, total) && #[trigger] resolves(t, y, ys, elements);
        let f = |v: (int, Seq<i64>)| v.1;
        lemma_map_multiset(paired(ints(y), ys), paired(zs, xs), f);
        assert(ys.len() == y.len());
        assert(paired(ints(y), ys).map_values(f) =~= ys);
        assert(paired(zs, xs).map_values(f) =~= xs);
    }
}

// ---------------------------------------------------------------
// The peeling table
// ---------------------------------------------------------------

/// One client's contribution to the table.
pub struct TablePart {
    pub polys: Seq<KahePoly>,
    pub carried: Option<(MseEncoding, int, Seq<i64>)>,
}

/// The polynomials carry a payload of message symbols under its tag, or are all
/// zero.
pub open spec fn is_table_part(q: MseParams, c: TablePart) -> bool {
    match c.carried {
        Some((t, tag, x)) => {
            &&& t.params == q
            &&& x.len() == q.payload_symbols
            &&& forall|i: int| 0 <= i < x.len() ==> 0 <= #[trigger] x[i] < 0x1_0000_0000
            &&& t.encodes(seq![(x, tag)])
            &&& is_packed_table(t, c.polys)
        },
        None => forall|pos: int, k: int|
            0 <= pos < (q.scalars() + 2047) / 2048 && 0 <= k < N ==> #[trigger] c.polys[pos]@[k]
                == 0,
    }
}

/// The items put into the table.
pub open spec fn items_sent(parts: Seq<TablePart>) -> Seq<Cell>
    decreases parts.len(),
{
    if parts.len() == 0 {
        Seq::empty()
    } else {
        match parts.last().carried {
            Some((_t, tag, x)) => items_sent(parts.drop_last()).push(item(x, tag)),
            None => items_sent(parts.drop_last()),
        }
    }
}

/// The payloads carried.
pub open spec fn table_payloads(parts: Seq<TablePart>) -> Seq<Seq<i64>>
    decreases parts.len(),
{
    if parts.len() == 0 {
        Seq::empty()
    } else {
        match parts.last().carried {
            Some((_t, _tag, x)) => table_payloads(parts.drop_last()).push(x),
            None => table_payloads(parts.drop_last()),
        }
    }
}

/// The sum of the contributions at one coefficient.
pub open spec fn table_sum(parts: Seq<TablePart>, pos: int, k: int) -> int
    decreases parts.len(),
{
    if parts.len() == 0 {
        0
    } else {
        table_sum(parts.drop_last(), pos, k) + parts.last().polys[pos]@[k]
    }
}

/// `total` is the sum of the contributions as decryption reads it.
pub open spec fn is_read_table(q: MseParams, parts: Seq<TablePart>, total: Seq<KahePoly>) -> bool {
    forall|pos: int, k: int|
        0 <= pos < (q.scalars() + 2047) / 2048 && 0 <= k < N ==> #[trigger] total[pos]@[k]
            == centered_half_open(table_sum(parts, pos, k), T as int)
}

/// `v` and `u` agree modulo `m`; `u` is in kept form and `v` within half of `m`.
spec fn twin_cells(s: Shape, v: Cell, u: Cell, w: nat) -> bool {
    &&& v.len() == w
    &&& u.len() == w
    &&& forall|c: int|
        0 <= c < w ==> cong(#[trigger] v[c], u[c], s.m) && kept(s, u[c]) == u[c] && -(s.m / 2)
            <= v[c] <= s.m / 2
}

/// Two tables of the same dimensions whose cells agree.
spec fn twins(q: MseParams, g: Grid, h: Grid) -> bool {
    &&& g.len() == q.gamma
    &&& h.len() == q.gamma
    &&& forall|l: int| 0 <= l < g.len() ==> (#[trigger] g[l]).len() == q.delta
    &&& forall|l: int| 0 <= l < h.len() ==> (#[trigger] h[l]).len() == q.delta
    &&& forall|l: int, i: int|
        0 <= l < g.len() && 0 <= i < g[l].len() ==> twin_cells(
            shape(q),
            #[trigger] g[l][i],
            h[l][i],
            width(q),
        )
}

proof fn lemma_twin_value(q: MseParams, v: Cell, u: Cell, c: int)
    requires
        twin_cells(shape(q), v, u, width(q)),
        0 <= c < width(q),
    ensures
        u[c] != T / 2 ==> v[c] == u[c],
        v[c] == 1 <==> u[c] == 1,
        v[c] == 0 ==> u[c] == 0,
{
    let (m, x, y) = (T as int, v[c], u[c]);
    assert(cong(v[c], u[c], m));
    lemma_centered(y, m);
    if -(m / 2) < x {
        lemma_centered_id(x, m);
        lemma_centered_cong(x, y, m);
    } else {
        lemma_centered_id(m / 2, m);
        field::lemma_cong_multiple(x, 1, m);
        lemma_centered_cong(m / 2, y, m);
    }
}

proof fn lemma_same_place(q: MseParams, v: Cell, u: Cell)
    requires
        q.valid(),
        twin_cells(shape(q), v, u, width(q)),
    ensures
        (shape(q).place)(v) == (shape(q).place)(u),
{
    assert(cong(v[1], u[1], T as int));
    assert(cong(v[2], u[2], T as int));
    assert(tag_of(v) == tag_of(u));
    assert((shape(q).place)(v) =~= (shape(q).place)(u));
}

proof fn lemma_twin_step(q: MseParams, g: Grid, h: Grid, v: Cell, u: Cell)
    requires
        q.valid(),
        twins(q, g, h),
        twin_cells(shape(q), v, u, width(q)),
    ensures
        twins(q, take_out(shape(q), g, v), take_out(shape(q), h, u)),
{
    let (s, w) = (shape(q), width(q));
    let (a, b) = (take_out(s, g, v), take_out(s, h, u));
    lemma_same_place(q, v, u);
    let place = (s.place)(v);
    assert forall|l: int| 0 <= l < g.len() implies 0 <= #[trigger] place[l] < q.delta by {
        assert(place[l] == bucket_of(q.prf_key@, l, tag_of(v), q.delta as int));
    }
    assert forall|l: int| 0 <= l < a.len() implies (#[trigger] a[l]).len() == q.delta by {
        assert(0 <= place[l] < g[l].len());
    }
    assert forall|l: int| 0 <= l < b.len() implies (#[trigger] b[l]).len() == q.delta by {
        assert(0 <= place[l] < h[l].len());
    }
    assert forall|l: int, i: int| 0 <= l < a.len() && 0 <= i < a[l].len() implies twin_cells(
        s,
        #[trigger] a[l][i],
        b[l][i],
        w,
    ) by {
        assert(g[l].len() == q.delta && h[l].len() == q.delta);
        assert(a[l].len() == q.delta && 0 <= place[l] < q.delta);
        assert(twin_cells(s, g[l][i], h[l][i], w));
        if i == place[l] {
            let (x, y) = (lessened(s, g, v, l, i), lessened(s, h, u, l, i));
            assert(a[l][i] == x && b[l][i] == y);
            assert forall|c: int| 0 <= c < w implies cong(#[trigger] x[c], y[c], s.m) && kept(
                s,
                y[c],
            ) == y[c] && -(s.m / 2) <= x[c] <= s.m / 2 by {
                assert(cong(g[l][i][c], h[l][i][c], s.m));
                assert(cong(v[c], u[c], s.m));
                field::lemma_cong_ops(g[l][i][c], h[l][i][c], v[c], u[c], s.m);
                lemma_kept_cong(s, g[l][i][c] - v[c], h[l][i][c] - u[c]);
                lemma_centered(g[l][i][c] - v[c], s.m);
                lemma_centered(h[l][i][c] - u[c], s.m);
                lemma_centered_id(y[c], s.m);
            }
        } else {
            assert(a[l][i] == g[l][i] && b[l][i] == h[l][i]);
        }
    }
}

/// A run on one of two twin tables is a run on the other.
proof fn lemma_twin_runs(q: MseParams, g: Grid, h: Grid, steps: Seq<(int, int)>)
    requires
        q.valid(),
        twins(q, g, h),
        legal(shape(q), g, steps),
    ensures
        legal(shape(q), h, steps),
        twins(q, after(shape(q), g, steps), after(shape(q), h, steps)),
        shown(shape(q), g, steps).len() == steps.len(),
        shown(shape(q), h, steps).len() == steps.len(),
        forall|k: int|
            0 <= k < steps.len() ==> twin_cells(
                shape(q),
                #[trigger] shown(shape(q), g, steps)[k],
                shown(shape(q), h, steps)[k],
                width(q),
            ),
    decreases steps.len(),
{
    let s = shape(q);
    if steps.len() > 0 {
        let low = steps.drop_last();
        lemma_twin_runs(q, g, h, low);
        let (a, b) = (after(s, g, low), after(s, h, low));
        let (l, i) = steps.last();
        assert(twin_cells(s, a[l][i], b[l][i], width(q)));
        lemma_twin_value(q, a[l][i], b[l][i], 0);
        lemma_twin_step(q, a, b, a[l][i], b[l][i]);
    }
}

proof fn lemma_table_sent(q: MseParams, parts: Seq<TablePart>, g: Grid)
    requires
        q.valid(),
        forall|i: int| 0 <= i < parts.len() ==> is_table_part(q, #[trigger] parts[i]),
        g.len() == q.gamma,
        forall|l: int| 0 <= l < g.len() ==> (#[trigger] g[l]).len() == q.delta,
    ensures
        items_sent(parts).len() == table_payloads(parts).len(),
        items_sent(parts).len() <= parts.len(),
        forall|j: int|
            0 <= j < items_sent(parts).len() ==> is_item(
                shape(q),
                g,
                width(q),
                #[trigger] items_sent(parts)[j],
            ),
        forall|j: int|
            0 <= j < items_sent(parts).len() ==> shown_payload(#[trigger] items_sent(parts)[j])
                == table_payloads(parts)[j],
        forall|j: int, c: int|
            0 <= j < items_sent(parts).len() && 3 <= c < width(q) ==> 0
                <= #[trigger] items_sent(parts)[j][c] < 0x1_0000_0000,
    decreases parts.len(),
{
    if parts.len() > 0 {
        let (low, last) = (parts.drop_last(), parts.last());
        assert forall|i: int| 0 <= i < low.len() implies is_table_part(q, #[trigger] low[i]) by {
            assert(is_table_part(q, parts[i]));
        }
        lemma_table_sent(q, low, g);
        assert(is_table_part(q, parts[parts.len() - 1]));
        if let Some((t, tag, x)) = last.carried {
            let list = seq![(x, tag)];
            let one = list.map(|_i: int, y: (Seq<i64>, int)| item(y.0, y.1));
            let v = item(x, tag);
            assert(one[0] == v);
            assert(is_item(shape(q), t.grid(), width(q), one[0]));
            assert forall|c: int| 3 <= c < width(q) implies #[trigger] v[c] == x[c - 3] by {
                lemma_centered_id(x[c - 3] as int, T as int);
            }
            assert(shown_payload(v) =~= x) by {
                assert forall|c: int| 0 <= c < x.len() implies shown_payload(v)[c] == x[c] by {
                    assert(v.skip(3)[c] == v[c + 3]);
                }
            }
            assert forall|l: int| 0 <= l < g.len() implies 0 <= #[trigger] (shape(q).place)(v)[l]
                < g[l].len() by {
                assert(t.grid()[l].len() == q.delta);
                assert(0 <= (shape(q).place)(v)[l] < t.grid()[l].len());
            }
        }
    }
}

proof fn lemma_table_load(
    q: MseParams,
    parts: Seq<TablePart>,
    l: int,
    i: int,
    c: int,
    at: int,
)
    requires
        q.valid(),
        forall|j: int| 0 <= j < parts.len() ==> is_table_part(q, #[trigger] parts[j]),
        0 <= l < q.gamma,
        0 <= i < q.delta,
        0 <= c < width(q),
        at == position(q, l, i, c),
        0 <= at < q.scalars(),
    ensures
        cong(
            table_sum(parts, at / 2048, at % 2048),
            load(shape(q), items_sent(parts), l, i, c),
            T as int,
        ),
    decreases parts.len(),
{
    let s = shape(q);
    let m = T as int;
    if parts.len() > 0 {
        let (low, last) = (parts.drop_last(), parts.last());
        assert forall|j: int| 0 <= j < low.len() implies is_table_part(q, #[trigger] low[j]) by {
            assert(is_table_part(q, parts[j]));
        }
        lemma_table_load(q, low, l, i, c, at);
        assert(is_table_part(q, parts[parts.len() - 1]));
        let (a, b) = (at / 2048, at % 2048);
        assert(a * N + b == at);
        match last.carried {
            Some((t, tag, x)) => {
                let list = seq![(x, tag)];
                let one = list.map(|_i: int, y: (Seq<i64>, int)| item(y.0, y.1));
                let v = item(x, tag);
                lemma_position(t, l, i, c);
                assert(last.polys[a].coeffs[b] == t.flat_at(a * N + b));
                assert(last.polys[a]@[b] == t.grid()[l][i][c]);
                assert(t.grid()[l].len() == q.delta);
                assert(t.grid()[l][i][c] == kept(s, load(s, one, l, i, c)));
                assert(one =~= Seq::<Cell>::empty().push(v));
                lemma_load_push(s, Seq::empty(), v, l, i, c);
                lemma_kept(s, load(s, one, l, i, c));
                lemma_load_push(s, items_sent(low), v, l, i, c);
                field::lemma_cong_ops(
                    table_sum(low, a, b),
                    load(s, items_sent(low), l, i, c),
                    t.grid()[l][i][c],
                    share(s, v, l, i, c),
                    m,
                );
            },
            None => {
                assert(last.polys[a]@[b] == 0);
            },
        }
    }
}

/// The kept form of a table.
spec fn tidy(s: Shape, g: Grid) -> Grid {
    Seq::new(
        g.len(),
        |l: int|
            Seq::new(
                g[l].len(),
                |i: int| Seq::new(g[l][i].len(), |c: int| kept(s, g[l][i][c])),
            ),
    )
}

proof fn lemma_table_holds(
    q: MseParams,
    parts: Seq<TablePart>,
    total: Seq<KahePoly>,
    t: MseEncoding,
)
    requires
        q.valid(),
        forall|j: int| 0 <= j < parts.len() ==> is_table_part(q, #[trigger] parts[j]),
        is_read_table(q, parts, total),
        is_unpacked_table(t, q, total),
    ensures
        holds(shape(q), tidy(shape(q), t.grid()), width(q), items_sent(parts)),
        twins(q, t.grid(), tidy(shape(q), t.grid())),
{
    let (s, w, m) = (shape(q), width(q), T as int);
    let g = t.grid();
    let h = tidy(s, g);
    lemma_grid(t);
    lemma_table_sent(q, parts, h);
    assert forall|l: int, i: int, c: int|
        0 <= l < h.len() && 0 <= i < h[l].len() && 0 <= c < w implies #[trigger] h[l][i][c]
        == kept(s, load(s, items_sent(parts), l, i, c)) && -(m / 2) <= g[l][i][c] <= m / 2 by {
        let at = position(q, l, i, c);
        lemma_position(t, l, i, c);
        lemma_table_load(q, parts, l, i, c, at);
        let (a, b) = (at / 2048, at % 2048);
        let x = table_sum(parts, a, b);
        assert(total[a]@[b] == centered_half_open(x, m));
        lemma_centered(x, m);
        lemma_centered_id(centered_half_open(x, m), KAHE_MODULUS as int);
        assert(g[l][i][c] == centered_half_open(x, m));
        lemma_kept_cong(s, g[l][i][c], load(s, items_sent(parts), l, i, c));
    }
    assert forall|l: int, i: int| 0 <= l < g.len() && 0 <= i < g[l].len() implies twin_cells(
        s,
        #[trigger] g[l][i],
        h[l][i],
        w,
    ) by {
        assert forall|c: int| 0 <= c < w implies cong(#[trigger] g[l][i][c], h[l][i][c], m)
            && kept(s, h[l][i][c]) == h[l][i][c] && -(m / 2) <= g[l][i][c] <= m / 2 by {
            assert(h[l][i][c] == kept(s, load(s, items_sent(parts), l, i, c)));
            lemma_kept(s, g[l][i][c]);
            lemma_centered(g[l][i][c], m);
            lemma_centered_id(h[l][i][c], m);
        }
    }
}

/// Whatever the table lists, after contributions of fewer than `2^36` messages
/// and any number of empty ones were summed and read back, is exactly the
/// payloads that were sent.
pub proof fn law_table_delivers(
    q: MseParams,
    parts: Seq<TablePart>,
    total: Seq<KahePoly>,
    elements: Seq<Seq<i64>>,
)
    requires
        ChannelParams::Mse(q).valid(),
        parts.len() < T,
        forall|i: int| 0 <= i < parts.len() ==> is_table_part(q, #[trigger] parts[i]),
        is_read_table(q, parts, total),
        lists(ChannelParams::Mse(q), total, elements),
    ensures
        elements.to_multiset() == table_payloads(parts).to_multiset(),
{
    let (s, w) = (shape(q), width(q));
    let (t, steps) = choose|t: MseEncoding, steps: Seq<(int, int)>|
        is_unpacked_table(t, q, total) && #[trigger] peels(t, steps, Some(elements));
    let g = t.grid();
    let h = tidy(s, g);
    let items = items_sent(parts);
    lemma_grid(t);
    lemma_table_sent(q, parts, h);
    lemma_table_holds(q, parts, total, t);
    lemma_twin_runs(q, g, h, steps);
    let rest = law_peeling_is_sound(s, h, w, items, steps);
    let (a, b) = (after(s, g, steps), after(s, h, steps));
    assert(is_clear(b)) by {
        assert forall|l: int, i: int, c: int|
            0 <= l < b.len() && 0 <= i < b[l].len() && 0 <= c < b[l][i].len() implies
            #[trigger] b[l][i][c] == 0 by {
            assert(a[l].len() == b[l].len());
            assert(twin_cells(s, a[l][i], b[l][i], w));
            assert(a[l][i][c] == 0);
            lemma_twin_value(q, a[l][i], b[l][i], c);
        }
    }
    assert(b.len() > 0);
    law_clear_holds_nothing(s, b, w, rest);
    let seen = shown(s, h, steps);
    broadcast use vstd::seq_lib::group_to_multiset_ensures;

    assert(rest.to_multiset() =~= vstd::multiset::Multiset::empty());
    assert(items.to_multiset() =~= seen.to_multiset());
    let f = |v: Cell| shown_payload(v);
    lemma_map_multiset(items, seen, f);
    assert(items.map_values(f) =~= table_payloads(parts));
    assert(run_payloads(q, g, steps) =~= seen.map_values(f)) by {
        assert forall|k: int| 0 <= k < steps.len() implies run_payloads(q, g, steps)[k]
            == #[trigger] seen.map_values(f)[k] by {
            let (v, u) = (shown(s, g, steps)[k], seen[k]);
            assert(twin_cells(s, v, u, w));
            assert(seen.contains(u));
            assert(seen.to_multiset().count(u) > 0);
            assert(items.to_multiset().count(u) > 0);
            assert(items.contains(u));
            let j = choose|j: int| 0 <= j < items.len() && items[j] == u;
            assert(v.skip(3) =~= u.skip(3)) by {
                assert forall|c: int| 0 <= c < w - 3 implies v.skip(3)[c] == u.skip(3)[c] by {
                    assert(0 <= items[j][c + 3] < 0x1_0000_0000);
                    lemma_twin_value(q, v, u, c + 3);
                }
            }
        }
    }
}

// ---------------------------------------------------------------
// The whole round
// ---------------------------------------------------------------

proof fn lemma_sketch_messages(
    clients: Seq<HonestClient>,
    parts: Seq<SketchPart>,
    pos: int,
    k: int,
)
    requires
        parts.len() == clients.len(),
        forall|j: int| 0 <= j < parts.len() ==> (#[trigger] parts[j]).polys == clients[j].message,
    ensures
        contribution_sum(parts, pos, k) == message_sum(messages(clients, pos), k),
    decreases parts.len(),
{
    if parts.len() > 0 {
        let (a, b) = (clients.drop_last(), parts.drop_last());
        assert forall|j: int| 0 <= j < b.len() implies (#[trigger] b[j]).polys == a[j].message by {
            assert(parts[j].polys == clients[j].message);
        }
        lemma_sketch_messages(a, b, pos, k);
        assert(messages(clients, pos).drop_last() =~= messages(a, pos));
        assert(parts[parts.len() - 1].polys == clients[parts.len() - 1].message);
    }
}

proof fn lemma_table_messages(
    clients: Seq<HonestClient>,
    parts: Seq<TablePart>,
    pos: int,
    k: int,
)
    requires
        parts.len() == clients.len(),
        forall|j: int| 0 <= j < parts.len() ==> (#[trigger] parts[j]).polys == clients[j].message,
    ensures
        table_sum(parts, pos, k) == message_sum(messages(clients, pos), k),
    decreases parts.len(),
{
    if parts.len() > 0 {
        let (a, b) = (clients.drop_last(), parts.drop_last());
        assert forall|j: int| 0 <= j < b.len() implies (#[trigger] b[j]).polys == a[j].message by {
            assert(parts[j].polys == clients[j].message);
        }
        lemma_table_messages(a, b, pos, k);
        assert(messages(clients, pos).drop_last() =~= messages(a, pos));
        assert(parts[parts.len() - 1].polys == clients[parts.len() - 1].message);
    }
}

/// A round of honest parties over a sketch delivers exactly what was sent: at
/// most `capacity` payloads at distinct points, among any number of empty
/// contributions.
pub proof fn law_sketch_round_delivers(
    pp: ProtocolParams,
    q: PronyParams,
    clients: Seq<HonestClient>,
    parts: Seq<SketchPart>,
    canonical: Seq<ClientId>,
    entries: Seq<(ClientId, ClientBulletinEntry)>,
    received: Seq<Seq<&Opening>>,
    servers: Seq<ServerBulletinEntry>,
    m: Seq<KahePoly>,
)
    requires
        pp.wf(),
        ChannelParams::Prony(q).valid(),
        pp.kahe.t_modulus == q.p,
        pp.kahe.mu_kahe == (q.scalars() + 2047) / 2048,
        all_honest(pp, clients),
        1 <= clients.len() <= 300,
        all_posted(clients, canonical, entries),
        distinct_count(canonical) >= pp.min_clients,
        all_honest_servers(pp, clients, canonical, received, servers),
        servers.len() >= pp.shamir.t,
        sums_fit(pp, clients),
        parts.len() == clients.len(),
        forall|j: int| 0 <= j < parts.len() ==> (#[trigger] parts[j]).polys == clients[j].message,
        forall|j: int| 0 <= j < parts.len() ==> is_sketch_part(q, #[trigger] parts[j]),
        1 <= points_used(parts).len() <= q.capacity,
        points_used(parts).no_duplicates(),
        is_plaintext(
            pp,
            summed(chosen_ctxts(entries, canonical)),
            recovered_key(pp, servers),
            m,
        ),
    ensures
        direct_fault(pp, canonical, entries, servers) is None,
        forall|e: ChannelError| !#[trigger] refuses(ChannelParams::Prony(q), m, e),
        forall|elements: Seq<Seq<i64>>| #[trigger]
            lists(ChannelParams::Prony(q), m, elements) ==> elements.to_multiset()
                == payloads_sent(parts).to_multiset(),
{
    law_honest_round(pp, clients, canonical, entries, received, servers);
    assert(m.len() == pp.kahe.mu_kahe);
    assert(is_read_sum(q, parts, m)) by {
        assert forall|pos: int, k: int|
            0 <= pos < (q.scalars() + 2047) / 2048 && 0 <= k < N implies #[trigger] m[pos]@[k]
            == centered_half_open(contribution_sum(parts, pos, k), q.p as int) by {
            lemma_sketch_messages(clients, parts, pos, k);
        }
    }
    law_sketch_delivers(q, parts, m);
}

/// A round of honest parties over the peeling table: whatever is listed is
/// exactly what was sent.
pub proof fn law_table_round_delivers(
    pp: ProtocolParams,
    q: MseParams,
    clients: Seq<HonestClient>,
    parts: Seq<TablePart>,
    canonical: Seq<ClientId>,
    entries: Seq<(ClientId, ClientBulletinEntry)>,
    received: Seq<Seq<&Opening>>,
    servers: Seq<ServerBulletinEntry>,
    m: Seq<KahePoly>,
    elements: Seq<Seq<i64>>,
)
    requires
        pp.wf(),
        ChannelParams::Mse(q).valid(),
        pp.kahe.t_modulus == T,
        pp.kahe.mu_kahe == (q.scalars() + 2047) / 2048,
        all_honest(pp, clients),
        1 <= clients.len() <= 300,
        all_posted(clients, canonical, entries),
        distinct_count(canonical) >= pp.min_clients,
        all_honest_servers(pp, clients, canonical, received, servers),
        servers.len() >= pp.shamir.t,
        sums_fit(pp, clients),
        parts.len() == clients.len(),
        forall|j: int| 0 <= j < parts.len() ==> (#[trigger] parts[j]).polys == clients[j].message,
        forall|j: int| 0 <= j < parts.len() ==> is_table_part(q, #[trigger] parts[j]),
        is_plaintext(
            pp,
            summed(chosen_ctxts(entries, canonical)),
            recovered_key(pp, servers),
            m,
        ),
        lists(ChannelParams::Mse(q), m, elements),
    ensures
        direct_fault(pp, canonical, entries, servers) is None,
        elements.to_multiset() == table_payloads(parts).to_multiset(),
{
    law_honest_round(pp, clients, canonical, entries, received, servers);
    assert(m.len() == pp.kahe.mu_kahe);
    assert(is_read_table(q, parts, m)) by {
        assert forall|pos: int, k: int|
            0 <= pos < (q.scalars() + 2047) / 2048 && 0 <= k < N implies #[trigger] m[pos]@[k]
            == centered_half_open(table_sum(parts, pos, k), T as int) by {
            lemma_table_messages(clients, parts, pos, k);
        }
    }
    law_table_delivers(q, parts, m, elements);
}

/// A sharded round of honest parties over a sketch delivers exactly what was
/// sent.
pub proof fn law_sharded_sketch_round_delivers(
    pp: ProtocolParams,
    sid: SessionId,
    q: PronyParams,
    clients: Seq<ShardedClient>,
    parts: Seq<SketchPart>,
    canonical: Seq<ClientId>,
    entries: Seq<(ClientId, RsClientBulletinEntry)>,
    opened: Seq<Seq<&Opening>>,
    servers: Seq<ServerBulletinEntry>,
    received: Seq<Seq<(ClientId, Share, SharePath)>>,
    nodes: Seq<RsNodeBulletinEntry>,
    m: Seq<KahePoly>,
)
    requires
        pp.wf(),
        pp.is_rs_mode(),
        ChannelParams::Prony(q).valid(),
        pp.kahe.t_modulus == q.p,
        pp.kahe.mu_kahe == (q.scalars() + 2047) / 2048,
        all_honest_sharded(pp, clients),
        1 <= clients.len() <= 300,
        all_signed(sid, clients, canonical, entries),
        distinct_count(canonical) >= pp.min_clients,
        all_honest_servers(pp, bases(clients), canonical, opened, servers),
        servers.len() >= pp.shamir.t,
        all_honest_lanes(pp, clients, canonical, entries, received, nodes),
        nodes.len() >= pp.rs->0.k,
        sums_fit(pp, bases(clients)),
        totals_fit(pp, clients),
        parts.len() == clients.len(),
        forall|j: int|
            0 <= j < parts.len() ==> (#[trigger] parts[j]).polys == bases(clients)[j].message,
        forall|j: int| 0 <= j < parts.len() ==> is_sketch_part(q, #[trigger] parts[j]),
        1 <= points_used(parts).len() <= q.capacity,
        points_used(parts).no_duplicates(),
        lanes_decrypt(
            pp,
            hvc_sum(signed_roots(entries, canonical)),
            nodes,
            recovered_key(pp, servers),
            m,
        ),
    ensures
        rs_fault(pp, sid, canonical, entries, servers, nodes) is None,
        forall|e: ChannelError| !#[trigger] refuses(ChannelParams::Prony(q), m, e),
        forall|elements: Seq<Seq<i64>>| #[trigger]
            lists(ChannelParams::Prony(q), m, elements) ==> elements.to_multiset()
                == payloads_sent(parts).to_multiset(),
{
    law_honest_sharded_round(
        pp,
        sid,
        clients,
        canonical,
        entries,
        opened,
        servers,
        received,
        nodes,
    );
    assert(m.len() == pp.kahe.mu_kahe);
    assert(is_read_sum(q, parts, m)) by {
        assert forall|pos: int, k: int|
            0 <= pos < (q.scalars() + 2047) / 2048 && 0 <= k < N implies #[trigger] m[pos]@[k]
            == centered_half_open(contribution_sum(parts, pos, k), q.p as int) by {
            lemma_sketch_messages(bases(clients), parts, pos, k);
        }
    }
    law_sketch_delivers(q, parts, m);
}

/// A sharded round of honest parties over the peeling table: whatever is listed
/// is exactly what was sent.
pub proof fn law_sharded_table_round_delivers(
    pp: ProtocolParams,
    sid: SessionId,
    q: MseParams,
    clients: Seq<ShardedClient>,
    parts: Seq<TablePart>,
    canonical: Seq<ClientId>,
    entries: Seq<(ClientId, RsClientBulletinEntry)>,
    opened: Seq<Seq<&Opening>>,
    servers: Seq<ServerBulletinEntry>,
    received: Seq<Seq<(ClientId, Share, SharePath)>>,
    nodes: Seq<RsNodeBulletinEntry>,
    m: Seq<KahePoly>,
    elements: Seq<Seq<i64>>,
)
    requires
        pp.wf(),
        pp.is_rs_mode(),
        ChannelParams::Mse(q).valid(),
        pp.kahe.t_modulus == T,
        pp.kahe.mu_kahe == (q.scalars() + 2047) / 2048,
        all_honest_sharded(pp, clients),
        1 <= clients.len() <= 300,
        all_signed(sid, clients, canonical, entries),
        distinct_count(canonical) >= pp.min_clients,
        all_honest_servers(pp, bases(clients), canonical, opened, servers),
        servers.len() >= pp.shamir.t,
        all_honest_lanes(pp, clients, canonical, entries, received, nodes),
        nodes.len() >= pp.rs->0.k,
        sums_fit(pp, bases(clients)),
        totals_fit(pp, clients),
        parts.len() == clients.len(),
        forall|j: int|
            0 <= j < parts.len() ==> (#[trigger] parts[j]).polys == bases(clients)[j].message,
        forall|j: int| 0 <= j < parts.len() ==> is_table_part(q, #[trigger] parts[j]),
        lanes_decrypt(
            pp,
            hvc_sum(signed_roots(entries, canonical)),
            nodes,
            recovered_key(pp, servers),
            m,
        ),
        lists(ChannelParams::Mse(q), m, elements),
    ensures
        rs_fault(pp, sid, canonical, entries, servers, nodes) is None,
        elements.to_multiset() == table_payloads(parts).to_multiset(),
{
    law_honest_sharded_round(
        pp,
        sid,
        clients,
        canonical,
        entries,
        opened,
        servers,
        received,
        nodes,
    );
    assert(m.len() == pp.kahe.mu_kahe);
    assert(is_read_table(q, parts, m)) by {
        assert forall|pos: int, k: int|
            0 <= pos < (q.scalars() + 2047) / 2048 && 0 <= k < N implies #[trigger] m[pos]@[k]
            == centered_half_open(table_sum(parts, pos, k), T as int) by {
            lemma_table_messages(bases(clients), parts, pos, k);
        }
    }
    law_table_delivers(q, parts, m, elements);
}

} // verus!
