//! Additive multi-set encoding.
//!
//! A table of `gamma` rows and `delta` columns. An element is a payload of
//! symbols and a random tag; it is added into one cell per row, chosen by
//! hashing the tag. A cell holds a count, two tag limbs and the payload
//! symbols, all centered modulo `2^36`. Tables add up.

use crate::bytes::{le_bytes, le_value, push_all, push_le, push_le_wide, read_le};
use crate::field;
use crate::hash::{sha256, sha256_of};
use crate::negacyclic::{center_i64, centered, lemma_centered, lemma_centered_id, rem_euclid_i64, N};
use crate::peel::{
    self, after, bared, cells_of, holds, is_clear, is_item, is_pure, is_put, is_union, kept,
    law_peeling_is_sound, legal, lessened, load, pure_in_level, pure_in_order, regular, shown,
    stuck, take_out, Cell, Grid, Shape,
};
use crate::random::{gives_wide, next_wide};
use crate::rings::{KahePoly, KAHE_MODULUS};
use rand_chacha::ChaCha20Rng;
use vstd::prelude::*;

verus! {

/// The symbol modulus.
pub const T: i64 = 68_719_476_736;

/// Tag limbs.
pub const K_LIMBS: usize = 2;

/// Payload bits per symbol.
pub const BITS_PER_SYMBOL: usize = 36;

#[derive(Clone, Copy, Debug, PartialEq, Eq)]
pub struct MseParams {
    pub gamma: usize,
    /// Buckets per row.
    pub delta: usize,
    pub payload_symbols: usize,
    pub prf_key: [u8; 32],
}

#[derive(Debug, PartialEq, Eq, Structural, Clone, Copy)]
pub enum MseError {
    PeelStalled,
    ParamsMismatch,
    PayloadArity,
}

impl MseParams {
    pub open spec fn valid(&self) -> bool {
        &&& 2 <= self.gamma <= 0x1_0000_0000
        &&& self.delta >= 1
        &&& self.payload_symbols >= 1
        &&& self.scalars() + 2047 <= usize::MAX
    }

    pub open spec fn cells(&self) -> int {
        self.gamma * self.delta
    }

    /// Entries of a cell: the count, the tag limbs, the payload.
    pub open spec fn entries(&self) -> int {
        3 + self.payload_symbols
    }

    pub open spec fn scalars(&self) -> int {
        self.entries() * self.cells()
    }

    pub open spec fn same(&self, other: MseParams) -> bool {
        &&& self.gamma == other.gamma
        &&& self.delta == other.delta
        &&& self.payload_symbols == other.payload_symbols
        &&& self.prf_key@ == other.prf_key@
    }

    pub fn new(gamma: usize, delta: usize, payload_symbols: usize, prf_key: [u8; 32]) -> (r: Self)
        requires
            gamma >= 2,
            delta >= 1,
            payload_symbols >= 1,
        ensures
            r.gamma == gamma,
            r.delta == delta,
            r.payload_symbols == payload_symbols,
            r.prf_key == prf_key,
    {
        MseParams { gamma, delta, payload_symbols, prf_key }
    }

    /// Symbols for a message of `bits` bits.
    pub fn payload_symbols_for_bits(bits: usize) -> (r: usize)
        ensures
            r == (bits + 35) / 36,
    {
        bits / 36 + (if bits % 36 == 0 {
            0
        } else {
            1
        })
    }

    pub fn total_cells(&self) -> (r: usize)
        requires
            self.cells() <= usize::MAX,
        ensures
            r == self.cells(),
    {
        self.gamma * self.delta
    }

    pub fn total_scalars(&self) -> (r: usize)
        requires
            self.valid(),
        ensures
            r == self.scalars(),
    {
        proof {
            lemma_sizes(*self);
        }
        (1 + K_LIMBS + self.payload_symbols) * self.total_cells()
    }

    /// Size of the tag space.
    pub fn r_space(&self) -> (r: u128)
        ensures
            r == T * T,
    {
        4_722_366_482_869_645_213_696
    }

    fn is_same(&self, other: &MseParams) -> (r: bool)
        ensures
            r == self.same(*other),
    {
        if self.gamma != other.gamma || self.delta != other.delta || self.payload_symbols
            != other.payload_symbols {
            return false;
        }
        for i in 0..32usize
            invariant
                forall|k: int| 0 <= k < i ==> self.prf_key@[k] == #[trigger] other.prf_key@[k],
        {
            if self.prf_key[i] != other.prf_key[i] {
                assert(self.prf_key@[i as int] != other.prf_key@[i as int]);
                return false;
            }
        }
        assert(self.prf_key@ =~= other.prf_key@);
        true
    }
}

proof fn lemma_sizes(p: MseParams)
    requires
        p.valid(),
    ensures
        0 < p.cells() <= p.scalars(),
        p.entries() <= p.scalars(),
        p.entries() >= 4,
{
    let (g, d, e) = (p.gamma as int, p.delta as int, p.entries());
    assert(g * d >= 1 && g * d <= e * (g * d) && e <= e * (g * d)) by (nonlinear_arith)
        requires
            g >= 1,
            d >= 1,
            e >= 1,
    ;
}

// ---------------------------------------------------------------
// Elements
// ---------------------------------------------------------------

/// The column of a tag in a row.
pub open spec fn bucket_of(key: Seq<u8>, row: int, tag: int, delta: int) -> int {
    le_value(
        sha256_of(key + le_bytes(row as nat, 4) + le_bytes(tag as nat, 16)).take(8),
    ) as int % delta
}

fn prf_bucket(key: &[u8; 32], row: usize, tag: u128, delta: usize) -> (r: usize)
    requires
        delta >= 1,
        row <= u32::MAX,
    ensures
        r == bucket_of(key@, row as int, tag as int, delta as int),
        r < delta,
{
    let mut input: Vec<u8> = Vec::with_capacity(52);
    push_all(&mut input, key.as_slice());
    assert(input@ =~= key@);
    push_le(&mut input, row as u64, 4);
    push_le_wide(&mut input, tag, 16);
    let digest: [u8; 32] = sha256(&input);
    assert(digest@.subrange(0, 8) =~= digest@.take(8));
    let v: u64 = read_le(digest.as_slice(), 0, 8);
    (v % delta as u64) as usize
}

/// The tag that a cell's limbs spell.
pub open spec fn tag_of(v: Cell) -> int {
    v[1] % (T as int) + T * (v[2] % (T as int))
}

pub open spec fn shape(p: MseParams) -> Shape {
    Shape {
        m: T as int,
        signed: true,
        place: |v: Cell|
            Seq::new(
                p.gamma as nat,
                |row: int| bucket_of(p.prf_key@, row, tag_of(v), p.delta as int),
            ),
    }
}

pub open spec fn width(p: MseParams) -> nat {
    p.entries() as nat
}

/// An element as an item: one, the tag limbs, the payload symbols.
pub open spec fn item(payload: Seq<i64>, tag: int) -> Cell {
    Seq::new(
        (3 + payload.len()) as nat,
        |c: int|
            if c == 0 {
                1
            } else if c == 1 {
                centered(tag % (T as int), T as int)
            } else if c == 2 {
                centered(tag / (T as int), T as int)
            } else {
                centered(payload[c - 3] as int, T as int)
            },
    )
}

/// Largest magnitude an entry may have.
pub const ENTRY_LIMIT: i64 = 4_611_686_018_427_387_903;

pub struct MseEncoding {
    pub params: MseParams,
    /// Counts, row by row.
    pub c: Vec<i64>,
    /// Tag limbs; each limb has one entry per cell.
    pub k: Vec<Vec<i64>>,
    /// Payload symbols; each symbol has one entry per cell.
    pub v: Vec<Vec<i64>>,
}

/// No entry exceeds the limit.
pub open spec fn limited(s: Seq<i64>) -> bool {
    forall|i: int| 0 <= i < s.len() ==> -ENTRY_LIMIT <= #[trigger] s[i] <= ENTRY_LIMIT
}

impl MseEncoding {
    pub open spec fn wf(&self) -> bool {
        &&& self.params.valid()
        &&& self.k.len() == 2
        &&& self.v.len() == self.params.payload_symbols
        &&& forall|e: int|
            0 <= e < self.params.entries() ==> (#[trigger] self.column(e)).len()
                == self.params.cells() && limited(self.column(e))
    }

    /// Entry `e` of every cell, row by row.
    pub open spec fn column(&self, e: int) -> Seq<i64> {
        if e == 0 {
            self.c@
        } else if e < 3 {
            self.k[e - 1]@
        } else {
            self.v[e - 3]@
        }
    }

    pub open spec fn cell(&self, row: int, col: int) -> Cell {
        Seq::new(
            width(self.params),
            |e: int| self.column(e)[row * self.params.delta + col] as int,
        )
    }

    pub open spec fn grid(&self) -> Grid {
        Seq::new(
            self.params.gamma as nat,
            |row: int| Seq::new(self.params.delta as nat, |col: int| self.cell(row, col)),
        )
    }

    /// The table superposes exactly the elements with these payloads and tags.
    pub open spec fn encodes(&self, elements: Seq<(Seq<i64>, int)>) -> bool {
        holds(
            shape(self.params),
            self.grid(),
            width(self.params),
            elements.map(|_i: int, x: (Seq<i64>, int)| item(x.0, x.1)),
        )
    }

    fn entry(&self, e: usize, cell: usize) -> (r: i64)
        requires
            self.wf(),
            e < self.params.entries(),
            cell < self.params.cells(),
        ensures
            r == self.column(e as int)[cell as int],
            -ENTRY_LIMIT <= r <= ENTRY_LIMIT,
    {
        assert(self.column(e as int).len() == self.params.cells() && limited(
            self.column(e as int),
        ));
        assert(-ENTRY_LIMIT <= self.column(e as int)[cell as int] <= ENTRY_LIMIT);
        if e == 0 {
            self.c[cell]
        } else if e < 3 {
            self.k[e - 1][cell]
        } else {
            self.v[e - 3][cell]
        }
    }

    fn set_entry(&mut self, e: usize, cell: usize, x: i64)
        requires
            old(self).wf(),
            e < old(self).params.entries(),
            cell < old(self).params.cells(),
            -ENTRY_LIMIT <= x <= ENTRY_LIMIT,
        ensures
            final(self).wf(),
            final(self).params == old(self).params,
            forall|d: int|
                0 <= d < old(self).params.entries() ==> #[trigger] final(self).column(d) == (if d
                    == e {
                    old(self).column(d).update(cell as int, x)
                } else {
                    old(self).column(d)
                }),
    {
        let ghost before = *self;
        assert(self.column(e as int).len() == self.params.cells());
        if e == 0 {
            self.c.set(cell, x);
        } else if e < 3 {
            self.k[e - 1].set(cell, x);
        } else {
            self.v[e - 3].set(cell, x);
        }
        assert forall|d: int| 0 <= d < before.params.entries() implies #[trigger] self.column(d) == (
        if d == e {
            before.column(d).update(cell as int, x)
        } else {
            before.column(d)
        }) by {}
        assert forall|d: int| 0 <= d < self.params.entries() implies (#[trigger] self.column(
            d,
        )).len() == self.params.cells() && limited(self.column(d)) by {
            assert(before.column(d).len() == before.params.cells() && limited(before.column(d)));
            assert forall|i: int| 0 <= i < self.column(d).len() implies -ENTRY_LIMIT
                <= #[trigger] self.column(d)[i] <= ENTRY_LIMIT by {
                assert(-ENTRY_LIMIT <= before.column(d)[i] <= ENTRY_LIMIT);
            }
        }
    }
}

/// Cell numbers determine row and column.
proof fn lemma_cell_number(p: MseParams, row: int, col: int)
    requires
        0 <= row < p.gamma,
        0 <= col < p.delta,
    ensures
        0 <= row * p.delta + col < p.cells(),
        (row * p.delta + col) / (p.delta as int) == row,
        (row * p.delta + col) % (p.delta as int) == col,
{
    let (d, n) = (p.delta as int, p.gamma as int);
    assert(0 <= row * d && row * d + d <= n * d) by (nonlinear_arith)
        requires
            0 <= row < n,
            d >= 0,
    ;
    vstd::arithmetic::div_mod::lemma_fundamental_div_mod_converse(row * d + col, d, row, col);
}

proof fn lemma_cells_differ(p: MseParams, r1: int, c1: int, r2: int, c2: int)
    requires
        0 <= r1 < p.gamma,
        0 <= c1 < p.delta,
        0 <= r2 < p.gamma,
        0 <= c2 < p.delta,
        r1 * p.delta + c1 == r2 * p.delta + c2,
    ensures
        r1 == r2,
        c1 == c2,
{
    lemma_cell_number(p, r1, c1);
    lemma_cell_number(p, r2, c2);
}

pub(crate) proof fn lemma_grid(t: MseEncoding)
    requires
        t.wf(),
    ensures
        regular(t.grid(), width(t.params)),
        t.grid().len() == t.params.gamma,
        forall|l: int| 0 <= l < t.params.gamma ==> #[trigger] t.grid()[l].len() == t.params.delta,
{
}

/// The sum or difference, centered.
pub open spec fn moved(a: int, b: int, up: bool) -> int {
    if up {
        centered(a + b, T as int)
    } else {
        centered(a - b, T as int)
    }
}

impl MseEncoding {
    /// Adds `x` into a cell entry by entry, or takes it off.
    fn shift_cell(&mut self, row: usize, col: usize, x: &Vec<i64>, up: bool)
        requires
            old(self).wf(),
            row < old(self).params.gamma,
            col < old(self).params.delta,
            x.len() == old(self).params.entries(),
            limited(x@),
        ensures
            final(self).wf(),
            final(self).params == old(self).params,
            final(self).grid() == old(self).grid().update(
                row as int,
                old(self).grid()[row as int].update(
                    col as int,
                    Seq::new(
                        width(old(self).params),
                        |e: int|
                            moved(
                                old(self).grid()[row as int][col as int][e],
                                x[e] as int,
                                up,
                            ),
                    ),
                ),
            ),
    {
        let ghost before = *self;
        let ghost p = self.params;
        proof {
            lemma_cell_number(p, row as int, col as int);
            lemma_sizes(p);
        }
        let cell: usize = row * self.params.delta + col;
        let n: usize = x.len();
        for e in 0..n
            invariant
                self.wf(),
                before.wf(),
                self.params == p,
                before.params == p,
                n == p.entries(),
                n == x.len(),
                limited(x@),
                cell < p.cells(),
                forall|d: int|
                    0 <= d < p.entries() ==> #[trigger] self.column(d) == (if d < e {
                        before.column(d).update(
                            cell as int,
                            moved(
                                before.column(d)[cell as int] as int,
                                x[d] as int,
                                up,
                            ) as i64,
                        )
                    } else {
                        before.column(d)
                    }),
        {
            let a: i64 = self.entry(e, cell);
            assert(-ENTRY_LIMIT <= x@[e as int] <= ENTRY_LIMIT);
            assert(self.column(e as int) == before.column(e as int));
            let y: i64 = if up {
                center_i64(a + x[e], T)
            } else {
                center_i64(a - x[e], T)
            };
            proof {
                lemma_centered(a + x[e as int], T as int);
                lemma_centered(a - x[e as int], T as int);
            }
            self.set_entry(e, cell, y);
        }
        proof {
            let (g, h) = (self.grid(), before.grid());
            let want = Seq::new(
                width(p),
                |e: int| moved(h[row as int][col as int][e], x[e] as int, up),
            );
            assert forall|l: int, i: int| 0 <= l < p.gamma && 0 <= i < p.delta implies #[trigger] g[l][i]
                == (if l == row && i == col {
                want
            } else {
                h[l][i]
            }) by {
                lemma_cell_number(p, l, i);
                assert forall|e: int| 0 <= e < width(p) implies g[l][i][e] == (if l == row && i
                    == col {
                    want
                } else {
                    h[l][i]
                })[e] by {
                    assert(before.column(e).len() == p.cells());
                    assert(self.column(e) == before.column(e).update(
                        cell as int,
                        moved(before.column(e)[cell as int] as int, x[e] as int, up) as i64,
                    ));
                    lemma_centered(before.column(e)[cell as int] + x[e], T as int);
                    lemma_centered(before.column(e)[cell as int] - x[e], T as int);
                    if l * p.delta + i == cell {
                        lemma_cells_differ(p, l, i, row as int, col as int);
                    }
                }
                assert(g[l][i] =~= (if l == row && i == col {
                    want
                } else {
                    h[l][i]
                }));
            }
            let target = h.update(row as int, h[row as int].update(col as int, want));
            assert forall|l: int| 0 <= l < p.gamma implies g[l] =~= target[l] by {}
            assert(g =~= target);
        }
    }
}

fn zeros(n: usize) -> (r: Vec<i64>)
    ensures
        r.len() == n,
        forall|i: int| 0 <= i < n ==> #[trigger] r[i] == 0,
{
    let mut out: Vec<i64> = Vec::with_capacity(n);
    for i in 0..n
        invariant
            out.len() == i,
            forall|k: int| 0 <= k < i ==> #[trigger] out[k] == 0,
    {
        out.push(0);
    }
    out
}

/// The two limbs of an element give back its tag.
proof fn lemma_item_tag(payload: Seq<i64>, tag: int)
    requires
        0 <= tag < T * T,
    ensures
        tag_of(item(payload, tag)) == tag,
{
    let m = T as int;
    let (lo, hi) = (tag % m, tag / m);
    assert(0 <= hi < m) by (nonlinear_arith)
        requires
            hi == tag / m,
            0 <= tag < m * m,
            m > 0,
    ;
    lemma_centered(lo, m);
    lemma_centered(hi, m);
    vstd::arithmetic::div_mod::lemma_small_mod(lo as nat, m as nat);
    vstd::arithmetic::div_mod::lemma_small_mod(hi as nat, m as nat);
    vstd::arithmetic::div_mod::lemma_fundamental_div_mod(tag, m);
}

/// An element is an item, and goes where its tag hashes to.
proof fn lemma_item(t: MseEncoding, payload: Seq<i64>, tag: int)
    requires
        t.wf(),
        payload.len() == t.params.payload_symbols,
        0 <= tag < T * T,
    ensures
        is_item(shape(t.params), t.grid(), width(t.params), item(payload, tag)),
        tag_of(item(payload, tag)) == tag,
{
    let (p, s, x) = (t.params, shape(t.params), item(payload, tag));
    let m = T as int;
    lemma_grid(t);
    lemma_item_tag(payload, tag);
    let (lo, hi) = (tag % m, tag / m);
    assert forall|c: int| 0 <= c < width(p) implies kept(s, #[trigger] x[c]) == x[c] by {
        if c == 0 {
            lemma_centered_id(1, m);
        } else {
            let raw = if c == 1 {
                lo
            } else if c == 2 {
                hi
            } else {
                payload[c - 3] as int
            };
            lemma_centered(raw, m);
            lemma_centered_id(centered(raw, m), m);
        }
    }
    assert forall|l: int| 0 <= l < t.grid().len() implies 0 <= #[trigger] (s.place)(x)[l]
        < t.grid()[l].len() by {
        assert(t.grid()[l].len() == p.delta);
    }
}

impl MseEncoding {
    /// An empty table.
    pub fn new(params: MseParams) -> (r: Self)
        requires
            params.valid(),
        ensures
            r.wf(),
            r.params == params,
            is_clear(r.grid()),
            r.encodes(Seq::empty()),
    {
        proof {
            lemma_sizes(params);
        }
        let n: usize = params.total_cells();
        let c: Vec<i64> = zeros(n);
        let mut k: Vec<Vec<i64>> = Vec::with_capacity(2);
        k.push(zeros(n));
        k.push(zeros(n));
        let mut v: Vec<Vec<i64>> = Vec::with_capacity(params.payload_symbols);
        for s in 0..params.payload_symbols
            invariant
                v.len() == s,
                forall|i: int| 0 <= i < s ==> (#[trigger] v[i]).len() == n,
                forall|i: int, j: int| 0 <= i < s && 0 <= j < n ==> #[trigger] v[i][j] == 0,
        {
            v.push(zeros(n));
        }
        let r = MseEncoding { params, c, k, v };
        proof {
            assert forall|e: int| 0 <= e < params.entries() implies (#[trigger] r.column(e)).len()
                == params.cells() && limited(r.column(e)) && forall|i: int|
                0 <= i < n ==> r.column(e)[i] == 0 by {
                if e >= 3 {
                    assert(r.v[e - 3].len() == n);
                    assert forall|i: int| 0 <= i < n implies r.column(e)[i] == 0 by {
                        assert(r.v[e - 3][i] == 0);
                    }
                }
                assert forall|i: int| 0 <= i < n implies r.column(e)[i] == 0 by {
                    if e == 0 {
                        assert(r.c[i] == 0);
                    } else if e < 3 {
                        assert(r.k[e - 1][i] == 0);
                    }
                }
            }
            lemma_grid(r);
            let g = r.grid();
            assert forall|l: int, i: int, e: int|
                0 <= l < g.len() && 0 <= i < g[l].len() && 0 <= e < g[l][i].len() implies
                #[trigger] g[l][i][e] == 0 by {
                lemma_cell_number(params, l, i);
                assert(r.column(e)[l * params.delta + i] == 0);
            }
            peel::lemma_empty(shape(params), g, width(params));
            assert(Seq::<(Seq<i64>, int)>::empty().map(
                |_i: int, x: (Seq<i64>, int)| item(x.0, x.1),
            ) =~= Seq::<Cell>::empty());
        }
        r
    }

    /// Adds an element under a random tag: the next 128-bit word that the
    /// generator gives, reduced to the tag space, whatever the payload.
    pub fn insert(&mut self, rng: &mut ChaCha20Rng, payload: &[i64])
        requires
            old(self).wf(),
            payload.len() == old(self).params.payload_symbols,
        ensures
            final(self).wf(),
            final(self).params == old(self).params,
            exists|tag: int|
                0 <= tag < T * T && #[trigger] is_put(
                    shape(old(self).params),
                    old(self).grid(),
                    width(old(self).params),
                    item(payload@, tag),
                    final(self).grid(),
                ) && (forall|list: Seq<(Seq<i64>, int)>| #[trigger]
                    old(self).encodes(list) ==> final(self).encodes(list.push((payload@, tag))))
                    && (exists|w: u128| #[trigger]
                    gives_wide(*old(rng), w, *final(rng)) && tag == w as int % (T * T)),
    {
        let space: u128 = self.params.r_space();
        let word: u128 = next_wide(rng);
        let tag: u128 = word % space;
        let ghost before = *self;
        self.insert_with_r(payload, tag);
        assert(is_put(
            shape(before.params),
            before.grid(),
            width(before.params),
            item(payload@, tag as int),
            self.grid(),
        ));
    }

    /// Adds an element under a given tag.
    pub fn insert_with_r(&mut self, payload: &[i64], r: u128)
        requires
            old(self).wf(),
            payload.len() == old(self).params.payload_symbols,
            r < T * T,
        ensures
            final(self).wf(),
            final(self).params == old(self).params,
            is_put(
                shape(old(self).params),
                old(self).grid(),
                width(old(self).params),
                item(payload@, r as int),
                final(self).grid(),
            ),
            forall|list: Seq<(Seq<i64>, int)>| #[trigger]
                old(self).encodes(list) ==> final(self).encodes(list.push((payload@, r as int))),
    {
        let ghost before = *self;
        let ghost p = self.params;
        let ghost s = shape(p);
        let ghost g = self.grid();
        let ghost x = item(payload@, r as int);
        let mut vec: Vec<i64> = Vec::with_capacity(payload.len());
        proof {
            lemma_sizes(p);
            lemma_item(*self, payload@, r as int);
            lemma_grid(*self);
            let (tag, m) = (r as int, T as int);
            assert(0 <= tag / m < m) by (nonlinear_arith)
                requires
                    0 <= tag < m * m,
                    m > 0,
            ;
        }
        vec.push(1);
        vec.push(center_i64((r % 68_719_476_736) as i64, T));
        vec.push(center_i64((r / 68_719_476_736) as i64, T));
        for i in 0..payload.len()
            invariant
                payload.len() == p.payload_symbols,
                x == item(payload@, r as int),
                vec.len() == 3 + i,
                forall|e: int| 0 <= e < vec.len() ==> #[trigger] vec[e] == x[e],
        {
            vec.push(center_i64(payload[i], T));
        }
        proof {
            assert forall|e: int| 0 <= e < vec.len() implies -ENTRY_LIMIT <= #[trigger] vec@[e]
                <= ENTRY_LIMIT by {
                assert(vec[e] == x[e]);
                assert(kept(s, x[e]) == x[e]);
                lemma_centered(x[e], T as int);
            }
        }
        let rows: usize = self.params.gamma;
        for row in 0..rows
            invariant
                self.wf(),
                self.params == p,
                rows == p.gamma,
                s == shape(p),
                x == item(payload@, r as int),
                tag_of(x) == r,
                vec.len() == p.entries(),
                limited(vec@),
                forall|e: int| 0 <= e < vec.len() ==> #[trigger] vec[e] == x[e],
                g.len() == p.gamma,
                regular(g, width(p)),
                forall|l: int| 0 <= l < p.gamma ==> #[trigger] g[l].len() == p.delta,
                self.grid().len() == p.gamma,
                forall|l: int| row <= l < p.gamma ==> #[trigger] self.grid()[l] == g[l],
                forall|l: int|
                    0 <= l < row ==> #[trigger] self.grid()[l] == g[l].update(
                        (s.place)(x)[l],
                        Seq::new(width(p), |e: int| moved(g[l][(s.place)(x)[l]][e], x[e], true)),
                    ),
        {
            let col: usize = prf_bucket(&self.params.prf_key, row, r, self.params.delta);
            assert((s.place)(x)[row as int] == col);
            assert(self.grid()[row as int] == g[row as int]);
            self.shift_cell(row, col, &vec, true);
            assert(Seq::new(
                width(p),
                |e: int| moved(g[row as int][col as int][e], vec[e] as int, true),
            ) =~= Seq::new(width(p), |e: int| moved(g[row as int][col as int][e], x[e], true)));
        }
        proof {
            lemma_grid(*self);
            let t = self.grid();
            assert forall|l: int| 0 <= l < g.len() implies (#[trigger] t[l]).len() == g[l].len() by {
                assert(g[l].len() == p.delta);
            }
            assert forall|l: int, i: int, c: int|
                0 <= l < g.len() && 0 <= i < g[l].len() && 0 <= c < width(p) implies
                #[trigger] t[l][i][c] == (if (s.place)(x)[l] == i {
                kept(s, g[l][i][c] + x[c])
            } else {
                g[l][i][c]
            }) by {
                assert(t[l] == g[l].update(
                    (s.place)(x)[l],
                    Seq::new(width(p), |e: int| moved(g[l][(s.place)(x)[l]][e], x[e], true)),
                ));
                assert(g[l].len() == p.delta);
                assert(0 <= (s.place)(x)[l] < g[l].len());
            }
            assert(is_put(s, g, width(p), x, t));
            assert forall|list: Seq<(Seq<i64>, int)>| #[trigger] before.encodes(
                list,
            ) implies self.encodes(list.push((payload@, r as int))) by {
                let f = |_i: int, x: (Seq<i64>, int)| item(x.0, x.1);
                peel::lemma_put_in(s, g, width(p), list.map(f), x, t);
                assert(list.push((payload@, r as int)).map(f) =~= list.map(f).push(x));
            }
        }
    }

    /// Adds another table entry by entry; the sum encodes the elements of both.
    pub fn add_assign(&mut self, other: &Self) -> (r: Result<(), MseError>)
        requires
            old(self).wf(),
            other.wf(),
        ensures
            final(self).wf(),
            final(self).params == old(self).params,
            !old(self).params.same(other.params) <==> r == Err::<(), _>(MseError::ParamsMismatch),
            r is Err ==> *final(self) == *old(self) && r == Err::<(), _>(MseError::ParamsMismatch),
            r is Ok ==> is_union(
                shape(old(self).params),
                old(self).grid(),
                other.grid(),
                width(old(self).params),
                final(self).grid(),
            ),
            r is Ok ==> forall|a: Seq<(Seq<i64>, int)>, b: Seq<(Seq<i64>, int)>| #[trigger]
                old(self).encodes(a) && #[trigger] other.encodes(b) ==> final(self).encodes(a + b),
    {
        if !self.params.is_same(&other.params) {
            return Err(MseError::ParamsMismatch);
        }
        let ghost before = *self;
        let ghost p = self.params;
        proof {
            lemma_sizes(p);
        }
        let n: usize = self.params.total_cells();
        let entries: usize = 3 + self.params.payload_symbols;
        for e in 0..entries
            invariant
                self.wf(),
                other.wf(),
                before.wf(),
                self.params == p,
                before.params == p,
                p.same(other.params),
                entries == p.entries(),
                n == p.cells(),
                forall|d: int|
                    0 <= d < p.entries() ==> #[trigger] self.column(d) == (if d < e {
                        sum_column(before.column(d), other.column(d))
                    } else {
                        before.column(d)
                    }),
        {
            let ghost start = self.column(e as int);
            let ghost mid = *self;
            assert(before.column(e as int).len() == p.cells());
            assert(other.column(e as int).len() == other.params.cells());
            assert(start.take(0) =~= Seq::<i64>::empty());
            for i in 0..n
                invariant
                    self.wf(),
                    other.wf(),
                    self.params == p,
                    mid.params == p,
                    p.same(other.params),
                    e < p.entries(),
                    n == p.cells(),
                    start.len() == n,
                    other.column(e as int).len() == n,
                    forall|d: int|
                        0 <= d < p.entries() && d != e ==> #[trigger] self.column(d) == mid.column(
                            d,
                        ),
                    self.column(e as int).len() == n,
                    forall|j: int| i <= j < n ==> self.column(e as int)[j] == #[trigger] start[j],
                    forall|j: int|
                        0 <= j < i ==> #[trigger] self.column(e as int)[j] == sum_column(
                            start,
                            other.column(e as int),
                        )[j],
            {
                let ghost prev = self.column(e as int);
                let a: i64 = self.entry(e, i);
                let b: i64 = other.entry(e, i);
                assert(prev[i as int] == start[i as int]);
                let y: i64 = center_i64(a + b, T);
                proof {
                    lemma_centered(a + b, T as int);
                }
                self.set_entry(e, i, y);
                assert(self.column(e as int) == prev.update(i as int, y));
            }
            assert(self.column(e as int) =~= sum_column(before.column(e as int), other.column(e as int)));
        }
        proof {
            let (s, w) = (shape(p), width(p));
            lemma_grid(*self);
            lemma_grid(before);
            lemma_grid(*other);
            let (g, h, t) = (before.grid(), other.grid(), self.grid());
            assert forall|l: int| 0 <= l < g.len() implies (#[trigger] t[l]).len() == g[l].len() by {}
            assert forall|l: int| 0 <= l < g.len() implies (#[trigger] h[l]).len() == g[l].len() by {}
            assert forall|l: int, i: int, c: int|
                0 <= l < g.len() && 0 <= i < g[l].len() && 0 <= c < w implies #[trigger] t[l][i][c]
                == kept(s, g[l][i][c] + h[l][i][c]) by {
                lemma_cell_number(p, l, i);
                assert(self.column(c) == sum_column(before.column(c), other.column(c)));
                assert(before.column(c).len() == p.cells());
                lemma_centered(
                    before.column(c)[l * p.delta + i] + other.column(c)[l * p.delta + i],
                    T as int,
                );
            }
            assert(is_union(s, g, h, w, t));
            assert forall|a: Seq<(Seq<i64>, int)>, b: Seq<(Seq<i64>, int)>| #[trigger]
                before.encodes(a) && #[trigger] other.encodes(b) implies self.encodes(a + b) by {
                let f = |_i: int, x: (Seq<i64>, int)| item(x.0, x.1);
                assert(holds(s, h, w, b.map(f))) by {
                    lemma_same_shape(*other, p, b.map(f));
                }
                peel::lemma_union(s, g, h, w, a.map(f), b.map(f), t);
                assert((a + b).map(f) =~= a.map(f) + b.map(f));
            }
        }
        Ok(())
    }
}

/// Equal parameters give the same shape of table.
proof fn lemma_same_shape(t: MseEncoding, p: MseParams, items: Seq<Cell>)
    requires
        t.wf(),
        p.same(t.params),
        holds(shape(t.params), t.grid(), width(t.params), items),
    ensures
        holds(shape(p), t.grid(), width(p), items),
{
    let (a, b) = (shape(t.params), shape(p));
    assert forall|v: Cell| #[trigger] (a.place)(v) == (b.place)(v) by {
        assert((a.place)(v) =~= (b.place)(v));
    }
    let (g, w) = (t.grid(), width(p));
    assert forall|j: int| 0 <= j < items.len() implies is_item(b, g, w, #[trigger] items[j]) by {
        assert(is_item(a, g, w, items[j]));
        assert((a.place)(items[j]) == (b.place)(items[j]));
        assert forall|c: int| 0 <= c < w implies kept(b, #[trigger] items[j][c]) == items[j][c] by {
            assert(kept(a, items[j][c]) == items[j][c]);
        }
    }
    assert forall|l: int, i: int, c: int|
        0 <= l < g.len() && 0 <= i < g[l].len() && 0 <= c < w implies #[trigger] g[l][i][c] == kept(
        b,
        peel::load(b, items, l, i, c),
    ) by {
        lemma_same_load(a, b, items, l, i, c);
        assert(g[l][i][c] == kept(a, peel::load(a, items, l, i, c)));
    }
}

proof fn lemma_same_load(a: Shape, b: Shape, items: Seq<Cell>, l: int, i: int, c: int)
    requires
        forall|v: Cell| #[trigger] (a.place)(v) == (b.place)(v),
    ensures
        peel::load(a, items, l, i, c) == peel::load(b, items, l, i, c),
    decreases items.len(),
{
    if items.len() > 0 {
        lemma_same_load(a, b, items.drop_last(), l, i, c);
        assert((a.place)(items.last()) == (b.place)(items.last()));
    }
}

/// Entry-wise centered sum.
pub open spec fn sum_column(a: Seq<i64>, b: Seq<i64>) -> Seq<i64> {
    Seq::new(a.len(), |i: int| centered(a[i] + b[i], T as int) as i64)
}

// ---------------------------------------------------------------
// Sorting payloads
// ---------------------------------------------------------------

/// Lexicographic order.
pub open spec fn lex_le(a: Seq<i64>, b: Seq<i64>) -> bool
    decreases a.len(),
{
    if a.len() == 0 {
        true
    } else if b.len() == 0 {
        false
    } else {
        a[0] < b[0] || (a[0] == b[0] && lex_le(a.drop_first(), b.drop_first()))
    }
}

proof fn lemma_lex_total(a: Seq<i64>, b: Seq<i64>)
    ensures
        lex_le(a, b) || lex_le(b, a),
    decreases a.len(),
{
    if a.len() > 0 && b.len() > 0 && a[0] == b[0] {
        lemma_lex_total(a.drop_first(), b.drop_first());
    }
}

proof fn lemma_lex_trans(a: Seq<i64>, b: Seq<i64>, c: Seq<i64>)
    requires
        lex_le(a, b),
        lex_le(b, c),
    ensures
        lex_le(a, c),
    decreases a.len(),
{
    if a.len() > 0 && b.len() > 0 && c.len() > 0 && a[0] == b[0] && b[0] == c[0] {
        lemma_lex_trans(a.drop_first(), b.drop_first(), c.drop_first());
    }
}

fn lex_at_most(a: &Vec<i64>, b: &Vec<i64>) -> (r: bool)
    ensures
        r == lex_le(a@, b@),
{
    let mut i: usize = 0;
    assert(a@.skip(0) =~= a@);
    assert(b@.skip(0) =~= b@);
    while i < a.len() && i < b.len()
        invariant
            i <= a.len(),
            i <= b.len(),
            lex_le(a@, b@) == lex_le(a@.skip(i as int), b@.skip(i as int)),
        decreases a.len() - i,
    {
        let ghost (x, y) = (a@.skip(i as int), b@.skip(i as int));
        assert(x[0] == a@[i as int] && y[0] == b@[i as int]);
        if a[i] < b[i] {
            return true;
        }
        if a[i] > b[i] {
            return false;
        }
        assert(x.drop_first() =~= a@.skip(i + 1));
        assert(y.drop_first() =~= b@.skip(i + 1));
        i = i + 1;
    }
    i >= a.len()
}

/// Payload contents.
pub open spec fn payloads(s: Seq<Vec<i64>>) -> Seq<Seq<i64>> {
    s.map_values(|p: Vec<i64>| p@)
}

/// Lexicographically ascending.
pub open spec fn ascending(s: Seq<Seq<i64>>) -> bool {
    forall|i: int, j: int| 0 <= i < j < s.len() ==> lex_le(#[trigger] s[i], #[trigger] s[j])
}

/// Sorts payloads.
pub(crate) fn sort_payloads(items: Vec<Vec<i64>>) -> (r: Vec<Vec<i64>>)
    ensures
        ascending(payloads(r@)),
        payloads(r@).to_multiset() == payloads(items@).to_multiset(),
{
    broadcast use vstd::seq_lib::group_to_multiset_ensures;

    let mut rest: Vec<Vec<i64>> = items;
    let mut out: Vec<Vec<i64>> = Vec::with_capacity(rest.len());
    let ghost all = payloads(items@).to_multiset();
    proof {
        assert(payloads(out@) =~= Seq::<Seq<i64>>::empty());
        assert(all =~= payloads(rest@).to_multiset().add(payloads(out@).to_multiset()));
    }
    while rest.len() > 0
        invariant
            ascending(payloads(out@)),
            all == payloads(rest@).to_multiset().add(payloads(out@).to_multiset()),
        decreases rest.len(),
    {
        let ghost before = rest@;
        let ghost old_out = payloads(out@);
        match rest.pop() {
            None => {},
            Some(x) => {
                let ghost xv = x@;
                let mut pos: usize = 0;
                while pos < out.len() && !lex_at_most(&x, &out[pos])
                    invariant
                        pos <= out.len(),
                        payloads(out@) == old_out,
                        xv == x@,
                        forall|k: int| 0 <= k < pos ==> !lex_le(xv, #[trigger] old_out[k]),
                    decreases out.len() - pos,
                {
                    pos = pos + 1;
                }
                out.insert(pos, x);
                proof {
                    let now = payloads(out@);
                    assert(now =~= old_out.insert(pos as int, xv));
                    assert(payloads(before) =~= payloads(rest@).push(xv));
                    vstd::seq_lib::to_multiset_build(payloads(rest@), xv);
                    vstd::seq_lib::to_multiset_insert(old_out, pos as int, xv);
                    assert(all =~= payloads(rest@).to_multiset().add(now.to_multiset()));
                    assert forall|i: int, j: int| 0 <= i < j < now.len() implies lex_le(
                        #[trigger] now[i],
                        #[trigger] now[j],
                    ) by {
                        let p = pos as int;
                        let a = if i < p { i } else { i - 1 };
                        let b = if j < p { j } else { j - 1 };
                        if i != p && j != p {
                            assert(lex_le(old_out[a], old_out[b]));
                        } else if j == p {
                            lemma_lex_total(xv, old_out[i]);
                            assert(!lex_le(xv, old_out[i]));
                        } else {
                            assert(lex_le(xv, old_out[p]));
                            if b > p {
                                assert(lex_le(old_out[p], old_out[b]));
                                lemma_lex_trans(xv, old_out[p], old_out[b]);
                            }
                        }
                    }
                }
            },
        }
    }
    proof {
        assert(payloads(rest@) =~= Seq::<Seq<i64>>::empty());
        assert(payloads(rest@).to_multiset() =~= vstd::multiset::Multiset::empty());
        assert(all =~= payloads(out@).to_multiset());
    }
    out
}

// ---------------------------------------------------------------
// Decoding
// ---------------------------------------------------------------

/// The payload that a cell shows.
pub open spec fn shown_payload(v: Cell) -> Seq<i64> {
    v.skip(3).map_values(|x: int| x as i64)
}

/// A run of peeling after which every cell that counts one element was taken.
pub open spec fn is_full_run(p: MseParams, g: Grid, steps: Seq<(int, int)>) -> bool {
    &&& legal(shape(p), g, steps)
    &&& forall|l: int, i: int|
        #[trigger] is_pure(after(shape(p), g, steps), l, i) ==> steps.contains((l, i))
}

/// The cells waiting, and the cells taken, after `n` visits. At first the cells
/// that count one element wait, row by row; the last to wait is visited, taken
/// if it counts one, and the cells this bares wait after the others.
pub open spec fn visits(p: MseParams, g: Grid, n: nat) -> (Seq<(int, int)>, Seq<(int, int)>)
    decreases n,
{
    if n == 0 {
        (pure_in_order(g, p.gamma as nat), seq![])
    } else {
        let (waiting, steps) = visits(p, g, (n - 1) as nat);
        if waiting.len() == 0 {
            (waiting, steps)
        } else {
            let t = after(shape(p), g, steps);
            let (l, i) = waiting.last();
            if is_pure(t, l, i) {
                (
                    waiting.drop_last() + bared(shape(p), t, t[l][i], p.gamma as nat),
                    steps.push((l, i)),
                )
            } else {
                (waiting.drop_last(), steps)
            }
        }
    }
}

/// Nothing waits after `n` visits, and these cells were taken.
pub open spec fn ends_after(p: MseParams, g: Grid, n: nat, steps: Seq<(int, int)>) -> bool {
    visits(p, g, n).0.len() == 0 && visits(p, g, n).1 == steps
}

/// The cells taken do not depend on how long one goes on visiting.
pub proof fn law_peeling_is_determined(
    p: MseParams,
    g: Grid,
    m: nat,
    n: nat,
    a: Seq<(int, int)>,
    b: Seq<(int, int)>,
)
    requires
        ends_after(p, g, m, a),
        ends_after(p, g, n, b),
    ensures
        a == b,
{
    lemma_nothing_waits(p, g, m, m + n);
    lemma_nothing_waits(p, g, n, m + n);
}

proof fn lemma_nothing_waits(p: MseParams, g: Grid, m: nat, n: nat)
    requires
        visits(p, g, m).0.len() == 0,
        m <= n,
    ensures
        visits(p, g, n) == visits(p, g, m),
    decreases n,
{
    if m < n {
        lemma_nothing_waits(p, g, m, (n - 1) as nat);
    }
}

/// What the cells of a run showed.
pub open spec fn run_payloads(p: MseParams, g: Grid, steps: Seq<(int, int)>) -> Seq<Seq<i64>> {
    shown(shape(p), g, steps).map_values(|v: Cell| shown_payload(v))
}

/// How far a count is past one, going down around the ring.
spec fn lag(c: int) -> int {
    (1 - c) % (T as int)
}

spec fn row_lag(row: Seq<Cell>) -> int
    decreases row.len(),
{
    if row.len() == 0 {
        0
    } else {
        row_lag(row.drop_last()) + lag(row.last()[0])
    }
}

spec fn grid_lag(g: Grid) -> int
    decreases g.len(),
{
    if g.len() == 0 {
        0
    } else {
        grid_lag(g.drop_last()) + row_lag(g.last())
    }
}

proof fn lemma_row_lag(row: Seq<Cell>, i: int, x: Cell)
    requires
        0 <= i < row.len(),
    ensures
        row_lag(row.update(i, x)) == row_lag(row) - lag(row[i][0]) + lag(x[0]),
    decreases row.len(),
{
    let low = row.drop_last();
    if i == row.len() - 1 {
        assert(row.update(i, x).drop_last() =~= low);
    } else {
        lemma_row_lag(low, i, x);
        assert(row.update(i, x).drop_last() =~= low.update(i, x));
    }
}

proof fn lemma_grid_lag(g: Grid, l: int, row: Seq<Cell>)
    requires
        0 <= l < g.len(),
    ensures
        grid_lag(g.update(l, row)) == grid_lag(g) - row_lag(g[l]) + row_lag(row),
    decreases g.len(),
{
    let low = g.drop_last();
    if l == g.len() - 1 {
        assert(g.update(l, row).drop_last() =~= low);
    } else {
        lemma_grid_lag(low, l, row);
        assert(g.update(l, row).drop_last() =~= low.update(l, row));
    }
}

proof fn lemma_lag_nonnegative(g: Grid)
    ensures
        grid_lag(g) >= 0,
    decreases g.len(),
{
    if g.len() > 0 {
        lemma_lag_nonnegative(g.drop_last());
        lemma_row_lag_nonnegative(g.last());
    }
}

proof fn lemma_row_lag_nonnegative(row: Seq<Cell>)
    ensures
        row_lag(row) >= 0,
    decreases row.len(),
{
    if row.len() > 0 {
        lemma_row_lag_nonnegative(row.drop_last());
    }
}

/// Taking one off a count moves it one further, or to one.
proof fn lemma_lag_step(c: int)
    ensures
        ({
            let d = centered(c - 1, T as int);
            if d == 1 {
                lag(d) + T == lag(c) + 1
            } else {
                lag(d) == lag(c) + 1
            }
        }),
{
    let (d, m) = (centered(c - 1, T as int), T as int);
    lemma_centered(c - 1, m);
    field::lemma_cong_ops(1, 1, d, c - 1, m);
    let a = (1 - c) % m;
    assert((1 - d) % m == (2 - c) % m);
    vstd::arithmetic::div_mod::lemma_mod_bound(1 - c, m);
    if a == m - 1 {
        assert((2 - c) % m == 0);
        field::lemma_cong_close(d, 1, m);
    } else {
        assert((2 - c) % m == a + 1);
    }
}

/// The first `n` rows of `a`, then the rows of `b`.
spec fn spliced(a: Grid, b: Grid, n: int) -> Grid {
    Seq::new(
        b.len(),
        |l: int|
            if l < n {
                a[l]
            } else {
                b[l]
            },
    )
}

spec fn waits(queue: Seq<(usize, usize)>, l: int, i: int) -> bool {
    exists|k: int| 0 <= k < queue.len() && (#[trigger] queue[k]).0 == l && queue[k].1 == i
}

spec fn all_known(g: Grid, queue: Seq<(usize, usize)>, steps: Seq<(int, int)>) -> bool {
    forall|l: int, i: int|
        #[trigger] is_pure(g, l, i) ==> steps.contains((l, i)) || waits(queue, l, i)
}

proof fn lemma_waits_push(queue: Seq<(usize, usize)>, x: (usize, usize))
    ensures
        forall|l: int, i: int|
            #![trigger waits(queue.push(x), l, i)]
            waits(queue, l, i) ==> waits(queue.push(x), l, i),
        waits(queue.push(x), x.0 as int, x.1 as int),
{
    let q = queue.push(x);
    assert(q[queue.len() as int] == x);
    assert forall|l: int, i: int|
        #![trigger waits(q, l, i)]
        waits(queue, l, i) implies waits(q, l, i) by {
        let k = choose|k: int|
            0 <= k < queue.len() && (#[trigger] queue[k]).0 == l && queue[k].1 == i;
        assert(q[k] == queue[k]);
    }
}

fn copy_column(s: &Vec<i64>) -> (r: Vec<i64>)
    ensures
        r@ == s@,
{
    let mut out: Vec<i64> = Vec::with_capacity(s.len());
    for i in 0..s.len()
        invariant
            out@ == s@.take(i as int),
    {
        out.push(s[i]);
        assert(out@ =~= s@.take(i + 1));
    }
    assert(s@.take(s.len() as int) =~= s@);
    out
}

fn copy_columns(s: &Vec<Vec<i64>>) -> (r: Vec<Vec<i64>>)
    ensures
        r.len() == s.len(),
        forall|i: int| 0 <= i < s.len() ==> (#[trigger] r[i])@ == s[i]@,
{
    let mut out: Vec<Vec<i64>> = Vec::with_capacity(s.len());
    for i in 0..s.len()
        invariant
            out.len() == i,
            forall|k: int| 0 <= k < i ==> (#[trigger] out[k])@ == s[k]@,
    {
        out.push(copy_column(&s[i]));
    }
    out
}

impl Clone for MseEncoding {
    fn clone(&self) -> (r: Self)
        ensures
            r.params == self.params,
            r.c@ == self.c@,
            r.k.len() == self.k.len(),
            r.v.len() == self.v.len(),
            forall|i: int| 0 <= i < self.k.len() ==> (#[trigger] r.k[i])@ == self.k[i]@,
            forall|i: int| 0 <= i < self.v.len() ==> (#[trigger] r.v[i])@ == self.v[i]@,
    {
        MseEncoding {
            params: self.params,
            c: copy_column(&self.c),
            k: copy_columns(&self.k),
            v: copy_columns(&self.v),
        }
    }
}

proof fn lemma_same_grid(a: MseEncoding, b: MseEncoding)
    requires
        a.wf(),
        b.params == a.params,
        b.c@ == a.c@,
        b.k.len() == a.k.len(),
        b.v.len() == a.v.len(),
        forall|i: int| 0 <= i < a.k.len() ==> (#[trigger] b.k[i])@ == a.k[i]@,
        forall|i: int| 0 <= i < a.v.len() ==> (#[trigger] b.v[i])@ == a.v[i]@,
    ensures
        b.wf(),
        b.grid() == a.grid(),
{
    let p = a.params;
    assert forall|e: int| 0 <= e < p.entries() implies #[trigger] b.column(e) == a.column(e) by {}
    assert forall|e: int| 0 <= e < p.entries() implies (#[trigger] b.column(e)).len() == p.cells()
        && limited(b.column(e)) by {
        assert(a.column(e).len() == p.cells() && limited(a.column(e)));
    }
    assert forall|l: int| 0 <= l < p.gamma implies b.grid()[l] =~= a.grid()[l] by {
        assert forall|i: int| 0 <= i < p.delta implies b.grid()[l][i] == a.grid()[l][i] by {
            assert(b.grid()[l][i] =~= a.grid()[l][i]) by {
                assert forall|e: int| 0 <= e < p.entries() implies b.grid()[l][i][e]
                    == a.grid()[l][i][e] by {
                    assert(b.column(e) == a.column(e));
                }
            }
        }
    }
    assert(b.grid() =~= a.grid());
}

impl MseEncoding {
    /// The entries of a cell.
    fn read_cell(&self, row: usize, col: usize) -> (r: Vec<i64>)
        requires
            self.wf(),
            row < self.params.gamma,
            col < self.params.delta,
        ensures
            r.len() == self.params.entries(),
            forall|e: int|
                0 <= e < r.len() ==> #[trigger] r[e] == self.grid()[row as int][col as int][e],
            limited(r@),
    {
        proof {
            lemma_cell_number(self.params, row as int, col as int);
            lemma_sizes(self.params);
        }
        let cell: usize = row * self.params.delta + col;
        let n: usize = 3 + self.params.payload_symbols;
        let mut out: Vec<i64> = Vec::with_capacity(n);
        for e in 0..n
            invariant
                self.wf(),
                row < self.params.gamma,
                col < self.params.delta,
                n == self.params.entries(),
                cell == row * self.params.delta + col,
                cell < self.params.cells(),
                out.len() == e,
                forall|d: int|
                    0 <= d < e ==> #[trigger] out[d] == self.grid()[row as int][col as int][d],
                limited(out@),
        {
            let x: i64 = self.entry(e, cell);
            out.push(x);
        }
        out
    }

    /// Whether every entry is zero.
    fn all_zero(&self) -> (r: bool)
        requires
            self.wf(),
        ensures
            r == is_clear(self.grid()),
    {
        let ghost g = self.grid();
        let (rows, cols): (usize, usize) = (self.params.gamma, self.params.delta);
        proof {
            lemma_sizes(self.params);
        }
        let n: usize = 3 + self.params.payload_symbols;
        for row in 0..rows
            invariant
                self.wf(),
                g == self.grid(),
                rows == self.params.gamma,
                cols == self.params.delta,
                n == self.params.entries(),
                forall|l: int, i: int, e: int|
                    0 <= l < row && 0 <= i < cols && 0 <= e < n ==> #[trigger] g[l][i][e] == 0,
        {
            for col in 0..cols
                invariant
                    self.wf(),
                    g == self.grid(),
                    row < rows,
                    rows == self.params.gamma,
                    cols == self.params.delta,
                    n == self.params.entries(),
                    forall|i: int, e: int|
                        0 <= i < col && 0 <= e < n ==> #[trigger] g[row as int][i][e] == 0,
            {
                let x: Vec<i64> = self.read_cell(row, col);
                for e in 0..n
                    invariant
                        g == self.grid(),
                        row < rows,
                        col < cols,
                        rows == self.params.gamma,
                        cols == self.params.delta,
                        n == self.params.entries(),
                        x.len() == n,
                        forall|d: int|
                            0 <= d < n ==> #[trigger] x[d] == g[row as int][col as int][d],
                        forall|d: int|
                            0 <= d < e ==> #[trigger] g[row as int][col as int][d] == 0,
                {
                    if x[e] != 0 {
                        assert(g[row as int][col as int][e as int] != 0);
                        return false;
                    }
                }
            }
        }
        true
    }

    /// The cells that count one element, row by row.
    fn pure_cells(&self) -> (queue: Vec<(usize, usize)>)
        requires
            self.wf(),
        ensures
            cells_of(queue@) == pure_in_order(self.grid(), self.params.gamma as nat),
            forall|l: int, i: int| #[trigger] is_pure(self.grid(), l, i) ==> waits(queue@, l, i),
            forall|k: int|
                0 <= k < queue.len() ==> (#[trigger] queue[k]).0 < self.params.gamma && queue[k].1
                    < self.params.delta,
    {
        let mut queue: Vec<(usize, usize)> = Vec::new();
        let ghost g = self.grid();
        let (rows, cols): (usize, usize) = (self.params.gamma, self.params.delta);
        assert(cells_of(queue@) =~= pure_in_order(g, 0));
        for row in 0..rows
            invariant
                self.wf(),
                g == self.grid(),
                rows == self.params.gamma,
                cols == self.params.delta,
                cells_of(queue@) == pure_in_order(g, row as nat),
                forall|l: int, i: int| #[trigger]
                    is_pure(g, l, i) && l < row ==> waits(queue@, l, i),
                forall|k: int|
                    0 <= k < queue.len() ==> (#[trigger] queue[k]).0 < rows && queue[k].1 < cols,
        {
            let ghost first = cells_of(queue@);
            assert(first + pure_in_level(g, row as int, 0) =~= first);
            for col in 0..cols
                invariant
                    self.wf(),
                    g == self.grid(),
                    row < rows,
                    rows == self.params.gamma,
                    cols == self.params.delta,
                    cells_of(queue@) == first + pure_in_level(g, row as int, col as nat),
                    forall|l: int, i: int| #[trigger]
                        is_pure(g, l, i) && (l < row || (l == row && i < col)) ==> waits(
                            queue@,
                            l,
                            i,
                        ),
                    forall|k: int|
                        0 <= k < queue.len() ==> (#[trigger] queue[k]).0 < rows && queue[k].1 < cols,
            {
                proof {
                    lemma_cell_number(self.params, row as int, col as int);
                    lemma_sizes(self.params);
                }
                let count: i64 = self.entry(0, row * self.params.delta + col);
                assert(count == g[row as int][col as int][0]);
                let ghost before = queue@;
                if count == 1 {
                    queue.push((row, col));
                    proof {
                        lemma_waits_push(before, (row, col));
                        let x = (row as int, col as int);
                        assert(cells_of(queue@) =~= cells_of(before).push(x));
                        let part = pure_in_level(g, row as int, col as nat);
                        assert((first + part).push(x) =~= first + part.push(x));
                    }
                }
            }
        }
        queue
    }

    /// Lists the payloads by peeling, ascending; fails when something is left.
    /// Cells are taken in the order of `visits`.
    pub fn decode(&self) -> (r: Result<Vec<Vec<i64>>, MseError>)
        requires
            self.wf(),
        ensures
            match r {
                Ok(out) => ascending(payloads(out@)) && exists|steps: Seq<(int, int)>, n: nat|
                    #[trigger] ends_after(self.params, self.grid(), n, steps) && is_full_run(
                        self.params,
                        self.grid(),
                        steps,
                    ) && is_clear(after(shape(self.params), self.grid(), steps)) && payloads(
                        out@,
                    ).to_multiset() == run_payloads(
                        self.params,
                        self.grid(),
                        steps,
                    ).to_multiset(),
                Err(e) => e == MseError::PeelStalled && exists|steps: Seq<(int, int)>, n: nat|
                    #[trigger] ends_after(self.params, self.grid(), n, steps) && is_full_run(
                        self.params,
                        self.grid(),
                        steps,
                    ) && !is_clear(after(shape(self.params), self.grid(), steps)),
            },
    {
        let ghost p = self.params;
        let ghost s = shape(p);
        let ghost g0 = self.grid();
        let mut working: MseEncoding = self.clone();
        proof {
            lemma_same_grid(*self, working);
            lemma_lag_nonnegative(working.grid());
        }
        let mut queue: Vec<(usize, usize)> = working.pure_cells();
        let mut emitted: Vec<Vec<i64>> = Vec::new();
        let ghost mut steps: Seq<(int, int)> = Seq::empty();
        let ghost mut n: nat = 0;
        assert(payloads(emitted@) =~= run_payloads(p, g0, steps));
        while queue.len() > 0
            invariant
                p == self.params,
                s == shape(p),
                g0 == self.grid(),
                visits(p, g0, n) == (cells_of(queue@), steps),
                working.wf(),
                working.params == p,
                working.grid() == after(s, g0, steps),
                legal(s, g0, steps),
                payloads(emitted@) == run_payloads(p, g0, steps),
                all_known(working.grid(), queue@, steps),
                forall|k: int|
                    0 <= k < queue.len() ==> (#[trigger] queue[k]).0 < p.gamma && queue[k].1
                        < p.delta,
                T * queue.len() + grid_lag(working.grid()) >= 0,
            decreases T * queue.len() + grid_lag(working.grid()),
        {
            let ghost old_queue = queue@;
            let ghost g = working.grid();
            let last: usize = queue.len() - 1;
            let (row, col): (usize, usize) = queue[last];
            assert(queue[last as int].0 < p.gamma && queue[last as int].1 < p.delta);
            queue.truncate(last);
            proof {
                lemma_grid(working);
                lemma_sizes(p);
                lemma_lag_nonnegative(g);
                assert(queue@ =~= old_queue.take(last as int));
                assert(cells_of(queue@) =~= cells_of(old_queue).drop_last());
                assert(cells_of(old_queue).last() == (row as int, col as int));
                assert forall|k: int| 0 <= k < queue.len() implies (#[trigger] queue@[k]).0
                    < p.gamma && queue@[k].1 < p.delta by {
                    assert(queue@[k] == old_queue[k]);
                }
                assert forall|l: int, i: int|
                    #![trigger waits(old_queue, l, i)]
                    waits(old_queue, l, i) && (l, i) != (row as int, col as int) implies waits(
                    queue@,
                    l,
                    i,
                ) by {
                    let k = choose|k: int|
                        0 <= k < old_queue.len() && (#[trigger] old_queue[k]).0 == l
                            && old_queue[k].1 == i;
                    assert(queue@[k] == old_queue[k]);
                }
            }
            let v: Vec<i64> = working.read_cell(row, col);
            let ghost vs = g[row as int][col as int];
            if v[0] != 1 {
                assert(!is_pure(g, row as int, col as int));
                proof {
                    assert forall|l: int, i: int| #[trigger] is_pure(g, l, i) implies steps.contains(
                        (l, i),
                    ) || waits(queue@, l, i) by {
                        assert(steps.contains((l, i)) || waits(old_queue, l, i));
                    }
                    n = n + 1;
                }
                continue;
            }
            assert(is_pure(g, row as int, col as int));
            let lo: i64 = rem_euclid_i64(v[1], T);
            let hi: i64 = rem_euclid_i64(v[2], T);
            let tag: u128 = lo as u128 + hi as u128 * 68_719_476_736;
            assert(tag == tag_of(vs));
            let symbols: usize = self.params.payload_symbols;
            let mut x: Vec<i64> = Vec::with_capacity(symbols);
            for i in 0..symbols
                invariant
                    symbols == p.payload_symbols,
                    v.len() == p.entries(),
                    x.len() == i,
                    forall|k: int| 0 <= k < i ==> #[trigger] x[k] == v[k + 3],
            {
                x.push(v[i + 3]);
            }
            assert(x@ =~= shown_payload(vs)) by {
                assert forall|k: int| 0 <= k < symbols implies x@[k] == shown_payload(vs)[k] by {
                    assert(x[k] == v[k + 3]);
                    assert(vs.skip(3)[k] == vs[k + 3]);
                }
            }
            let ghost target = take_out(s, g, vs);
            let ghost next = steps.push((row as int, col as int));
            let ghost rest = cells_of(queue@);
            proof {
                assert(next.drop_last() =~= steps);
                assert(after(s, g0, next) == target);
                assert forall|l: int, i: int| #[trigger] is_pure(g, l, i) implies next.contains(
                    (l, i),
                ) || waits(queue@, l, i) by {
                    if steps.contains((l, i)) {
                        let k = choose|k: int| 0 <= k < steps.len() && steps[k] == (l, i);
                        assert(next[k] == (l, i));
                    } else if (l, i) == (row as int, col as int) {
                        assert(next[steps.len() as int] == (l, i));
                    } else {
                        assert(waits(old_queue, l, i));
                    }
                }
                assert(spliced(target, g, 0) =~= g);
                assert(T * (last + 1) == T * last + T) by (nonlinear_arith);
                assert(rest + bared(s, g, vs, 0) =~= rest);
            }
            let rows: usize = self.params.gamma;
            for i in 0..rows
                invariant
                    p == self.params,
                    s == shape(p),
                    rows == p.gamma,
                    working.wf(),
                    working.params == p,
                    g.len() == p.gamma,
                    regular(g, width(p)),
                    forall|l: int| 0 <= l < p.gamma ==> #[trigger] g[l].len() == p.delta,
                    row < p.gamma,
                    col < p.delta,
                    vs == g[row as int][col as int],
                    vs[0] == 1,
                    v.len() == p.entries(),
                    limited(v@),
                    forall|e: int| 0 <= e < v.len() ==> #[trigger] v[e] == vs[e],
                    tag == tag_of(vs),
                    target == take_out(s, g, vs),
                    working.grid() == spliced(target, g, i as int),
                    cells_of(queue@) == rest + bared(s, g, vs, i as nat),
                    forall|k: int|
                        0 <= k < queue.len() ==> (#[trigger] queue[k]).0 < p.gamma && queue[k].1
                            < p.delta,
                    all_known(spliced(target, g, i as int), queue@, next),
                    T * queue.len() + grid_lag(working.grid()) == T * last + grid_lag(g) + i,
            {
                let j: usize = prf_bucket(&self.params.prf_key, i, tag, self.params.delta);
                assert((s.place)(vs)[i as int] == j);
                let ghost w = working.grid();
                assert(w[i as int] == g[i as int]);
                working.shift_cell(i, j, &v, false);
                let ghost y = Seq::new(
                    width(p),
                    |e: int| moved(w[i as int][j as int][e], v[e] as int, false),
                );
                proof {
                    assert(y =~= lessened(s, g, vs, i as int, j as int));
                    assert(working.grid() =~= spliced(target, g, i + 1)) by {
                        assert forall|l: int| 0 <= l < p.gamma implies working.grid()[l] == spliced(
                            target,
                            g,
                            i + 1,
                        )[l] by {}
                    }
                    let c = w[i as int][j as int][0];
                    lemma_grid_lag(w, i as int, w[i as int].update(j as int, y));
                    lemma_row_lag(w[i as int], j as int, y);
                    lemma_lag_step(c);
                    assert(y[0] == centered(c - 1, T as int));
                    lemma_cell_number(p, i as int, j as int);
                    lemma_sizes(p);
                }
                let count: i64 = working.entry(0, i * self.params.delta + j);
                assert(count == working.grid()[i as int][j as int][0]);
                let ghost was = queue@;
                if count == 1 {
                    queue.push((i, j));
                    proof {
                        lemma_waits_push(was, (i, j));
                        let z = (i as int, j as int);
                        assert(cells_of(queue@) =~= cells_of(was).push(z));
                        let part = bared(s, g, vs, i as nat);
                        assert((rest + part).push(z) =~= rest + part.push(z));
                        assert(T * (was.len() + 1) == T * was.len() + T) by (nonlinear_arith);
                    }
                }
                proof {
                    let (a, b) = (spliced(target, g, i as int), spliced(target, g, i + 1));
                    assert forall|l: int, k: int| #[trigger] is_pure(b, l, k) implies next.contains(
                        (l, k),
                    ) || waits(queue@, l, k) by {
                        if l == i && k == j {
                            assert(b[l][k] == y);
                        } else {
                            assert(b[l][k] == a[l][k]);
                            assert(is_pure(a, l, k));
                            if !next.contains((l, k)) {
                                assert(waits(was, l, k));
                                assert(waits(queue@, l, k));
                            }
                        }
                    }
                }
            }
            let ghost emitted_before = emitted@;
            emitted.push(x);
            proof {
                assert(spliced(target, g, p.gamma as int) =~= target);
                let f = |c: Cell| shown_payload(c);
                let sh = shown(s, g0, steps);
                assert(shown(s, g0, next) == sh.push(vs));
                assert(sh.push(vs).map_values(f) =~= sh.map_values(f).push(shown_payload(vs)));
                assert(payloads(emitted@) =~= payloads(emitted_before).push(x@));
                steps = next;
                n = n + 1;
                lemma_lag_nonnegative(working.grid());
            }
        }
        proof {
            assert forall|l: int, i: int| #[trigger]
                is_pure(after(s, g0, steps), l, i) implies steps.contains((l, i)) by {
                assert(!waits(queue@, l, i));
            }
            assert(is_full_run(p, g0, steps));
            assert(ends_after(p, g0, n, steps));
        }
        if !working.all_zero() {
            return Err(MseError::PeelStalled);
        }
        let out: Vec<Vec<i64>> = sort_payloads(emitted);
        Ok(out)
    }
}

/// Decoding a table that encodes fewer than `2^36` elements: what a full run
/// shows and what it leaves are together exactly the payloads, reduced; when
/// nothing is left the run shows all of them, and otherwise no cell counts
/// exactly one element.
pub proof fn law_decode_is_sound(
    t: MseEncoding,
    elements: Seq<(Seq<i64>, int)>,
    steps: Seq<(int, int)>,
) -> (rest: Seq<Cell>)
    requires
        t.wf(),
        elements.len() < T,
        t.encodes(elements),
        is_full_run(t.params, t.grid(), steps),
    ensures
        reduced_payloads(elements).to_multiset() == run_payloads(
            t.params,
            t.grid(),
            steps,
        ).to_multiset().add(rest.map_values(|v: Cell| shown_payload(v)).to_multiset()),
        is_clear(after(shape(t.params), t.grid(), steps)) ==> rest.len() == 0,
        stuck(after(shape(t.params), t.grid(), steps)),
        rest.len() + steps.len() == elements.len(),
{
    let (p, s, w, g) = (t.params, shape(t.params), width(t.params), t.grid());
    lemma_sizes(p);
    let f = |_i: int, x: (Seq<i64>, int)| item(x.0, x.1);
    let items = elements.map(f);
    let rest = law_peeling_is_sound(s, g, w, items, steps);
    peel::law_peeling_gets_stuck(s, g, w, items, steps);
    let h = |v: Cell| shown_payload(v);
    peel::lemma_peeled_values(items, shown(s, g, steps), rest, h);
    assert(items.map_values(h) =~= reduced_payloads(elements)) by {
        assert forall|k: int| 0 <= k < elements.len() implies items.map_values(h)[k]
            == reduced_payloads(elements)[k] by {
            let (pay, tag) = elements[k];
            assert(shown_payload(item(pay, tag)) =~= reduced(pay)) by {
                assert forall|j: int| 0 <= j < pay.len() implies shown_payload(item(pay, tag))[j]
                    == reduced(pay)[j] by {
                    assert(item(pay, tag).skip(3)[j] == item(pay, tag)[j + 3]);
                }
            }
        }
    }
    if is_clear(after(s, g, steps)) {
        lemma_after_len(s, g, steps);
        peel::law_clear_holds_nothing(s, after(s, g, steps), w, rest);
    }
    rest
}

/// Symbols centered modulo `2^36`.
pub open spec fn reduced(payload: Seq<i64>) -> Seq<i64> {
    payload.map_values(|x: i64| centered(x as int, T as int) as i64)
}

pub open spec fn reduced_payloads(elements: Seq<(Seq<i64>, int)>) -> Seq<Seq<i64>> {
    elements.map_values(|x: (Seq<i64>, int)| reduced(x.0))
}

proof fn lemma_after_len(s: Shape, g: Grid, steps: Seq<(int, int)>)
    ensures
        after(s, g, steps).len() == g.len(),
    decreases steps.len(),
{
    if steps.len() > 0 {
        lemma_after_len(s, g, steps.drop_last());
    }
}

// ---------------------------------------------------------------
// As polynomials
// ---------------------------------------------------------------

impl MseEncoding {
    /// All counts, then the tag limbs, then the payload symbols.
    pub open spec fn flat_at(&self, j: int) -> i64 {
        self.column(j / self.params.cells())[j % self.params.cells()]
    }

    /// Polynomials needed for a table.
    pub fn n_polys(params: &MseParams) -> (r: usize)
        requires
            params.valid(),
        ensures
            r == (params.scalars() + 2047) / 2048,
    {
        (params.total_scalars() + 2047) / 2048
    }

    /// Cover traffic: an empty table.
    pub fn cover(params: &MseParams) -> (r: Vec<KahePoly>)
        requires
            params.valid(),
        ensures
            r.len() == (params.scalars() + 2047) / 2048,
            forall|q: int, i: int|
                0 <= q < r.len() && 0 <= i < N ==> #[trigger] r[q].coeffs[i] == 0,
    {
        let empty = MseEncoding::new(*params);
        let r: Vec<KahePoly> = empty.pack();
        proof {
            assert forall|q: int, i: int| 0 <= q < r.len() && 0 <= i < N implies
                #[trigger] r[q].coeffs[i] == 0 by {
                let j = q * N + i;
                if j < params.scalars() {
                    lemma_flat(empty, j);
                }
            }
        }
        r
    }

    /// The table as polynomials, padded with zeros.
    pub fn pack(&self) -> (r: Vec<KahePoly>)
        requires
            self.wf(),
        ensures
            r.len() == (self.params.scalars() + 2047) / 2048,
            forall|q: int, i: int|
                0 <= q < r.len() && 0 <= i < N ==> #[trigger] r[q].coeffs[i] == (if q * N + i
                    < self.params.scalars() {
                    self.flat_at(q * N + i)
                } else {
                    0i64
                }),
    {
        proof {
            lemma_sizes(self.params);
        }
        let total: usize = self.params.total_scalars();
        let cells: usize = self.params.total_cells();
        let n: usize = (total + 2047) / 2048;
        let mut polys: Vec<KahePoly> = Vec::with_capacity(n);
        for q in 0..n
            invariant
                self.wf(),
                total == self.params.scalars(),
                cells == self.params.cells(),
                cells > 0,
                total + 2047 <= usize::MAX,
                n == (total + 2047) / 2048,
                polys.len() == q,
                forall|t: int, i: int|
                    0 <= t < q && 0 <= i < N ==> #[trigger] polys[t].coeffs[i] == (if t * N + i
                        < self.params.scalars() {
                        self.flat_at(t * N + i)
                    } else {
                        0i64
                    }),
        {
            let mut coeffs: [i64; N] = [0i64; N];
            let base: usize = q * 2048;
            for i in 0..N
                invariant
                    self.wf(),
                    total == self.params.scalars(),
                    cells == self.params.cells(),
                    cells > 0,
                    total + 2047 <= usize::MAX,
                    base == q * 2048,
                    base <= total,
                    forall|k: int|
                        0 <= k < i ==> #[trigger] coeffs[k] == (if q * N + k
                            < self.params.scalars() {
                            self.flat_at(q * N + k)
                        } else {
                            0i64
                        }),
                    forall|k: int| i <= k < N ==> #[trigger] coeffs[k] == 0,
            {
                let j: usize = base + i;
                if j < total {
                    proof {
                        lemma_entry_of(self.params, j as int);
                    }
                    coeffs[i] = self.entry(j / cells, j % cells);
                }
            }
            polys.push(KahePoly::from_coeffs(coeffs));
        }
        polys
    }

    /// Reads a table back; coefficients are centered first.
    pub fn unpack(params: &MseParams, polys: &[KahePoly]) -> (r: Self)
        requires
            params.valid(),
            polys.len() == (params.scalars() + 2047) / 2048,
        ensures
            r.wf(),
            r.params == *params,
            forall|j: int|
                0 <= j < params.scalars() ==> #[trigger] r.flat_at(j) == centered(
                    polys[j / 2048]@[j % 2048],
                    KAHE_MODULUS as int,
                ),
    {
        let mut r = MseEncoding::new(*params);
        proof {
            lemma_sizes(*params);
        }
        let total: usize = params.total_scalars();
        let cells: usize = params.total_cells();
        for j in 0..total
            invariant
                r.wf(),
                r.params == *params,
                total == params.scalars(),
                cells == params.cells(),
                cells > 0,
                polys.len() == (params.scalars() + 2047) / 2048,
                forall|k: int|
                    0 <= k < j ==> #[trigger] r.flat_at(k) == centered(
                        polys[k / 2048]@[k % 2048],
                        KAHE_MODULUS as int,
                    ),
        {
            let q: usize = j / 2048;
            let i: usize = j % 2048;
            assert(polys[q as int]@[i as int] == polys[q as int].coeffs[i as int]);
            let x: i64 = center_i64(polys[q].coeffs[i], KAHE_MODULUS);
            proof {
                lemma_centered(polys[q as int]@[i as int], KAHE_MODULUS as int);
                lemma_entry_of(*params, j as int);
            }
            let ghost before = r;
            r.set_entry(j / cells, j % cells, x);
            proof {
                assert forall|k: int| 0 <= k < j + 1 implies #[trigger] r.flat_at(k) == centered(
                    polys[k / 2048]@[k % 2048],
                    KAHE_MODULUS as int,
                ) by {
                    lemma_entry_of(*params, k);
                    let e = k / (cells as int);
                    assert(before.column(e).len() == params.cells());
                    if k < j {
                        assert(before.flat_at(k) == centered(
                            polys[k / 2048]@[k % 2048],
                            KAHE_MODULUS as int,
                        ));
                        if e == j as int / cells as int && k % (cells as int) == j as int
                            % cells as int {
                            vstd::arithmetic::div_mod::lemma_fundamental_div_mod(k, cells as int);
                            vstd::arithmetic::div_mod::lemma_fundamental_div_mod(
                                j as int,
                                cells as int,
                            );
                        }
                    }
                }
            }
        }
        r
    }
}

/// A scalar's entry and cell.
proof fn lemma_entry_of(p: MseParams, j: int)
    requires
        p.valid(),
        0 <= j < p.scalars(),
    ensures
        0 <= j / p.cells() < p.entries(),
        0 <= j % p.cells() < p.cells(),
{
    lemma_sizes(p);
    let (n, e) = (p.cells(), p.entries());
    assert(0 <= j / n < e) by (nonlinear_arith)
        requires
            0 <= j < e * n,
            n > 0,
    ;
}

/// Each scalar is an entry of a cell.
proof fn lemma_flat(t: MseEncoding, j: int)
    requires
        t.wf(),
        0 <= j < t.params.scalars(),
    ensures
        ({
            let (e, c) = (j / t.params.cells(), j % t.params.cells());
            let (row, col) = (c / (t.params.delta as int), c % (t.params.delta as int));
            &&& 0 <= e < width(t.params)
            &&& 0 <= row < t.params.gamma
            &&& 0 <= col < t.params.delta
            &&& t.grid()[row][col][e] == t.flat_at(j)
            &&& t.grid()[row][col].len() == width(t.params)
        }),
{
    let p = t.params;
    lemma_entry_of(p, j);
    let c = j % p.cells();
    let (n, d) = (p.gamma as int, p.delta as int);
    let (row, col) = (c / d, c % d);
    assert(0 <= row < n) by (nonlinear_arith)
        requires
            0 <= c < n * d,
            d > 0,
            row == c / d,
    ;
    vstd::arithmetic::div_mod::lemma_fundamental_div_mod(c, d);
    assert(row * d + col == c) by (nonlinear_arith)
        requires
            c == d * row + col,
    ;
}

/// Where entry `e` of a cell stands among all scalars.
pub open spec fn position(p: MseParams, row: int, col: int, e: int) -> int {
    e * p.cells() + row * p.delta + col
}

pub(crate) proof fn lemma_position(t: MseEncoding, row: int, col: int, e: int)
    requires
        t.wf(),
        0 <= row < t.params.gamma,
        0 <= col < t.params.delta,
        0 <= e < width(t.params),
    ensures
        0 <= position(t.params, row, col, e) < t.params.scalars(),
        t.flat_at(position(t.params, row, col, e)) == t.grid()[row][col][e],
{
    let p = t.params;
    lemma_cell_number(p, row, col);
    lemma_sizes(p);
    let (n, c, w) = (p.cells(), row * p.delta + col, p.entries());
    assert(0 <= e * n && e * n + n <= w * n) by (nonlinear_arith)
        requires
            0 <= e < w,
            n >= 0,
    ;
    vstd::arithmetic::div_mod::lemma_fundamental_div_mod_converse(e * n + c, n, e, c);
}

/// Unpacking what packing sums to, coefficient by coefficient and reduced to
/// symbols, gives the sum of the tables.
pub proof fn law_unpack_of_sum(
    a: MseEncoding,
    b: MseEncoding,
    total: Seq<KahePoly>,
    back: MseEncoding,
)
    requires
        a.wf(),
        b.wf(),
        back.wf(),
        back.params == a.params,
        b.params == a.params,
        total.len() == (a.params.scalars() + 2047) / 2048,
        forall|j: int|
            0 <= j < a.params.scalars() ==> #[trigger] total[j / 2048]@[j % 2048] == centered(
                a.flat_at(j) + b.flat_at(j),
                T as int,
            ),
        forall|j: int|
            0 <= j < a.params.scalars() ==> #[trigger] back.flat_at(j) == centered(
                total[j / 2048]@[j % 2048],
                KAHE_MODULUS as int,
            ),
    ensures
        is_union(shape(a.params), a.grid(), b.grid(), width(a.params), back.grid()),
{
    let p = a.params;
    lemma_grid(a);
    lemma_grid(b);
    lemma_grid(back);
    let (g, h, t) = (a.grid(), b.grid(), back.grid());
    assert forall|l: int, i: int, c: int|
        0 <= l < g.len() && 0 <= i < g[l].len() && 0 <= c < width(p) implies #[trigger] t[l][i][c]
        == kept(shape(p), g[l][i][c] + h[l][i][c]) by {
        let j = position(p, l, i, c);
        lemma_position(a, l, i, c);
        lemma_position(b, l, i, c);
        lemma_position(back, l, i, c);
        assert(back.flat_at(j) == centered(total[j / 2048]@[j % 2048], KAHE_MODULUS as int));
        lemma_centered(a.flat_at(j) + b.flat_at(j), T as int);
        lemma_centered_id(centered(a.flat_at(j) + b.flat_at(j), T as int), KAHE_MODULUS as int);
    }
}

/// Tables of the same parameters that encode the same elements, in whatever
/// order they were inserted or added, are equal.
pub proof fn law_order_does_not_matter(
    t: MseEncoding,
    u: MseEncoding,
    a: Seq<(Seq<i64>, int)>,
    b: Seq<(Seq<i64>, int)>,
)
    requires
        t.wf(),
        u.wf(),
        t.params == u.params,
        t.encodes(a),
        u.encodes(b),
        a.to_multiset() == b.to_multiset(),
    ensures
        t.grid() == u.grid(),
        forall|e: int| 0 <= e < t.params.entries() ==> #[trigger] t.column(e) == u.column(e),
{
    let p = t.params;
    let f = |x: (Seq<i64>, int)| item(x.0, x.1);
    peel::lemma_map_multiset(a, b, f);
    assert(a.map(|_i: int, x: (Seq<i64>, int)| item(x.0, x.1)) =~= a.map_values(f));
    assert(b.map(|_i: int, x: (Seq<i64>, int)| item(x.0, x.1)) =~= b.map_values(f));
    lemma_grid(t);
    lemma_grid(u);
    peel::law_order_does_not_matter(
        shape(p),
        t.grid(),
        u.grid(),
        width(p),
        a.map_values(f),
        b.map_values(f),
    );
    lemma_columns(t, u);
}

/// The cells tell the columns.
proof fn lemma_columns(t: MseEncoding, u: MseEncoding)
    requires
        t.wf(),
        u.wf(),
        t.params == u.params,
        t.grid() == u.grid(),
    ensures
        forall|e: int| 0 <= e < t.params.entries() ==> #[trigger] t.column(e) == u.column(e),
{
    let p = t.params;
    lemma_sizes(p);
    assert forall|e: int| 0 <= e < p.entries() implies #[trigger] t.column(e) == u.column(e) by {
        assert(u.column(e).len() == p.cells());
        assert forall|c: int| 0 <= c < p.cells() implies t.column(e)[c] == u.column(e)[c] by {
            let (n, w) = (p.cells(), p.entries());
            assert(0 <= e * n + c < w * n) by (nonlinear_arith)
                requires
                    0 <= e < w,
                    0 <= c < n,
            ;
            assert(p.scalars() == w * n) by (nonlinear_arith)
                requires
                    p.scalars() == n * w,
            ;
            vstd::arithmetic::div_mod::lemma_fundamental_div_mod_converse(e * n + c, n, e, c);
            lemma_flat(t, e * n + c);
            lemma_flat(u, e * n + c);
        }
        assert(t.column(e) =~= u.column(e));
    }
}

/// What one table packs to unpacks to it.
pub proof fn law_pack_round_trip(
    a: MseEncoding,
    elements: Seq<(Seq<i64>, int)>,
    polys: Seq<KahePoly>,
    back: MseEncoding,
)
    requires
        a.wf(),
        a.encodes(elements),
        back.wf(),
        back.params == a.params,
        polys.len() == (a.params.scalars() + 2047) / 2048,
        forall|j: int|
            0 <= j < a.params.scalars() ==> #[trigger] polys[j / 2048]@[j % 2048] == a.flat_at(j),
        forall|j: int|
            0 <= j < a.params.scalars() ==> #[trigger] back.flat_at(j) == centered(
                polys[j / 2048]@[j % 2048],
                KAHE_MODULUS as int,
            ),
    ensures
        back.grid() == a.grid(),
        forall|e: int| 0 <= e < a.params.entries() ==> #[trigger] back.column(e) == a.column(e),
{
    let p = a.params;
    lemma_grid(a);
    lemma_grid(back);
    let (g, t) = (a.grid(), back.grid());
    assert forall|l: int| 0 <= l < g.len() implies #[trigger] t[l] == g[l] by {
        assert forall|i: int| 0 <= i < g[l].len() implies #[trigger] t[l][i] == g[l][i] by {
            assert(t[l][i].len() == width(p) && g[l][i].len() == width(p));
            assert forall|c: int| 0 <= c < width(p) implies #[trigger] t[l][i][c] == g[l][i][c] by {
                let j = position(p, l, i, c);
                lemma_position(a, l, i, c);
                lemma_position(back, l, i, c);
                assert(back.flat_at(j) == centered(
                    polys[j / 2048]@[j % 2048],
                    KAHE_MODULUS as int,
                ));
                lemma_kept_entry(a, elements, l, i, c);
                lemma_centered_id(a.flat_at(j) as int, KAHE_MODULUS as int);
            }
            assert(t[l][i] =~= g[l][i]);
        }
        assert(t[l] =~= g[l]);
    }
    assert(t =~= g);
    lemma_columns(back, a);
}

/// Entries of a table that encodes elements are symbols.
proof fn lemma_kept_entry(a: MseEncoding, elements: Seq<(Seq<i64>, int)>, l: int, i: int, c: int)
    requires
        a.wf(),
        a.encodes(elements),
        0 <= l < a.params.gamma,
        0 <= i < a.params.delta,
        0 <= c < width(a.params),
    ensures
        -(T / 2) <= a.grid()[l][i][c] <= T / 2,
{
    lemma_grid(a);
    let s = shape(a.params);
    let items = elements.map(|_i: int, x: (Seq<i64>, int)| item(x.0, x.1));
    assert(a.grid()[l][i][c] == kept(s, load(s, items, l, i, c)));
    lemma_centered(load(s, items, l, i, c), T as int);
}

/// The plain sum of two packed tables unpacks to a table that stands for their
/// union: entries agree modulo `2^36` with the union's, and decoding takes the
/// same cells in the same order, shows the same payloads and clears the same.
/// (From `2^36` elements on a cell's count may come round to zero.)
pub proof fn law_unpack_of_plain_sum(
    a: MseEncoding,
    b: MseEncoding,
    x: Seq<(Seq<i64>, int)>,
    y: Seq<(Seq<i64>, int)>,
    total: Seq<KahePoly>,
    back: MseEncoding,
    u: MseEncoding,
)
    requires
        a.wf(),
        b.wf(),
        u.wf(),
        back.wf(),
        b.params == a.params,
        u.params == a.params,
        back.params == a.params,
        a.encodes(x),
        b.encodes(y),
        x.len() + y.len() < T,
        is_union(shape(a.params), a.grid(), b.grid(), width(a.params), u.grid()),
        total.len() == (a.params.scalars() + 2047) / 2048,
        forall|j: int|
            0 <= j < a.params.scalars() ==> #[trigger] total[j / 2048]@[j % 2048] == a.flat_at(j)
                + b.flat_at(j),
        forall|j: int|
            0 <= j < a.params.scalars() ==> #[trigger] back.flat_at(j) == centered(
                total[j / 2048]@[j % 2048],
                KAHE_MODULUS as int,
            ),
    ensures
        forall|l: int, i: int, c: int|
            0 <= l < a.params.gamma && 0 <= i < a.params.delta && 0 <= c < width(a.params)
                ==> crate::field::cong(
                #[trigger] back.grid()[l][i][c],
                u.grid()[l][i][c],
                T as int,
            ),
        forall|steps: Seq<(int, int)>|
            is_full_run(a.params, back.grid(), steps) <==> #[trigger] is_full_run(
                a.params,
                u.grid(),
                steps,
            ),
        forall|steps: Seq<(int, int)>| #[trigger]
            is_full_run(a.params, u.grid(), steps) ==> run_payloads(a.params, back.grid(), steps)
                == run_payloads(a.params, u.grid(), steps) && (is_clear(
                after(shape(a.params), back.grid(), steps),
            ) <==> is_clear(after(shape(a.params), u.grid(), steps))),
        forall|n: nat| #[trigger]
            visits(a.params, back.grid(), n) == visits(a.params, u.grid(), n),
{
    let p = a.params;
    let (s, w, m) = (shape(p), width(p), T as int);
    lemma_grid(a);
    lemma_grid(b);
    lemma_grid(u);
    lemma_grid(back);
    let (g, h) = (back.grid(), u.grid());
    let f = |_i: int, e: (Seq<i64>, int)| item(e.0, e.1);
    assert forall|l: int, i: int, c: int|
        0 <= l < p.gamma && 0 <= i < p.delta && 0 <= c < w implies #[trigger] g[l][i][c]
        == a.grid()[l][i][c] + b.grid()[l][i][c] by {
        let j = position(p, l, i, c);
        lemma_position(a, l, i, c);
        lemma_position(b, l, i, c);
        lemma_position(back, l, i, c);
        lemma_kept_entry(a, x, l, i, c);
        lemma_kept_entry(b, y, l, i, c);
        assert(back.flat_at(j) == centered(total[j / 2048]@[j % 2048], KAHE_MODULUS as int));
        lemma_centered_id(a.flat_at(j) + b.flat_at(j), KAHE_MODULUS as int);
    }
    assert forall|l: int, i: int| 0 <= l < g.len() && 0 <= i < g[l].len() implies peel::same_count(
        s,
        #[trigger] g[l][i],
        h[l][i],
        w,
    ) by {
        let (v, z) = (g[l][i], h[l][i]);
        let (ca, cb) = (a.grid()[l][i], b.grid()[l][i]);
        let ka = peel::lemma_exact_counts(s, a.grid(), w, x.map(f), l, i);
        let kb = peel::lemma_exact_counts(s, b.grid(), w, y.map(f), l, i);
        assert forall|c: int| 0 <= c < w implies z[c] == kept(s, v[c]) && #[trigger] kept(s, v[c])
            == kept(s, z[c]) by {
            assert(h[l][i][c] == kept(s, a.grid()[l][i][c] + b.grid()[l][i][c]));
            assert(g[l][i][c] == a.grid()[l][i][c] + b.grid()[l][i][c]);
            peel::lemma_kept(s, v[c]);
            peel::lemma_kept_cong(s, v[c], z[c]);
        }
        assert(g[l][i][0] == ca[0] + cb[0]);
        assert(z[0] == kept(s, v[0]));
        if v[0] == 0 || v[0] == 1 || z[0] == 0 || z[0] == 1 {
            peel::lemma_kept(s, v[0]);
            peel::lemma_kept(s, ka);
            peel::lemma_kept(s, kb);
            crate::field::lemma_cong_ops(ca[0], ka, cb[0], kb, m);
            crate::field::lemma_small(ka + kb, m);
            crate::field::lemma_small(0, m);
            crate::field::lemma_small(1, m);
            assert(ka + kb <= 1);
            assert forall|c: int| 0 <= c < w implies v[c] == z[c] by {
                assert(g[l][i][c] == ca[c] + cb[c]);
                assert(z[c] == kept(s, v[c]));
                if ka == 0 {
                    assert(ca[c] == 0);
                    lemma_kept_twice(b, y, l, i, c);
                } else {
                    assert(cb[c] == 0);
                    lemma_kept_twice(a, x, l, i, c);
                }
            }
            assert(v =~= z);
        }
    }
    assert forall|l: int, i: int, c: int|
        0 <= l < p.gamma && 0 <= i < p.delta && 0 <= c < w implies crate::field::cong(
        #[trigger] g[l][i][c],
        h[l][i][c],
        m,
    ) by {
        assert(h[l][i][c] == kept(s, a.grid()[l][i][c] + b.grid()[l][i][c]));
        peel::lemma_kept(s, g[l][i][c]);
    }
    assert(peel::all_placed(s, g, w)) by {
        assert forall|v: Cell, l: int| v.len() == w && 0 <= l < g.len() implies 0
            <= #[trigger] (s.place)(v)[l] < g[l].len() by {
            assert((s.place)(v)[l] == bucket_of(p.prf_key@, l, tag_of(v), p.delta as int));
        }
    }
    assert forall|n: nat| #[trigger] visits(p, g, n) == visits(p, h, n) by {
        lemma_same_visits(p, g, h, n);
    }
    assert forall|steps: Seq<(int, int)>|
        (is_full_run(p, g, steps) <==> #[trigger] is_full_run(p, h, steps)) && (is_full_run(
            p,
            h,
            steps,
        ) ==> run_payloads(p, g, steps) == run_payloads(p, h, steps) && (is_clear(
            after(s, g, steps),
        ) <==> is_clear(after(s, h, steps)))) by {
        peel::law_representatives_do_not_matter(s, g, h, w, steps);
        if legal(s, g, steps) {
            let (q, r) = (after(s, g, steps), after(s, h, steps));
            assert forall|l: int, i: int| is_pure(q, l, i) <==> is_pure(r, l, i) by {
                if 0 <= l < q.len() {
                    assert(r[l].len() == q[l].len());
                    if 0 <= i < q[l].len() {
                        assert(peel::same_count(s, q[l][i], r[l][i], w));
                    }
                }
            }
            assert forall|l: int, i: int|
                0 <= l < q.len() && 0 <= i < q[l].len() && (q[l][i][0] == 0 || r[l][i][0] == 0)
                implies #[trigger] q[l][i] == r[l][i] by {
                assert(peel::same_count(s, q[l][i], r[l][i], w));
            }
            if is_clear(q) {
                assert forall|l: int, i: int, c: int|
                    0 <= l < r.len() && 0 <= i < r[l].len() && 0 <= c < r[l][i].len() implies
                    #[trigger] r[l][i][c] == 0 by {
                    assert(r[l].len() == q[l].len());
                    assert(peel::same_count(s, q[l][i], r[l][i], w));
                    assert(q[l][i][0] == 0);
                    assert(q[l][i][c] == 0);
                }
            }
            if is_clear(r) {
                assert forall|l: int, i: int, c: int|
                    0 <= l < q.len() && 0 <= i < q[l].len() && 0 <= c < q[l][i].len() implies
                    #[trigger] q[l][i][c] == 0 by {
                    assert(r[l].len() == q[l].len());
                    assert(peel::same_count(s, q[l][i], r[l][i], w));
                    assert(r[l][i][0] == 0);
                    assert(r[l][i][c] == 0);
                }
            }
        }
    }
}

proof fn lemma_same_visits(p: MseParams, g: Grid, h: Grid, n: nat)
    requires
        p.valid(),
        g.len() == p.gamma,
        peel::same_counts(shape(p), g, h, width(p)),
        peel::all_placed(shape(p), g, width(p)),
    ensures
        visits(p, g, n) == visits(p, h, n),
        legal(shape(p), g, visits(p, g, n).1),
    decreases n,
{
    let (s, w) = (shape(p), width(p));
    if n == 0 {
        peel::lemma_same_order(s, g, h, w, p.gamma as nat);
    } else {
        lemma_same_visits(p, g, h, (n - 1) as nat);
        let (waiting, steps) = visits(p, g, (n - 1) as nat);
        peel::law_representatives_do_not_matter(s, g, h, w, steps);
        if waiting.len() > 0 {
            let (t, r) = (after(s, g, steps), after(s, h, steps));
            let (l, i) = waiting.last();
            if 0 <= l < t.len() {
                assert(r[l].len() == t[l].len());
                if 0 <= i < t[l].len() {
                    assert(peel::same_count(s, t[l][i], r[l][i], w));
                }
            }
            if is_pure(t, l, i) {
                lemma_after_len(s, g, steps);
                peel::lemma_same_bared(s, t, r, w, t[l][i], p.gamma as nat);
                assert(steps.push((l, i)).drop_last() =~= steps);
            }
        }
    }
}

/// Keeping an entry of a table that encodes elements leaves it as it is.
proof fn lemma_kept_twice(a: MseEncoding, elements: Seq<(Seq<i64>, int)>, l: int, i: int, c: int)
    requires
        a.wf(),
        a.encodes(elements),
        0 <= l < a.params.gamma,
        0 <= i < a.params.delta,
        0 <= c < width(a.params),
    ensures
        kept(shape(a.params), a.grid()[l][i][c]) == a.grid()[l][i][c],
{
    lemma_grid(a);
    let s = shape(a.params);
    let items = elements.map(|_i: int, x: (Seq<i64>, int)| item(x.0, x.1));
    let k = load(s, items, l, i, c);
    assert(a.grid()[l][i][c] == kept(s, k));
    peel::lemma_kept(s, k);
    peel::lemma_kept_cong(s, kept(s, k), k);
}

// ---------------------------------------------------------------
// Where elements go
// ---------------------------------------------------------------

/// The first eight bytes of a digest as a number, least significant first.
pub open spec fn leading_word(d: Seq<u8>) -> int {
    d[0] + 0x100 * d[1] + 0x1_0000 * d[2] + 0x100_0000 * d[3] + 0x1_0000_0000 * d[4]
        + 0x100_0000_0000 * d[5] + 0x1_0000_0000_0000 * d[6] + 0x100_0000_0000_0000 * d[7]
}

/// A tag's column in a row differs from the word that the key, the row and the
/// tag hash to by a multiple of the number of columns, whatever that number is:
/// so every column is the place of some words, and of as many as any other but
/// for one.
pub proof fn law_columns_are_all_used(key: Seq<u8>, row: int, tag: int, delta: int)
    requires
        delta >= 1,
        0 <= row,
        0 <= tag,
        sha256_of(key + le_bytes(row as nat, 4) + le_bytes(tag as nat, 16)).len() == 32,
    ensures
        0 <= bucket_of(key, row, tag, delta) < delta,
        ({
            let w = leading_word(
                sha256_of(key + le_bytes(row as nat, 4) + le_bytes(tag as nat, 16)),
            );
            &&& crate::field::cong(bucket_of(key, row, tag, delta), w, delta)
            &&& w < delta ==> bucket_of(key, row, tag, delta) == w
        }),
{
    let d = sha256_of(key + le_bytes(row as nat, 4) + le_bytes(tag as nat, 16));
    lemma_eight_bytes(d.take(8));
    let w = leading_word(d);
    assert(le_value(d.take(8)) == w);
    vstd::arithmetic::div_mod::lemma_mod_bound(w, delta);
    crate::field::lemma_cong_mod(w, delta);
    if w < delta {
        crate::field::lemma_small(w, delta);
    }
}

proof fn lemma_eight_bytes(b: Seq<u8>)
    requires
        b.len() == 8,
    ensures
        le_value(b) == leading_word(b),
{
    reveal_with_fuel(le_value, 9);
}

/// Different keys, rows or tags are hashed from different bytes.
pub proof fn law_places_are_hashed_apart(
    key: Seq<u8>,
    row: int,
    tag: int,
    other: Seq<u8>,
    line: int,
    mark: int,
)
    requires
        key.len() == 32,
        other.len() == 32,
        0 <= row <= u32::MAX,
        0 <= line <= u32::MAX,
        0 <= tag <= u128::MAX,
        0 <= mark <= u128::MAX,
        key + le_bytes(row as nat, 4) + le_bytes(tag as nat, 16) == other + le_bytes(
            line as nat,
            4,
        ) + le_bytes(mark as nat, 16),
    ensures
        key == other,
        row == line,
        tag == mark,
{
    let (a, b) = (le_bytes(row as nat, 4), le_bytes(line as nat, 4));
    let (c, d) = (le_bytes(tag as nat, 16), le_bytes(mark as nat, 16));
    crate::bytes::lemma_le_len(row as nat, 4);
    crate::bytes::lemma_le_len(line as nat, 4);
    crate::bytes::lemma_le_len(tag as nat, 16);
    crate::bytes::lemma_le_len(mark as nat, 16);
    let (x, y) = (key + a + c, other + b + d);
    assert(x.subrange(0, 32) =~= key && y.subrange(0, 32) =~= other);
    assert(x.subrange(32, 36) =~= a && y.subrange(32, 36) =~= b);
    assert(x.subrange(36, 52) =~= c && y.subrange(36, 52) =~= d);
    reveal_with_fuel(crate::bytes::byte_span, 17);
    crate::bytes::lemma_le_round_trip(row as nat, 4);
    crate::bytes::lemma_le_round_trip(line as nat, 4);
    crate::bytes::lemma_le_round_trip(tag as nat, 16);
    crate::bytes::lemma_le_round_trip(mark as nat, 16);
}

/// An element is put, in every row, where its tag says: its count and tag limbs
/// and payload land in that column and nowhere else.
pub proof fn law_elements_go_to_their_columns(
    p: MseParams,
    g: Grid,
    payload: Seq<i64>,
    tag: int,
    t: Grid,
    row: int,
    col: int,
    c: int,
)
    requires
        p.valid(),
        payload.len() == p.payload_symbols,
        0 <= tag < T * T,
        is_put(shape(p), g, width(p), item(payload, tag), t),
        g.len() == p.gamma,
        forall|l: int| 0 <= l < p.gamma ==> (#[trigger] g[l]).len() == p.delta,
        0 <= row < p.gamma,
        0 <= col < p.delta,
        0 <= c < 3 + p.payload_symbols,
    ensures
        ({
            let x = if c == 0 {
                1
            } else if c == 1 {
                tag
            } else if c == 2 {
                tag / 0x10_0000_0000
            } else {
                payload[c - 3] as int
            };
            let add = if col == bucket_of(p.prf_key@, row, tag, p.delta as int) {
                x
            } else {
                0
            };
            crate::field::cong(t[row][col][c], g[row][col][c] + add, 0x10_0000_0000)
        }),
{
    let (s, m) = (shape(p), T as int);
    let v = item(payload, tag);
    lemma_item_tag(payload, tag);
    assert((s.place)(v)[row] == bucket_of(p.prf_key@, row, tag, p.delta as int));
    let x = if c == 0 {
        1
    } else if c == 1 {
        tag
    } else if c == 2 {
        tag / m
    } else {
        payload[c - 3] as int
    };
    assert(crate::field::cong(v[c], x, m)) by {
        crate::field::lemma_small(1, m);
        crate::negacyclic::lemma_centered(tag % m, m);
        crate::field::lemma_cong_mod(tag, m);
        crate::negacyclic::lemma_centered(tag / m, m);
        if c >= 3 {
            crate::negacyclic::lemma_centered(payload[c - 3] as int, m);
        }
    }
    let w = peel::share(s, v, row, col, c);
    peel::lemma_kept(s, g[row][col][c] + w);
    crate::field::lemma_cong_ops(g[row][col][c], g[row][col][c], v[c], x, m);
}

/// The scalars of a table: all counts row by row, then the low tag limbs, the
/// high tag limbs, and each payload symbol in turn.
pub proof fn law_scalars_in_order(t: MseEncoding, row: int, col: int, e: int)
    requires
        t.wf(),
        0 <= row < t.params.gamma,
        0 <= col < t.params.delta,
        0 <= e < 3 + t.params.payload_symbols,
    ensures
        t.flat_at(e * (t.params.gamma * t.params.delta) + row * t.params.delta + col)
            == t.grid()[row][col][e],
{
    lemma_position(t, row, col, e);
}

/// A table decodes whenever its elements can be listed so that each has, in some
/// row, a column that no later one has: every full run then clears the table and
/// shows all payloads. One element alone always decodes.
pub proof fn law_peelable_tables_decode(
    t: MseEncoding,
    elements: Seq<(Seq<i64>, int)>,
    row: Seq<int>,
    steps: Seq<(int, int)>,
)
    requires
        t.wf(),
        elements.len() < T,
        t.encodes(elements),
        is_full_run(t.params, t.grid(), steps),
        forall|k: int| 0 <= k < elements.len() ==> 0 <= (#[trigger] elements[k]).1 < T * T,
        row.len() == elements.len(),
        forall|k: int| 0 <= k < row.len() ==> 0 <= #[trigger] row[k] < t.params.gamma,
        forall|k: int, j: int|
            0 <= k < j < elements.len() ==> bucket_of(
                t.params.prf_key@,
                row[k],
                (#[trigger] elements[j]).1,
                t.params.delta as int,
            ) != bucket_of(
                t.params.prf_key@,
                row[k],
                (#[trigger] elements[k]).1,
                t.params.delta as int,
            ),
    ensures
        is_clear(after(shape(t.params), t.grid(), steps)),
        steps.len() == elements.len(),
        run_payloads(t.params, t.grid(), steps).to_multiset() == elements.map_values(
            |x: (Seq<i64>, int)| reduced(x.0),
        ).to_multiset(),
{
    let (p, s, w, g) = (t.params, shape(t.params), width(t.params), t.grid());
    lemma_sizes(p);
    lemma_grid(t);
    let items = elements.map(|_i: int, x: (Seq<i64>, int)| item(x.0, x.1));
    let rest = law_decode_is_sound(t, elements, steps);
    assert forall|k: int, j: int| 0 <= k < j < items.len() implies (s.place)(#[trigger] items[j])[row[k]]
        != (s.place)(#[trigger] items[k])[row[k]] by {
        let (a, b) = (elements[j], elements[k]);
        lemma_item_tag(a.0, a.1);
        lemma_item_tag(b.0, b.1);
        assert(0 <= row[k] < p.gamma);
    }
    peel::law_peelable_tables_clear(s, g, w, items, row, steps);
    assert(reduced_payloads(elements) =~= elements.map_values(
        |x: (Seq<i64>, int)| reduced(x.0),
    ));
    assert(rest.map_values(|v: Cell| shown_payload(v)) =~= Seq::<Seq<i64>>::empty());
    broadcast use vstd::seq_lib::group_to_multiset_ensures;

    assert(rest.map_values(|v: Cell| shown_payload(v)).to_multiset()
        =~= vstd::multiset::Multiset::empty());
    assert(run_payloads(p, g, steps).to_multiset() =~= reduced_payloads(elements).to_multiset());
}

} // verus!
