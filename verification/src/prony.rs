//! Power-sum sketch.
//!
//! Each contributor picks a nonzero residue `z` and adds `z^j` to the point
//! sums and `x * z^j` to the sums of each payload symbol `x`. Sketches add up.
//! The points are recovered from their power sums, the payloads from their
//! moments; columns beyond the capacity check the result.

use crate::field::{
    self, cong, distinct_mod, eval, is_prime, lemma_prime_divides, lemma_quotient_coeffs,
    lemma_quotient_eval, lemma_quotient_len, quotient,
};
use crate::fp::{Fp, MAX_MODULUS};
use crate::fpoly::{canon, ints, is_poly, lemma_coeffs_cong, lemma_few_roots, val, MAX_LEN};
use crate::mse::{ascending, payloads, sort_payloads};
use crate::negacyclic::{
    center_canonical_half_open_i64, center_i64, centered, centered_half_open, lemma_centered,
    lemma_centered_id, rem_euclid_i64, N,
};
use crate::newton::{
    cf, dot, from_roots, is_dual, lemma_coefficients, lemma_dot_cong, lemma_from_roots,
    lemma_from_roots_vanish, lemma_moment_cong, lemma_monic_coefficients, lemma_power_sums,
    lemma_weights_solve, lemma_weights_unique, lemma_zero_poly, moment, newton_holds, power_sum, terms,
};
use crate::primes::lemma_prony_prime;
use crate::random::{gives_between, next_between};
use crate::rings::{KahePoly, KAHE_MODULUS};
use crate::roots::{increasing, residues, roots_of_split, splits};
use rand_chacha::ChaCha20Rng;
use vstd::arithmetic::power::{lemma_pow0, lemma_pow1, lemma_pow_adds, pow};
use vstd::arithmetic::power2::pow2;
use vstd::prelude::*;

verus! {

/// A prime of 36 bits, one more than a multiple of `2^20`.
pub const PRONY_PRIME: u64 = 68_718_428_161;

/// Largest modulus whose products can be accumulated without reducing.
pub const DECODE_LIMIT: u64 = 0x10_0000_0000;

#[derive(Clone, Copy, Debug, PartialEq, Eq, Structural)]
pub struct PronyParams {
    /// Most contributors the sketch can resolve.
    pub capacity: usize,
    pub payload_symbols: usize,
    /// Columns beyond the capacity.
    pub slack: usize,
    pub p: u64,
}

#[derive(Debug, PartialEq, Eq, Structural, Clone, Copy)]
pub enum PronyError {
    /// More contributors than the sketch resolves.
    CapacityExceeded { count: usize, capacity: usize },
    /// No distinct nonzero points have these power sums.
    NotSplit,
    /// Points were found, but the sums do not all agree with them.
    CheckFailed,
    ParamsMismatch,
    PayloadArity,
}

impl PronyParams {
    pub open spec fn valid(&self) -> bool {
        &&& self.capacity >= 1
        &&& self.payload_symbols >= 1
        &&& 3 <= self.p <= MAX_MODULUS
        &&& self.capacity < self.p
        &&& self.scalars() + 2047 <= usize::MAX
    }

    pub open spec fn columns(&self) -> int {
        self.capacity + self.slack
    }

    pub open spec fn scalars(&self) -> int {
        self.columns() + 1 + self.payload_symbols * self.columns()
    }

    pub fn new(capacity: usize, payload_symbols: usize) -> (r: Self)
        requires
            1 <= capacity < PRONY_PRIME,
            payload_symbols >= 1,
        ensures
            r.capacity == capacity,
            r.payload_symbols == payload_symbols,
            r.slack == 1,
            r.p == PRONY_PRIME,
            is_prime(r.p as int),
    {
        proof {
            lemma_prony_prime();
        }
        PronyParams::with_slack(capacity, payload_symbols, 1, PRONY_PRIME)
    }

    pub fn with_slack(capacity: usize, payload_symbols: usize, slack: usize, p: u64) -> (r: Self)
        requires
            capacity >= 1,
            payload_symbols >= 1,
            p > 2,
            capacity < p,
        ensures
            r.capacity == capacity,
            r.payload_symbols == payload_symbols,
            r.slack == slack,
            r.p == p,
    {
        PronyParams { capacity, payload_symbols, slack, p }
    }

    /// Payload bits per symbol.
    pub fn bits_per_symbol(&self) -> (r: usize)
        requires
            self.p >= 1,
        ensures
            pow2(r as nat) <= self.p < pow2((r + 1) as nat),
    {
        let mut v: u64 = self.p;
        let mut r: usize = 0;
        proof {
            vstd::arithmetic::power2::lemma2_to64();
        }
        while v > 1
            invariant
                v >= 1,
                r + v <= u64::MAX,
                r < 64,
                v * pow2(r as nat) <= self.p < (v + 1) * pow2(r as nat),
            decreases v,
        {
            let ghost (v0, w) = (v as int, pow2(r as nat) as int);
            proof {
                vstd::arithmetic::power2::lemma_pow2_unfold((r + 1) as nat);
                vstd::arithmetic::power2::lemma_pow2_pos(r as nat);
                let h = v0 / 2;
                assert(h * (2 * w) <= v0 * w && (v0 + 1) * w <= (h + 1) * (2 * w)) by (nonlinear_arith)
                    requires
                        h == v0 / 2,
                        w > 0,
                ;
                if r == 63 {
                    vstd::arithmetic::power2::lemma2_to64_rest();
                    assert(v0 * w >= 2 * w) by (nonlinear_arith)
                        requires
                            v0 >= 2,
                            w > 0,
                    ;
                }
            }
            v = v / 2;
            r = r + 1;
        }
        proof {
            vstd::arithmetic::power2::lemma_pow2_unfold((r + 1) as nat);
        }
        r
    }

    /// Columns.
    pub fn cols(&self) -> (r: usize)
        requires
            self.columns() <= usize::MAX,
        ensures
            r == self.columns(),
    {
        self.capacity + self.slack
    }

    pub fn total_scalars(&self) -> (r: usize)
        requires
            self.scalars() <= usize::MAX,
        ensures
            r == self.scalars(),
    {
        let ghost (a, b) = (self.payload_symbols as int, self.columns());
        assert(a * b >= 0) by (nonlinear_arith)
            requires
                a >= 0,
                b >= 0,
        ;
        (self.cols() + 1) + self.payload_symbols * self.cols()
    }
}

pub(crate) proof fn lemma_sizes(q: PronyParams)
    requires
        q.valid(),
    ensures
        1 <= q.columns() < q.scalars(),
        q.payload_symbols < q.scalars(),
        0 <= q.payload_symbols * q.columns() < q.scalars(),
{
    let (a, b) = (q.payload_symbols as int, q.columns());
    assert(a * b >= a && a * b >= 0) by (nonlinear_arith)
        requires
            a >= 1,
            b >= 1,
    ;
}

pub struct PronySketch {
    pub params: PronyParams,
    /// Power sums of the points.
    pub s: Vec<i64>,
    /// Moments of each payload symbol.
    pub w: Vec<Vec<i64>>,
}

/// Symbol `sym` of every payload.
pub open spec fn symbol(xs: Seq<Seq<i64>>, sym: int) -> Seq<int> {
    Seq::new(xs.len(), |i: int| xs[i][sym] as int)
}

impl PronySketch {
    pub open spec fn wf(&self) -> bool {
        &&& self.params.valid()
        &&& self.s.len() == self.params.columns() + 1
        &&& self.w.len() == self.params.payload_symbols
        &&& forall|i: int|
            0 <= i < self.w.len() ==> (#[trigger] self.w[i]).len() == self.params.columns()
    }

    /// The sums are those of the points `z` with payloads `xs`.
    pub open spec fn encodes(&self, z: Seq<int>, xs: Seq<Seq<i64>>) -> bool {
        &&& z.len() == xs.len()
        &&& forall|j: int|
            0 <= j <= self.params.columns() ==> cong(
                #[trigger] self.s[j] as int,
                power_sum(z, j as nat),
                self.params.p as int,
            )
        &&& forall|sym: int, j: int|
            0 <= sym < self.params.payload_symbols && 0 <= j < self.params.columns() ==> cong(
                #[trigger] self.w[sym][j] as int,
                moment(symbol(xs, sym), z, j as nat),
                self.params.p as int,
            )
    }

    /// Contributors, modulo `p`.
    pub open spec fn count(&self) -> int {
        self.s[0] as int % self.params.p as int
    }

    pub open spec fn all_zero(&self) -> bool {
        &&& forall|j: int| 0 <= j < self.s.len() ==> #[trigger] self.s[j] == 0
        &&& forall|sym: int, j: int|
            0 <= sym < self.w.len() && 0 <= j < self.w[sym].len() ==> #[trigger] self.w[sym][j] == 0
    }

    /// As many ascending nonzero points as contributors, with these power sums.
    pub open spec fn points_fit(&self, z: Seq<u64>) -> bool {
        &&& z.len() == self.count()
        &&& increasing(z)
        &&& forall|i: int| 0 <= i < z.len() ==> 0 < #[trigger] z[i] < self.params.p
        &&& forall|t: nat|
            1 <= t <= z.len() ==> cong(
                self.s[t as int] as int,
                #[trigger] power_sum(ints(z), t),
                self.params.p as int,
            )
    }

    /// Fitting points and reduced payloads that give every sum.
    pub open spec fn explained(&self, z: Seq<u64>, xs: Seq<Seq<i64>>) -> bool {
        &&& self.points_fit(z)
        &&& self.encodes(ints(z), xs)
        &&& forall|i: int| 0 <= i < xs.len() ==> reduced(#[trigger] xs[i], self.params)
    }

    pub open spec fn has_points(&self) -> bool {
        exists|z: Seq<u64>| self.points_fit(z)
    }

    pub open spec fn has_explanation(&self) -> bool {
        exists|z: Seq<u64>, xs: Seq<Seq<i64>>| self.explained(z, xs)
    }

    /// Why decoding fails, if it does.
    pub open spec fn failure(&self) -> Option<PronyError> {
        if self.count() > self.params.capacity {
            Some(
                PronyError::CapacityExceeded {
                    count: self.count() as usize,
                    capacity: self.params.capacity,
                },
            )
        } else if self.count() == 0 {
            if self.all_zero() {
                None
            } else {
                Some(PronyError::CheckFailed)
            }
        } else if !self.has_points() {
            Some(PronyError::NotSplit)
        } else if !self.has_explanation() {
            Some(PronyError::CheckFailed)
        } else {
            None
        }
    }

    /// What decoding can handle.
    pub open spec fn decodable(&self) -> bool {
        &&& self.wf()
        &&& is_prime(self.params.p as int)
        &&& self.params.p <= DECODE_LIMIT
        &&& self.count() > self.params.capacity || self.count() < MAX_LEN
    }
}

/// A payload of residues.
pub open spec fn reduced(x: Seq<i64>, q: PronyParams) -> bool {
    &&& x.len() == q.payload_symbols
    &&& forall|i: int| 0 <= i < x.len() ==> 0 <= #[trigger] x[i] < q.p
}

/// `b` is `a` with the payload `x` added at `z`.
pub open spec fn is_insert(a: PronySketch, x: Seq<i64>, z: int, b: PronySketch) -> bool {
    let p = a.params.p as int;
    &&& forall|j: int|
        0 <= j <= a.params.columns() ==> #[trigger] b.s[j] == centered_half_open(
            a.s[j] + pow(z, j as nat),
            p,
        )
    &&& forall|sym: int, j: int|
        0 <= sym < a.params.payload_symbols && 0 <= j < a.params.columns()
            ==> #[trigger] b.w[sym][j] == centered_half_open(
            a.w[sym][j] + x[sym] * pow(z, j as nat),
            p,
        )
}

/// `c` is the sum of `a` and `b`.
pub open spec fn is_sum(a: PronySketch, b: PronySketch, c: PronySketch) -> bool {
    let p = a.params.p as int;
    &&& forall|j: int|
        0 <= j <= a.params.columns() ==> #[trigger] c.s[j] == centered_half_open(
            a.s[j] + b.s[j],
            p,
        )
    &&& forall|sym: int, j: int|
        0 <= sym < a.params.payload_symbols && 0 <= j < a.params.columns()
            ==> #[trigger] c.w[sym][j] == centered_half_open(a.w[sym][j] + b.w[sym][j], p)
}

/// The residue of an entry.
fn residue(x: i64, p: u64) -> (r: u64)
    requires
        3 <= p <= MAX_MODULUS,
    ensures
        r == x as int % p as int,
        r < p,
{
    rem_euclid_i64(x, p as i64) as u64
}

/// Adds a residue to an entry and centers the result.
fn bump(x: i64, y: u64, f: Fp) -> (r: i64)
    requires
        f.wf(),
        y < f.p,
    ensures
        r == centered_half_open(x + y, f.p as int),
{
    let ghost p = f.p as int;
    let v: u64 = f.add(residue(x, f.p), y);
    proof {
        field::lemma_cong_mod(x as int, p);
        field::lemma_cong_ops(x as int % p, x as int, y as int, y as int, p);
        field::lemma_cong_mod(x as int % p + y, p);
        lemma_half_open_cong(v as int, x + y, p);
    }
    center_canonical_half_open_i64(v as i64, f.p as i64)
}

proof fn lemma_half_open_cong(a: int, b: int, m: int)
    requires
        a % m == b % m,
    ensures
        centered_half_open(a, m) == centered_half_open(b, m),
{
}

fn zero_row(n: usize) -> (r: Vec<i64>)
    ensures
        r.len() == n,
        forall|i: int| 0 <= i < n ==> #[trigger] r[i] == 0,
{
    let mut r: Vec<i64> = Vec::with_capacity(n);
    for i in 0..n
        invariant
            r.len() == i,
            forall|k: int| 0 <= k < i ==> #[trigger] r[k] == 0,
    {
        r.push(0);
    }
    r
}

impl PronySketch {
    /// The empty sketch.
    pub fn new(params: PronyParams) -> (r: Self)
        requires
            params.valid(),
        ensures
            r.wf(),
            r.params == params,
            r.all_zero(),
            r.encodes(Seq::empty(), Seq::empty()),
    {
        proof {
            lemma_sizes(params);
        }
        let cols: usize = params.cols();
        let mut w: Vec<Vec<i64>> = Vec::with_capacity(params.payload_symbols);
        for i in 0..params.payload_symbols
            invariant
                w.len() == i,
                forall|k: int| 0 <= k < i ==> (#[trigger] w[k]).len() == cols,
                forall|k: int, j: int|
                    0 <= k < i && 0 <= j < w[k].len() ==> #[trigger] w[k][j] == 0,
        {
            w.push(zero_row(cols));
        }
        PronySketch { s: zero_row(cols + 1), w, params }
    }

    /// Adds an element at a random point: the next value that the generator gives
    /// out of `1..p`, whatever the payload.
    pub fn insert(&mut self, rng: &mut ChaCha20Rng, payload: &[i64])
        requires
            old(self).wf(),
            payload.len() == old(self).params.payload_symbols,
        ensures
            final(self).wf(),
            final(self).params == old(self).params,
            exists|z: int|
                0 < z < old(self).params.p && #[trigger] is_insert(
                    *old(self),
                    payload@,
                    z,
                    *final(self),
                ) && gives_between(*old(rng), 1, old(self).params.p, z as u64, *final(rng)),
    {
        let z: u64 = next_between(rng, 1, self.params.p);
        let ghost before = *self;
        self.insert_with_z(payload, z);
        assert(is_insert(before, payload@, z as int, *self));
    }

    /// Adds an element at a given point.
    pub fn insert_with_z(&mut self, payload: &[i64], z: u64)
        requires
            old(self).wf(),
            payload.len() == old(self).params.payload_symbols,
            0 < z < old(self).params.p,
        ensures
            final(self).wf(),
            final(self).params == old(self).params,
            is_insert(*old(self), payload@, z as int, *final(self)),
    {
        let ghost before = *self;
        let ghost p = self.params.p as int;
        let f = Fp::new(self.params.p);
        proof {
            lemma_sizes(self.params);
        }
        let cols: usize = self.params.cols();
        let pows: Vec<u64> = power_row(z, cols + 1, f);
        for j in 0..cols + 1
            invariant
                f.wf(),
                f.p == before.params.p,
                p == f.p,
                before.wf(),
                self.params == before.params,
                self.w == before.w,
                cols == before.params.columns(),
                self.s.len() == before.s.len(),
                pows.len() == cols + 1,
                forall|i: int|
                    0 <= i < pows.len() ==> #[trigger] pows[i] == pow(z as int, i as nat) % p
                        && pows[i] < f.p,
                forall|i: int|
                    0 <= i < j ==> #[trigger] self.s[i] == centered_half_open(
                        before.s[i] + pow(z as int, i as nat),
                        p,
                    ),
                forall|i: int| j <= i < self.s.len() ==> #[trigger] self.s[i] == before.s[i],
        {
            let v: i64 = bump(self.s[j], pows[j], f);
            proof {
                let w = pow(z as int, j as nat);
                assert(pows[j as int] == w % p);
                field::lemma_cong_mod(w, p);
                let x = before.s[j as int] as int;
                assert(self.s[j as int] == before.s[j as int]);
                field::lemma_cong_ops(x, x, w % p, w, p);
                lemma_half_open_cong(x + w % p, x + w, p);
            }
            self.s.set(j, v);
        }
        let symbols: usize = self.params.payload_symbols;
        for sym in 0..symbols
            invariant
                f.wf(),
                f.p == before.params.p,
                p == f.p,
                before.wf(),
                self.params == before.params,
                symbols == before.params.payload_symbols,
                payload.len() == symbols,
                cols == before.params.columns(),
                self.s.len() == before.s.len(),
                self.w.len() == before.w.len(),
                pows.len() == cols + 1,
                forall|i: int|
                    0 <= i < pows.len() ==> #[trigger] pows[i] == pow(z as int, i as nat) % p
                        && pows[i] < f.p,
                forall|i: int|
                    0 <= i <= cols ==> #[trigger] self.s[i] == centered_half_open(
                        before.s[i] + pow(z as int, i as nat),
                        p,
                    ),
                forall|k: int| 0 <= k < self.w.len() ==> (#[trigger] self.w[k]).len() == cols,
                forall|k: int, i: int|
                    0 <= k < sym && 0 <= i < cols ==> #[trigger] self.w[k][i] == centered_half_open(
                        before.w[k][i] + payload[k] * pow(z as int, i as nat),
                        p,
                    ),
                forall|k: int| sym <= k < self.w.len() ==> #[trigger] self.w[k] == before.w[k],
        {
            let x: u64 = residue(payload[sym], f.p);
            let row: Vec<i64> = bumped_row(&self.w[sym], payload[sym], x, &pows, z, f);
            self.w.set(sym, row);
        }
    }
}

/// The powers of `z` below `n`.
fn power_row(z: u64, n: usize, f: Fp) -> (r: Vec<u64>)
    requires
        f.wf(),
        z < f.p,
    ensures
        r.len() == n,
        forall|i: int|
            0 <= i < n ==> #[trigger] r[i] == pow(z as int, i as nat) % (f.p as int) && r[i] < f.p,
{
    let ghost p = f.p as int;
    let mut r: Vec<u64> = Vec::with_capacity(n);
    let mut cur: u64 = 1;
    proof {
        lemma_pow0(z as int);
        field::lemma_small(1, p);
    }
    for i in 0..n
        invariant
            f.wf(),
            p == f.p,
            z < f.p,
            r.len() == i,
            cur == pow(z as int, i as nat) % p,
            cur < f.p,
            forall|k: int|
                0 <= k < i ==> #[trigger] r[k] == pow(z as int, k as nat) % p && r[k] < f.p,
    {
        r.push(cur);
        proof {
            lemma_next_power(cur as int, z as int, i as nat, p);
        }
        cur = f.mul(cur, z);
    }
    r
}

proof fn lemma_next_power(cur: int, z: int, j: nat, p: int)
    requires
        p > 0,
        cur == pow(z, j) % p,
    ensures
        (cur * z) % p == pow(z, j + 1) % p,
{
    let w = pow(z, j);
    field::lemma_cong_mod(w, p);
    field::lemma_cong_ops(cur, w, z, z, p);
    lemma_pow_adds(z, j, 1);
    lemma_pow1(z);
}

/// Adds `x` times the powers to a row.
fn bumped_row(row: &Vec<i64>, x: i64, xr: u64, pows: &Vec<u64>, z: u64, f: Fp) -> (r: Vec<i64>)
    requires
        f.wf(),
        xr == x as int % f.p as int,
        xr < f.p,
        row.len() < pows.len(),
        forall|i: int|
            0 <= i < pows.len() ==> #[trigger] pows[i] == pow(z as int, i as nat) % (f.p as int)
                && pows[i] < f.p,
    ensures
        r.len() == row.len(),
        forall|i: int|
            0 <= i < row.len() ==> #[trigger] r[i] == centered_half_open(
                row[i] + x * pow(z as int, i as nat),
                f.p as int,
            ),
{
    let ghost p = f.p as int;
    let n: usize = row.len();
    let mut r: Vec<i64> = Vec::with_capacity(n);
    for i in 0..n
        invariant
            f.wf(),
            p == f.p,
            xr == x as int % f.p as int,
            xr < f.p,
            n == row.len(),
            n < pows.len(),
            r.len() == i,
            forall|k: int|
                0 <= k < pows.len() ==> #[trigger] pows[k] == pow(z as int, k as nat) % p && pows[k]
                    < f.p,
            forall|k: int|
                0 <= k < i ==> #[trigger] r[k] == centered_half_open(
                    row[k] + x * pow(z as int, k as nat),
                    p,
                ),
    {
        assert(pows[i as int] == pow(z as int, i as nat) % p && pows[i as int] < f.p);
        let y: u64 = f.mul(xr, pows[i]);
        proof {
            let w = pow(z as int, i as nat);
            field::lemma_cong_mod(w, p);
            field::lemma_cong_mod(x as int, p);
            field::lemma_cong_ops(xr as int, x as int, pows[i as int] as int, w, p);
            field::lemma_cong_mod(xr * pows[i as int], p);
            let v = row[i as int] as int;
            field::lemma_cong_ops(v, v, y as int, x * w, p);
            lemma_half_open_cong(v + y, v + x * w, p);
        }
        r.push(bump(row[i], y, f));
    }
    r
}

// ---------------------------------------------------------------
// Points
// ---------------------------------------------------------------

proof fn lemma_terms_push(c: Seq<int>, x: int, s: Seq<int>, n: int, m: nat)
    requires
        m <= n <= c.len(),
    ensures
        terms(c.push(x), s, n, m) == terms(c, s, n, m),
    decreases m,
{
    if m > 0 {
        lemma_terms_push(c, x, s, n, (m - 1) as nat);
    }
}

/// The monic polynomial that Newton's identities give for power sums `syn`.
fn newton_poly(syn: &Vec<u64>, k: usize, f: Fp) -> (lam: Vec<u64>)
    requires
        f.wf(),
        is_prime(f.p as int),
        f.p <= DECODE_LIMIT,
        canon(syn@, f.p),
        1 <= k < syn.len(),
        k < f.p,
        k < MAX_LEN,
    ensures
        lam.len() == k + 1,
        is_poly(lam@, f.p),
        lam[k as int] == 1,
        newton_holds(ints(lam@).reverse(), ints(syn@), k as nat, f.p as int),
{
    let ghost p = f.p as int;
    let ghost s = ints(syn@);
    let mut c: Vec<u64> = Vec::with_capacity(k + 1);
    c.push(1);
    for n in 1..k + 1
        invariant
            f.wf(),
            is_prime(f.p as int),
            f.p <= DECODE_LIMIT,
            p == f.p,
            s == ints(syn@),
            canon(syn@, f.p),
            k < syn.len(),
            k < f.p,
            k < MAX_LEN,
            c.len() == n,
            c[0] == 1,
            canon(c@, f.p),
            newton_holds(ints(c@), s, (n - 1) as nat, p),
    {
        let ghost cs = ints(c@);
        let mut acc: u128 = 0;
        for t in 1..n + 1
            invariant
                f.wf(),
                f.p <= DECODE_LIMIT,
                p == f.p,
                s == ints(syn@),
                cs == ints(c@),
                canon(syn@, f.p),
                canon(c@, f.p),
                1 <= n <= k < syn.len(),
                k < MAX_LEN,
                c.len() == n,
                acc == terms(cs, s, n as int, (t - 1) as nat),
                acc <= (t - 1) * 0x100_0000_0000_0000_0000,
        {
            let (a, b): (u64, u64) = (c[n - t], syn[t]);
            assert(0 <= a * b <= 0x100_0000_0000_0000_0000) by (nonlinear_arith)
                requires
                    a <= 0x10_0000_0000,
                    b <= 0x10_0000_0000,
            ;
            assert((t - 1) * 0x100_0000_0000_0000_0000 <= 0x400_0000 * 0x100_0000_0000_0000_0000)
                by (nonlinear_arith)
                requires
                    t - 1 <= 0x400_0000,
            ;
            acc = acc + a as u128 * b as u128;
            assert(cs[n - t] == a && s[t as int] == b);
        }
        let a: u64 = f.reduce_wide(acc);
        let neg: u64 = f.sub(0, a);
        let inv: u64 = f.inv(n as u64);
        let v: u64 = f.mul(neg, inv);
        proof {
            let t = terms(cs, s, n as int, n as nat);
            field::lemma_small(n as int, p);
            field::lemma_cong_mod(t, p);
            field::lemma_cong_mod(0 - a, p);
            field::lemma_cong_mod(neg * inv, p);
            field::lemma_cong_ops(n as int, n as int, v as int, neg * inv, p);
            assert(n * (neg * inv) == (n * inv) * neg) by (nonlinear_arith);
            field::lemma_cong_ops(n * inv, 1, neg as int, neg as int, p);
            assert(1 * neg == neg);
            field::lemma_cong_ops(t, a as int, n * v, 0 - a, p);
            field::lemma_small(0, p);
            assert((t + n * v) % p == 0);
        }
        let ghost before = c@;
        c.push(v);
        proof {
            assert(ints(c@) =~= cs.push(v as int));
            assert forall|m: nat| 1 <= m <= n implies (#[trigger] terms(ints(c@), s, m as int, m)
                + m * ints(c@)[m as int]) % p == 0 by {
                lemma_terms_push(cs, v as int, s, m as int, m);
                if m < n {
                    assert((terms(cs, s, m as int, m) + m * cs[m as int]) % p == 0);
                }
            }
        }
    }
    let mut lam: Vec<u64> = Vec::with_capacity(k + 1);
    for i in 0..k + 1
        invariant
            c.len() == k + 1,
            k < MAX_LEN,
            canon(c@, f.p),
            lam.len() == i,
            canon(lam@, f.p),
            forall|j: int| 0 <= j < i ==> #[trigger] lam[j] == c[k - j],
    {
        lam.push(c[k - i]);
    }
    proof {
        assert(lam[k as int] == c[0]);
        assert(ints(lam@).reverse() =~= ints(c@)) by {
            assert forall|n: int| 0 <= n <= k implies ints(lam@).reverse()[n] == ints(c@)[n] by {
                assert(lam[k - n] == c[n]);
            }
        }
    }
    lam
}

pub proof fn lemma_increasing_distinct(z: Seq<u64>, p: u64)
    requires
        increasing(z),
        canon(z, p),
    ensures
        distinct_mod(ints(z), p as int),
        ints(z).no_duplicates(),
        residues(ints(z), p as int),
{
    let q = p as int;
    assert forall|i: int, j: int| 0 <= i < z.len() && 0 <= j < z.len() && i != j implies !cong(
        #[trigger] ints(z)[i],
        #[trigger] ints(z)[j],
        q,
    ) && ints(z)[i] != ints(z)[j] by {
        field::lemma_small(z[i] as int, q);
        field::lemma_small(z[j] as int, q);
        if i < j {
            assert(z[i] < z[j]);
        } else {
            assert(z[j] < z[i]);
        }
    }
}

/// Points with the given power sums are the roots.
proof fn lemma_points_split(lam: Seq<u64>, syn: Seq<int>, z: Seq<u64>, p: u64)
    requires
        is_prime(p as int),
        lam.len() == z.len() + 1,
        lam[z.len() as int] == 1,
        z.len() < p,
        newton_holds(ints(lam).reverse(), syn, z.len(), p as int),
        increasing(z),
        canon(z, p),
        forall|t: nat|
            1 <= t <= z.len() ==> cong(syn[t as int], #[trigger] power_sum(ints(z), t), p as int),
    ensures
        splits(lam, ints(z), p as int),
{
    let (q, k) = (p as int, z.len());
    let zi = ints(z);
    let c = ints(lam).reverse();
    lemma_increasing_distinct(z, p);
    lemma_from_roots(zi);
    let g = from_roots(zi);
    assert forall|j: int| 0 <= j <= k implies cong(#[trigger] ints(lam)[j], g[j], q) by {
        lemma_coefficients(c, syn, zi, k, (k - j) as nat, q);
        assert(c[k - j] == ints(lam)[j]);
    }
    assert forall|i: int| 0 <= i < zi.len() implies val(lam, #[trigger] zi[i]) % q == 0 by {
        lemma_coeffs_cong(ints(lam), g, zi[i], q);
        lemma_from_roots_vanish(zi, i);
        field::lemma_small(0, q);
    }
}

/// The roots have the given power sums.
proof fn lemma_split_points(lam: Seq<u64>, syn: Seq<int>, z: Seq<u64>, p: u64)
    requires
        is_prime(p as int),
        splits(lam, ints(z), p as int),
        newton_holds(ints(lam).reverse(), syn, z.len(), p as int),
        increasing(z),
        canon(z, p),
    ensures
        forall|t: nat|
            1 <= t <= z.len() ==> cong(syn[t as int], #[trigger] power_sum(ints(z), t), p as int),
{
    let (q, k) = (p as int, z.len());
    let zi = ints(z);
    let c = ints(lam).reverse();
    lemma_increasing_distinct(z, p);
    lemma_from_roots(zi);
    assert forall|i: int| 0 <= i < zi.len() implies eval(ints(lam), #[trigger] zi[i]) % q == 0 by {
        assert(val(lam, zi[i]) % q == 0);
    }
    lemma_monic_coefficients(ints(lam), zi, q);
    assert forall|t: int| 0 <= t <= k implies cong(#[trigger] c[t], cf(zi, t), q) by {
        assert(c[t] == ints(lam)[k - t]);
        assert(from_roots(zi)[k - t] == cf(zi, t));
    }
    assert forall|t: nat| 1 <= t <= k implies cong(
        syn[t as int],
        #[trigger] power_sum(zi, t),
        q,
    ) by {
        lemma_power_sums(c, syn, zi, k, t, q);
    }
}

/// A further root of a polynomial that splits is one of its roots.
proof fn lemma_root_listed(lam: Seq<u64>, z: Seq<u64>, x: u64, p: u64)
    requires
        is_prime(p as int),
        splits(lam, ints(z), p as int),
        increasing(z),
        canon(z, p),
        x < p,
        val(lam, x as int) % (p as int) == 0,
    ensures
        z.contains(x),
{
    let q = p as int;
    if !z.contains(x) {
        let all = ints(z).push(x as int);
        assert forall|i: int, j: int|
            0 <= i < all.len() && 0 <= j < all.len() && i != j implies !cong(
            #[trigger] all[i],
            #[trigger] all[j],
            q,
        ) by {
            field::lemma_small(all[i], q);
            field::lemma_small(all[j], q);
            if i < z.len() && j < z.len() {
                if i < j {
                    assert(z[i] < z[j]);
                } else {
                    assert(z[j] < z[i]);
                }
            } else {
                let t = if i < z.len() { i } else { j };
                assert(z[t] != x);
            }
        }
        assert forall|i: int| 0 <= i < all.len() implies eval(ints(lam), #[trigger] all[i]) % q
            == 0 by {
            if i < z.len() {
                assert(val(lam, ints(z)[i]) % q == 0);
            }
        }
        field::lemma_small(1, q);
        assert(ints(lam)[lam.len() - 1] == 1);
        lemma_few_roots(ints(lam), all, q);
    }
}

/// Members of one ascending sequence that all occur in another cannot be
/// smaller, place by place.
proof fn lemma_increasing_ge(a: Seq<u64>, b: Seq<u64>, i: int)
    requires
        increasing(a),
        increasing(b),
        a.len() == b.len(),
        forall|t: int| 0 <= t < a.len() ==> b.contains(#[trigger] a[t]),
        0 <= i < a.len(),
    ensures
        a[i] >= b[i],
    decreases i,
{
    assert(b.contains(a[i]));
    let t = choose|t: int| 0 <= t < b.len() && b[t] == a[i];
    if t < i {
        lemma_increasing_ge(a, b, i - 1);
        assert(a[i - 1] < a[i]);
        if t < i - 1 {
            assert(b[t] < b[i - 1]);
        }
    } else if i < t {
        assert(b[i] < b[t]);
    }
}

/// Fitting points are unique.
pub proof fn law_points_unique(t: PronySketch, a: Seq<u64>, b: Seq<u64>)
    requires
        t.decodable(),
        1 <= t.count() <= t.params.capacity,
        t.points_fit(a),
        t.points_fit(b),
    ensures
        a == b,
{
    let p = t.params.p;
    let q = p as int;
    let (ai, bi) = (ints(a), ints(b));
    lemma_sizes(t.params);
    lemma_increasing_distinct(a, p);
    lemma_increasing_distinct(b, p);
    lemma_from_roots(ai);
    lemma_from_roots(bi);
    // Both have the coefficients that the sums of `a` determine.
    let c = from_roots(ai).reverse();
    let s = Seq::new(t.s.len() as nat, |j: int| power_sum(ai, j as nat));
    assert forall|n: nat| 1 <= n <= a.len() implies (#[trigger] terms(c, s, n as int, n) + n
        * c[n as int]) % q == 0 by {
        lemma_identity(ai, c, s, n, n, q);
        crate::newton::lemma_newton(ai, n);
        assert(c[n as int] == from_roots(ai)[a.len() - n]);
        field::lemma_small(0, q);
    }
    assert forall|n: nat| 1 <= n <= a.len() implies cong(
        s[n as int],
        #[trigger] power_sum(bi, n),
        q,
    ) by {
        assert(cong(t.s[n as int] as int, power_sum(ai, n), q));
        assert(cong(t.s[n as int] as int, power_sum(bi, n), q));
    }
    assert forall|j: int| 0 <= j <= a.len() implies cong(
        #[trigger] from_roots(ai)[j],
        from_roots(bi)[j],
        q,
    ) by {
        assert(c[0] == from_roots(ai)[a.len() as int]);
        lemma_coefficients(c, s, bi, a.len(), (a.len() - j) as nat, q);
        assert(c[a.len() - j] == from_roots(ai)[j]);
    }
    assert forall|i: int| 0 <= i < a.len() implies b.contains(#[trigger] a[i]) by {
        lemma_shared_root(a, b, i, p);
    }
    assert forall|j: int| 0 <= j <= a.len() implies cong(
        #[trigger] from_roots(bi)[j],
        from_roots(ai)[j],
        q,
    ) by {
        assert(cong(from_roots(ai)[j], from_roots(bi)[j], q));
    }
    assert forall|i: int| 0 <= i < b.len() implies a.contains(#[trigger] b[i]) by {
        lemma_shared_root(b, a, i, p);
    }
    assert forall|i: int| 0 <= i < a.len() implies a[i] == b[i] by {
        lemma_increasing_ge(a, b, i);
        lemma_increasing_ge(b, a, i);
    }
    assert(a =~= b);
}

/// A root of one product is a root of another with the same coefficients.
proof fn lemma_shared_root(a: Seq<u64>, b: Seq<u64>, i: int, p: u64)
    requires
        is_prime(p as int),
        canon(a, p),
        canon(b, p),
        increasing(b),
        0 <= i < a.len(),
        a.len() == b.len(),
        forall|j: int|
            0 <= j <= a.len() ==> cong(
                #[trigger] from_roots(ints(a))[j],
                from_roots(ints(b))[j],
                p as int,
            ),
    ensures
        b.contains(a[i]),
{
    let q = p as int;
    let (ai, bi) = (ints(a), ints(b));
    lemma_from_roots(ai);
    lemma_from_roots(bi);
    lemma_from_roots_vanish(ai, i);
    lemma_coeffs_cong(from_roots(ai), from_roots(bi), ai[i], q);
    field::lemma_small(0, q);
    if !b.contains(a[i]) {
        let all = bi.push(a[i] as int);
        assert forall|x: int, y: int|
            0 <= x < all.len() && 0 <= y < all.len() && x != y implies !cong(
            #[trigger] all[x],
            #[trigger] all[y],
            q,
        ) by {
            field::lemma_small(all[x], q);
            field::lemma_small(all[y], q);
            if x < b.len() && y < b.len() {
                if x < y {
                    assert(b[x] < b[y]);
                } else {
                    assert(b[y] < b[x]);
                }
            } else {
                let t = if x < b.len() { x } else { y };
                assert(b[t] != a[i]);
            }
        }
        assert forall|x: int| 0 <= x < all.len() implies eval(
            from_roots(bi),
            #[trigger] all[x],
        ) % q == 0 by {
            if x < b.len() {
                lemma_from_roots_vanish(bi, x);
            }
        }
        field::lemma_small(1, q);
        lemma_few_roots(from_roots(bi), all, q);
    }
}

proof fn lemma_identity(z: Seq<int>, c: Seq<int>, s: Seq<int>, n: nat, m: nat, p: int)
    requires
        m <= n <= z.len(),
        z.len() < s.len(),
        c == from_roots(z).reverse(),
        forall|j: int| 0 <= j < s.len() ==> #[trigger] s[j] == power_sum(z, j as nat),
    ensures
        terms(c, s, n as int, m) == crate::newton::mixed(z, n as int, m),
    decreases m,
{
    lemma_from_roots(z);
    if m > 0 {
        lemma_identity(z, c, s, n, (m - 1) as nat, p);
        assert(c[n - m] == from_roots(z)[z.len() - (n - m)]);
        assert(s[m as int] == power_sum(z, m));
    }
}

// ---------------------------------------------------------------
// Payloads
// ---------------------------------------------------------------

/// The sum of the products of two rows of residues.
fn residue_dot(a: &Vec<u64>, b: &Vec<u64>, f: Fp) -> (r: u64)
    requires
        f.wf(),
        f.p <= DECODE_LIMIT,
        canon(a@, f.p),
        canon(b@, f.p),
        a.len() <= b.len(),
        a.len() <= MAX_LEN,
    ensures
        r == dot(ints(a@), ints(b@)) % (f.p as int),
        r < f.p,
{
    let n: usize = a.len();
    let mut acc: u128 = 0;
    proof {
        assert(ints(a@).take(0) =~= Seq::<int>::empty());
    }
    for i in 0..n
        invariant
            f.p <= DECODE_LIMIT,
            canon(a@, f.p),
            canon(b@, f.p),
            n == a.len(),
            n <= b.len(),
            n <= MAX_LEN,
            acc == dot(ints(a@).take(i as int), ints(b@)),
            acc <= i * 0x100_0000_0000_0000_0000,
    {
        let (x, y): (u64, u64) = (a[i], b[i]);
        assert(0 <= x * y <= 0x100_0000_0000_0000_0000) by (nonlinear_arith)
            requires
                x <= 0x10_0000_0000,
                y <= 0x10_0000_0000,
        ;
        assert(i * 0x100_0000_0000_0000_0000 <= 0x400_0000 * 0x100_0000_0000_0000_0000)
            by (nonlinear_arith)
            requires
                i <= 0x400_0000,
        ;
        acc = acc + x as u128 * y as u128;
        proof {
            let t = ints(a@).take(i + 1);
            assert(t.drop_last() =~= ints(a@).take(i as int));
            assert(t.last() == x && ints(b@)[i as int] == y);
        }
    }
    assert(ints(a@).take(n as int) =~= ints(a@));
    f.reduce_wide(acc)
}

proof fn lemma_dot_moment(x: Seq<int>, z: Seq<int>, v: Seq<int>, j: nat, p: int)
    requires
        p > 0,
        x.len() == z.len(),
        forall|i: int| 0 <= i < z.len() ==> cong(#[trigger] v[i], pow(z[i], j), p),
    ensures
        cong(dot(x, v), moment(x, z, j), p),
    decreases z.len(),
{
    if z.len() > 0 {
        let n = z.len() - 1;
        let (xl, zl) = (x.drop_last(), z.drop_last());
        assert forall|i: int| 0 <= i < zl.len() implies cong(#[trigger] v[i], pow(zl[i], j), p) by {
            assert(zl[i] == z[i]);
        }
        lemma_dot_moment(xl, zl, v, j, p);
        lemma_moment_prefix(xl, x, zl, j);
        assert(cong(v[n], pow(z[n], j), p));
        field::lemma_cong_ops(x[n], x[n], v[n], pow(z[n], j), p);
        field::lemma_cong_ops(
            dot(xl, v),
            moment(xl, zl, j),
            x[n] * v[n],
            x[n] * pow(z[n], j),
            p,
        );
    }
}

/// Only the weights of the points count.
proof fn lemma_moment_prefix(x: Seq<int>, y: Seq<int>, z: Seq<int>, j: nat)
    requires
        forall|i: int| 0 <= i < z.len() ==> #[trigger] x[i] == y[i],
    ensures
        moment(x, z, j) == moment(y, z, j),
    decreases z.len(),
{
    if z.len() > 0 {
        lemma_moment_prefix(x, y, z.drop_last(), j);
        assert(x[z.len() - 1] == y[z.len() - 1]);
    }
}

/// The coefficients of the polynomial that is one at root `at` of `lam` and zero
/// at the other roots.
fn dual_row(lam: &Vec<u64>, z: &Vec<u64>, at: usize, f: Fp) -> (r: Vec<u64>)
    requires
        f.wf(),
        is_prime(f.p as int),
        is_poly(lam@, f.p),
        increasing(z@),
        canon(z@, f.p),
        splits(lam@, ints(z@), f.p as int),
        at < z.len(),
    ensures
        r.len() == z.len(),
        canon(r@, f.p),
        forall|l: int|
            0 <= l < z.len() ==> cong(
                #[trigger] eval(ints(r@), ints(z@)[l]),
                if at == l {
                    1
                } else {
                    0
                },
                f.p as int,
            ),
{
    let ghost p = f.p as int;
    let k: usize = z.len();
    let zi: u64 = z[at];
    let ghost q = quotient(ints(lam@), zi as int);
    proof {
        lemma_quotient_len(ints(lam@), zi as int);
        lemma_quotient_coeffs(ints(lam@), zi as int, k as int);
        assert(zi * 0 == 0);
        assert(q[k - 1] == 1);
    }
    // Synthetic division, from the leading coefficient down.
    let mut back: Vec<u64> = Vec::with_capacity(k);
    back.push(1);
    for i in 1..k
        invariant
            f.wf(),
            p == f.p,
            k == z.len(),
            lam.len() == k + 1,
            is_poly(lam@, f.p),
            zi < f.p,
            q == quotient(ints(lam@), zi as int),
            q.len() == k,
            back.len() == i,
            canon(back@, f.p),
            forall|j: int| 0 <= j < i ==> cong(#[trigger] back[j] as int, q[k - 1 - j], p),
    {
        let m: u64 = f.mul(zi, back[i - 1]);
        let v: u64 = f.add(lam[k - i], m);
        proof {
            let prev = back[i - 1] as int;
            lemma_quotient_coeffs(ints(lam@), zi as int, k - i);
            assert(cong(prev, q[k - i], p));
            field::lemma_cong_ops(zi as int, zi as int, prev, q[k - i], p);
            field::lemma_cong_mod(zi * prev, p);
            let c = lam[k - i] as int;
            field::lemma_cong_ops(c, c, m as int, zi * q[k - i], p);
            field::lemma_cong_mod(c + m, p);
        }
        back.push(v);
    }
    let mut den: u64 = 0;
    let ghost b = Seq::new(k as nat, |j: int| back[k - 1 - j] as int);
    proof {
        assert(b.skip(k as int) =~= Seq::<int>::empty());
    }
    for i in 0..k
        invariant
            f.wf(),
            p == f.p,
            zi < f.p,
            k == z.len(),
            back.len() == k,
            canon(back@, f.p),
            b == Seq::new(k as nat, |j: int| back[k - 1 - j] as int),
            den < f.p,
            cong(den as int, eval(b.skip(k - i), zi as int), p),
    {
        let m: u64 = f.mul(den, zi);
        proof {
            let e = eval(b.skip(k - i), zi as int);
            let t = b.skip(k - i - 1);
            assert(t.drop_first() =~= b.skip(k - i));
            assert(t[0] == back[i as int]);
            field::lemma_cong_ops(den as int, e, zi as int, zi as int, p);
            field::lemma_cong_mod(den * zi, p);
            assert(e * zi == zi * e) by (nonlinear_arith);
            let c = back[i as int] as int;
            field::lemma_cong_ops(m as int, zi * e, c, c, p);
            field::lemma_cong_mod(m + c, p);
        }
        den = f.add(m, back[i]);
    }
    proof {
        assert(b.skip(0) =~= b);
        lemma_dual_values(lam@, z@, at as int, q, b, f.p);
    }
    let inv: u64 = f.inv(den);
    let mut r: Vec<u64> = Vec::with_capacity(k);
    for j in 0..k
        invariant
            f.wf(),
            p == f.p,
            inv < f.p,
            k == z.len(),
            back.len() == k,
            canon(back@, f.p),
            b == Seq::new(k as nat, |i: int| back[k - 1 - i] as int),
            r.len() == j,
            canon(r@, f.p),
            forall|i: int| 0 <= i < j ==> cong(#[trigger] r[i] as int, inv * b[i], p),
    {
        let c: u64 = back[k - 1 - j];
        let v: u64 = f.mul(c, inv);
        proof {
            field::lemma_cong_mod(c * inv, p);
            assert(c * inv == inv * c) by (nonlinear_arith);
        }
        r.push(v);
    }
    proof {
        assert forall|l: int| 0 <= l < z.len() implies cong(
            #[trigger] eval(ints(r@), ints(z@)[l]),
            if at == l {
                1
            } else {
                0
            },
            p,
        ) by {
            let x = ints(z@)[l];
            let scaled = field::poly_scale(b, inv as int);
            assert forall|i: int| 0 <= i < r.len() implies cong(
                #[trigger] ints(r@)[i],
                scaled[i],
                p,
            ) by {
                assert(cong(r[i] as int, inv * b[i], p));
            }
            lemma_coeffs_cong(ints(r@), scaled, x, p);
            field::lemma_eval_scale(b, inv as int, x);
            let e = eval(b, x);
            field::lemma_small(0, p);
            if l == at {
                assert(cong(den * inv, 1, p)) by {
                    assert(den as int % p != 0) by {
                        field::lemma_small(den as int, p);
                    }
                }
                field::lemma_cong_ops(inv as int, inv as int, e, den as int, p);
                assert(inv * den == den * inv) by (nonlinear_arith);
            } else {
                field::lemma_cong_ops(inv as int, inv as int, e, 0, p);
                assert(inv * 0 == 0);
            }
        }
    }
    r
}

/// The quotient by `X - z[at]` vanishes at the other roots only.
proof fn lemma_dual_values(
    lam: Seq<u64>,
    z: Seq<u64>,
    at: int,
    q: Seq<int>,
    b: Seq<int>,
    p: u64,
)
    requires
        is_prime(p as int),
        increasing(z),
        canon(z, p),
        splits(lam, ints(z), p as int),
        0 <= at < z.len(),
        q == quotient(ints(lam), z[at] as int),
        q[z.len() - 1] == 1,
        b.len() == z.len(),
        forall|j: int| 0 <= j < b.len() ==> cong(#[trigger] b[j], q[j], p as int),
    ensures
        eval(b, z[at] as int) % (p as int) != 0,
        forall|l: int|
            0 <= l < z.len() && l != at ==> eval(b, #[trigger] ints(z)[l]) % (p as int) == 0,
{
    let m = p as int;
    let (zs, r) = (ints(z), z[at] as int);
    lemma_increasing_distinct(z, p);
    lemma_quotient_len(ints(lam), r);
    field::lemma_small(0, m);
    assert forall|l: int| 0 <= l < z.len() && l != at implies eval(b, #[trigger] zs[l]) % m == 0
        && eval(q, zs[l]) % m == 0 by {
        let x = zs[l];
        lemma_quotient_eval(ints(lam), r, x);
        assert(val(lam, zs[l]) % m == 0);
        assert(val(lam, zs[at]) % m == 0);
        let e = eval(q, x);
        field::lemma_cong_ops(eval(ints(lam), x), 0, eval(ints(lam), r), 0, m);
        assert(((x - r) * e) % m == 0);
        assert(!cong(zs[l], zs[at], m));
        field::lemma_cong_diff(x, r, m);
        lemma_prime_divides(x - r, e, m);
        lemma_coeffs_cong(b, q, x, m);
    }
    lemma_coeffs_cong(b, q, r, m);
    if eval(b, r) % m == 0 {
        assert forall|l: int| 0 <= l < z.len() implies eval(q, #[trigger] zs[l]) % m == 0 by {
            if l == at {
                assert(zs[at] == r);
            } else {
                assert(eval(b, zs[l]) % m == 0);
            }
        }
        field::lemma_small(1, m);
        lemma_few_roots(q, zs, m);
    }
}

/// The first `n` entries as residues.
fn residue_row(row: &Vec<i64>, n: usize, p: u64) -> (r: Vec<u64>)
    requires
        3 <= p <= MAX_MODULUS,
        n <= row.len(),
    ensures
        r.len() == n,
        canon(r@, p),
        forall|i: int| 0 <= i < n ==> #[trigger] r[i] == row[i] as int % p as int,
{
    let mut r: Vec<u64> = Vec::with_capacity(n);
    for i in 0..n
        invariant
            3 <= p <= MAX_MODULUS,
            n <= row.len(),
            r.len() == i,
            canon(r@, p),
            forall|k: int| 0 <= k < i ==> #[trigger] r[k] == row[k] as int % p as int,
    {
        r.push(residue(row[i], p));
    }
    r
}

/// `z[i]^j` for every point.
fn point_powers(z: &Vec<u64>, j: u64, f: Fp) -> (r: Vec<u64>)
    requires
        f.wf(),
        canon(z@, f.p),
    ensures
        r.len() == z.len(),
        canon(r@, f.p),
        forall|i: int|
            0 <= i < z.len() ==> #[trigger] r[i] == pow(z[i] as int, j as nat) % (f.p as int),
{
    let n: usize = z.len();
    let mut r: Vec<u64> = Vec::with_capacity(n);
    for i in 0..n
        invariant
            f.wf(),
            n == z.len(),
            r.len() == i,
            canon(r@, f.p),
            forall|k: int|
                0 <= k < i ==> #[trigger] r[k] == pow(z[k] as int, j as nat) % (f.p as int),
    {
        r.push(f.pow(z[i], j));
    }
    r
}

/// Multiplies each power by its point.
fn next_powers(v: &Vec<u64>, z: &Vec<u64>, Ghost(j): Ghost<nat>, f: Fp) -> (r: Vec<u64>)
    requires
        f.wf(),
        canon(z@, f.p),
        canon(v@, f.p),
        v.len() == z.len(),
        forall|i: int|
            0 <= i < z.len() ==> #[trigger] v[i] == pow(z[i] as int, j) % (f.p as int),
    ensures
        r.len() == z.len(),
        canon(r@, f.p),
        forall|i: int|
            0 <= i < z.len() ==> #[trigger] r[i] == pow(z[i] as int, j + 1) % (f.p as int),
{
    let n: usize = z.len();
    let mut r: Vec<u64> = Vec::with_capacity(n);
    for i in 0..n
        invariant
            f.wf(),
            n == z.len(),
            n == v.len(),
            canon(z@, f.p),
            canon(v@, f.p),
            r.len() == i,
            canon(r@, f.p),
            forall|k: int|
                0 <= k < z.len() ==> #[trigger] v[k] == pow(z[k] as int, j) % (f.p as int),
            forall|k: int|
                0 <= k < i ==> #[trigger] r[k] == pow(z[k] as int, j + 1) % (f.p as int),
    {
        assert(v[i as int] == pow(z[i as int] as int, j) % (f.p as int));
        proof {
            lemma_next_power(v[i as int] as int, z[i as int] as int, j, f.p as int);
        }
        r.push(f.mul(v[i], z[i]));
    }
    r
}

/// The sum of a row of powers.
fn sum_powers(v: &Vec<u64>, Ghost(z): Ghost<Seq<u64>>, Ghost(j): Ghost<nat>, f: Fp) -> (r: u64)
    requires
        f.wf(),
        canon(v@, f.p),
        v.len() == z.len(),
        forall|i: int|
            0 <= i < z.len() ==> #[trigger] v[i] == pow(z[i] as int, j) % (f.p as int),
    ensures
        r == power_sum(ints(z), j) % (f.p as int),
{
    let ghost p = f.p as int;
    let n: usize = v.len();
    let mut r: u64 = 0;
    proof {
        assert(ints(z).take(0) =~= Seq::<int>::empty());
        field::lemma_small(0, p);
    }
    for i in 0..n
        invariant
            f.wf(),
            p == f.p,
            n == v.len(),
            n == z.len(),
            canon(v@, f.p),
            r < f.p,
            r == power_sum(ints(z).take(i as int), j) % p,
            forall|k: int| 0 <= k < z.len() ==> #[trigger] v[k] == pow(z[k] as int, j) % p,
    {
        proof {
            assert(v[i as int] == pow(z[i as int] as int, j) % p);
            let t = ints(z).take(i + 1);
            assert(t.drop_last() =~= ints(z).take(i as int));
            let (a, b) = (power_sum(t.drop_last(), j), pow(t.last(), j));
            field::lemma_cong_mod(a, p);
            field::lemma_cong_mod(b, p);
            field::lemma_cong_ops(r as int, a, v[i as int] as int, b, p);
        }
        r = f.add(r, v[i]);
    }
    assert(ints(z).take(n as int) =~= ints(z));
    r
}

/// Rows of residues as integers.
pub open spec fn rows(d: Seq<Vec<u64>>) -> Seq<Seq<int>> {
    d.map_values(|v: Vec<u64>| ints(v@))
}

/// The dual polynomials of all points.
fn dual_rows(lam: &Vec<u64>, z: &Vec<u64>, f: Fp) -> (d: Vec<Vec<u64>>)
    requires
        f.wf(),
        is_prime(f.p as int),
        is_poly(lam@, f.p),
        increasing(z@),
        canon(z@, f.p),
        splits(lam@, ints(z@), f.p as int),
    ensures
        is_dual(rows(d@), ints(z@), f.p as int),
        d.len() == z.len(),
        forall|i: int| 0 <= i < d.len() ==> canon((#[trigger] d[i])@, f.p),
        forall|i: int| 0 <= i < d.len() ==> (#[trigger] d[i]).len() == z.len(),
{
    let ghost p = f.p as int;
    let k: usize = z.len();
    let mut d: Vec<Vec<u64>> = Vec::with_capacity(k);
    for i in 0..k
        invariant
            f.wf(),
            is_prime(f.p as int),
            p == f.p,
            k == z.len(),
            is_poly(lam@, f.p),
            increasing(z@),
            canon(z@, f.p),
            splits(lam@, ints(z@), f.p as int),
            d.len() == i,
            forall|a: int| 0 <= a < d.len() ==> canon((#[trigger] d[a])@, f.p),
            forall|a: int| 0 <= a < d.len() ==> (#[trigger] d[a]).len() == z.len(),
            forall|a: int, l: int|
                0 <= a < i && 0 <= l < z.len() ==> cong(
                    #[trigger] eval(ints(d[a]@), ints(z@)[l]),
                    if a == l {
                        1
                    } else {
                        0
                    },
                    p,
                ),
    {
        let row: Vec<u64> = dual_row(lam, z, i, f);
        d.push(row);
    }
    proof {
        assert forall|a: int, l: int| 0 <= a < k && 0 <= l < k implies cong(
            #[trigger] eval(rows(d@)[a], ints(z@)[l]),
            if a == l {
                1
            } else {
                0
            },
            p,
        ) by {
            assert(rows(d@)[a] == ints(d[a]@));
        }
        assert forall|a: int| 0 <= a < k implies (#[trigger] rows(d@)[a]).len() == k by {
            assert(d[a].len() == k);
        }
    }
    d
}

/// The points and payloads listed.
pub open spec fn listed_points(out: Seq<(u64, Vec<i64>)>) -> Seq<u64> {
    out.map_values(|e: (u64, Vec<i64>)| e.0)
}

pub open spec fn listed_payloads(out: Seq<(u64, Vec<i64>)>) -> Seq<Seq<i64>> {
    out.map_values(|e: (u64, Vec<i64>)| e.1@)
}

impl PronySketch {
    /// The remaining point sums agree with the points.
    pub open spec fn points_agree(&self, z: Seq<u64>, from: int) -> bool {
        forall|j: int|
            from <= j <= self.params.columns() ==> cong(
                #[trigger] self.s[j] as int,
                power_sum(ints(z), j as nat),
                self.params.p as int,
            )
    }

    fn check_points(&self, z: &Vec<u64>, f: Fp) -> (r: bool)
        requires
            self.wf(),
            f.wf(),
            f.p == self.params.p,
            canon(z@, f.p),
            z.len() < self.params.columns() + 1,
        ensures
            r == self.points_agree(z@, z.len() + 1),
    {
        let ghost p = f.p as int;
        proof {
            lemma_sizes(self.params);
        }
        let cols: usize = self.params.cols();
        let k: usize = z.len();
        let mut powers: Vec<u64> = point_powers(z, k as u64 + 1, f);
        for j in k + 1..cols + 1
            invariant
                self.wf(),
                f.wf(),
                f.p == self.params.p,
                p == f.p,
                canon(z@, f.p),
                k == z.len(),
                k + 1 <= j,
                k <= cols,
                cols == self.params.columns(),
                powers.len() == k,
                canon(powers@, f.p),
                forall|i: int|
                    0 <= i < z.len() ==> #[trigger] powers[i] == pow(z[i] as int, j as nat) % p,
                forall|t: int|
                    k < t < j ==> cong(
                        #[trigger] self.s[t] as int,
                        power_sum(ints(z@), t as nat),
                        p,
                    ),
        {
            let got: u64 = sum_powers(&powers, Ghost(z@), Ghost(j as nat), f);
            if got != residue(self.s[j], f.p) {
                assert(!cong(self.s[j as int] as int, power_sum(ints(z@), j as nat), p));
                return false;
            }
            powers = next_powers(&powers, z, Ghost(j as nat), f);
        }
        true
    }

    /// The payload rows that the first columns determine.
    fn solve(&self, dual: &Vec<Vec<u64>>, f: Fp) -> (xs: Vec<Vec<u64>>)
        requires
            self.wf(),
            f.wf(),
            f.p == self.params.p,
            f.p <= DECODE_LIMIT,
            dual.len() <= self.params.columns(),
            dual.len() <= MAX_LEN,
            forall|i: int| 0 <= i < dual.len() ==> canon((#[trigger] dual[i])@, f.p),
            forall|i: int| 0 <= i < dual.len() ==> (#[trigger] dual[i]).len() == dual.len(),
        ensures
            xs.len() == self.params.payload_symbols,
            forall|sym: int| 0 <= sym < xs.len() ==> (#[trigger] xs[sym]).len() == dual.len(),
            forall|sym: int| 0 <= sym < xs.len() ==> canon((#[trigger] xs[sym])@, f.p),
            forall|sym: int, i: int|
                0 <= sym < xs.len() && 0 <= i < dual.len() ==> cong(
                    #[trigger] xs[sym][i] as int,
                    dot(ints(dual[i]@), entries(self.w[sym]@)),
                    f.p as int,
                ),
    {
        let ghost p = f.p as int;
        let k: usize = dual.len();
        let symbols: usize = self.params.payload_symbols;
        let mut xs: Vec<Vec<u64>> = Vec::with_capacity(symbols);
        for sym in 0..symbols
            invariant
                self.wf(),
                f.wf(),
                f.p == self.params.p,
                p == f.p,
                f.p <= DECODE_LIMIT,
                k == dual.len(),
                k <= self.params.columns(),
                k <= MAX_LEN,
                symbols == self.params.payload_symbols,
                xs.len() == sym,
                forall|i: int| 0 <= i < dual.len() ==> canon((#[trigger] dual[i])@, f.p),
                forall|i: int| 0 <= i < dual.len() ==> (#[trigger] dual[i]).len() == dual.len(),
                forall|t: int| 0 <= t < sym ==> (#[trigger] xs[t]).len() == dual.len(),
                forall|t: int| 0 <= t < sym ==> canon((#[trigger] xs[t])@, f.p),
                forall|t: int, i: int|
                    0 <= t < sym && 0 <= i < dual.len() ==> cong(
                        #[trigger] xs[t][i] as int,
                        dot(ints(dual[i]@), entries(self.w[t]@)),
                        p,
                    ),
        {
            assert(self.w[sym as int].len() == self.params.columns());
            let w: Vec<u64> = residue_row(&self.w[sym], k, f.p);
            let mut row: Vec<u64> = Vec::with_capacity(k);
            for i in 0..k
                invariant
                    f.wf(),
                    f.p <= DECODE_LIMIT,
                    p == f.p,
                    k == dual.len(),
                    k <= MAX_LEN,
                    w.len() == k,
                    canon(w@, f.p),
                    k <= self.w[sym as int].len(),
                    forall|a: int|
                        0 <= a < k ==> #[trigger] w[a] == self.w[sym as int][a] as int % p,
                    forall|a: int| 0 <= a < dual.len() ==> canon((#[trigger] dual[a])@, f.p),
                    forall|a: int|
                        0 <= a < dual.len() ==> (#[trigger] dual[a]).len() == dual.len(),
                    row.len() == i,
                    canon(row@, f.p),
                    forall|a: int|
                        0 <= a < i ==> cong(
                            #[trigger] row[a] as int,
                            dot(ints(dual[a]@), entries(self.w[sym as int]@)),
                            p,
                        ),
            {
                assert(canon(dual[i as int]@, f.p) && dual[i as int].len() == k);
                let v: u64 = residue_dot(&dual[i], &w, f);
                proof {
                    let d = ints(dual[i as int]@);
                    let e = entries(self.w[sym as int]@);
                    assert forall|a: int| 0 <= a < d.len() implies cong(
                        #[trigger] ints(w@)[a],
                        e[a],
                        p,
                    ) by {
                        assert(w[a] == self.w[sym as int][a] as int % p);
                        field::lemma_cong_mod(e[a], p);
                    }
                    lemma_dot_cong(d, d, ints(w@), e, p);
                    field::lemma_cong_mod(dot(d, ints(w@)), p);
                }
                row.push(v);
            }
            xs.push(row);
        }
        xs
    }

    /// The remaining payload sums agree with the payload rows.
    pub open spec fn payloads_agree(&self, xs: Seq<Vec<u64>>, z: Seq<u64>, from: int) -> bool {
        forall|sym: int, j: int|
            0 <= sym < self.params.payload_symbols && from <= j < self.params.columns() ==> cong(
                #[trigger] self.w[sym][j] as int,
                moment(ints(xs[sym]@), ints(z), j as nat),
                self.params.p as int,
            )
    }

    fn check_payloads(&self, xs: &Vec<Vec<u64>>, z: &Vec<u64>, f: Fp) -> (r: bool)
        requires
            self.wf(),
            f.wf(),
            f.p == self.params.p,
            f.p <= DECODE_LIMIT,
            canon(z@, f.p),
            z.len() <= self.params.columns(),
            z.len() <= MAX_LEN,
            xs.len() == self.params.payload_symbols,
            forall|sym: int| 0 <= sym < xs.len() ==> (#[trigger] xs[sym]).len() == z.len(),
            forall|sym: int| 0 <= sym < xs.len() ==> canon((#[trigger] xs[sym])@, f.p),
        ensures
            r == self.payloads_agree(xs@, z@, z.len() as int),
    {
        let ghost p = f.p as int;
        proof {
            lemma_sizes(self.params);
        }
        let cols: usize = self.params.cols();
        let k: usize = z.len();
        let symbols: usize = self.params.payload_symbols;
        let mut powers: Vec<u64> = point_powers(z, k as u64, f);
        for j in k..cols
            invariant
                self.wf(),
                f.wf(),
                f.p == self.params.p,
                f.p <= DECODE_LIMIT,
                p == f.p,
                canon(z@, f.p),
                k == z.len(),
                k <= MAX_LEN,
                cols == self.params.columns(),
                symbols == self.params.payload_symbols,
                xs.len() == symbols,
                forall|sym: int| 0 <= sym < xs.len() ==> (#[trigger] xs[sym]).len() == z.len(),
                forall|sym: int| 0 <= sym < xs.len() ==> canon((#[trigger] xs[sym])@, f.p),
                powers.len() == k,
                canon(powers@, f.p),
                forall|i: int|
                    0 <= i < z.len() ==> #[trigger] powers[i] == pow(z[i] as int, j as nat) % p,
                forall|sym: int, t: int|
                    0 <= sym < symbols && k <= t < j ==> cong(
                        #[trigger] self.w[sym][t] as int,
                        moment(ints(xs[sym]@), ints(z@), t as nat),
                        p,
                    ),
        {
            for sym in 0..symbols
                invariant
                    self.wf(),
                    f.wf(),
                    f.p == self.params.p,
                    f.p <= DECODE_LIMIT,
                    p == f.p,
                    k == z.len(),
                    k <= j < cols,
                    k <= MAX_LEN,
                    cols == self.params.columns(),
                    symbols == self.params.payload_symbols,
                    xs.len() == symbols,
                    forall|t: int| 0 <= t < xs.len() ==> (#[trigger] xs[t]).len() == z.len(),
                    forall|t: int| 0 <= t < xs.len() ==> canon((#[trigger] xs[t])@, f.p),
                    powers.len() == k,
                    canon(powers@, f.p),
                    forall|i: int|
                        0 <= i < z.len() ==> #[trigger] powers[i] == pow(z[i] as int, j as nat)
                            % p,
                    forall|t: int|
                        0 <= t < sym ==> cong(
                            #[trigger] self.w[t][j as int] as int,
                            moment(ints(xs[t]@), ints(z@), j as nat),
                            p,
                        ),
            {
                assert(xs[sym as int].len() == k && canon(xs[sym as int]@, f.p));
                assert(self.w[sym as int].len() == cols);
                let got: u64 = residue_dot(&xs[sym], &powers, f);
                proof {
                    let x = ints(xs[sym as int]@);
                    assert forall|i: int| 0 <= i < z.len() implies cong(
                        #[trigger] ints(powers@)[i],
                        pow(ints(z@)[i], j as nat),
                        p,
                    ) by {
                        assert(powers[i] == pow(z[i] as int, j as nat) % p);
                        field::lemma_cong_mod(pow(z[i] as int, j as nat), p);
                    }
                    lemma_dot_moment(x, ints(z@), ints(powers@), j as nat, p);
                }
                if got != residue(self.w[sym][j], f.p) {
                    assert(!cong(
                        self.w[sym as int][j as int] as int,
                        moment(ints(xs[sym as int]@), ints(z@), j as nat),
                        p,
                    ));
                    return false;
                }
            }
            powers = next_powers(&powers, z, Ghost(j as nat), f);
        }
        true
    }

    /// Whether every entry is zero.
    fn is_clear(&self) -> (r: bool)
        requires
            self.wf(),
        ensures
            r == self.all_zero(),
    {
        let n: usize = self.s.len();
        for j in 0..n
            invariant
                n == self.s.len(),
                forall|t: int| 0 <= t < j ==> #[trigger] self.s[t] == 0,
        {
            if self.s[j] != 0 {
                return false;
            }
        }
        let m: usize = self.w.len();
        for sym in 0..m
            invariant
                self.wf(),
                m == self.w.len(),
                forall|a: int, t: int|
                    0 <= a < sym && 0 <= t < self.w[a].len() ==> #[trigger] self.w[a][t] == 0,
        {
            let row: &Vec<i64> = &self.w[sym];
            let c: usize = row.len();
            for j in 0..c
                invariant
                    sym < self.w.len(),
                    *row == self.w[sym as int],
                    c == row.len(),
                    forall|t: int| 0 <= t < j ==> #[trigger] row[t] == 0,
            {
                if row[j] != 0 {
                    assert(self.w[sym as int][j as int] != 0);
                    return false;
                }
            }
        }
        true
    }
}

/// Entries as integers.
pub open spec fn entries(v: Seq<i64>) -> Seq<int> {
    v.map_values(|x: i64| x as int)
}

/// Moments of points and reduced payloads that explain the sums determine the
/// payload rows.
proof fn lemma_rows_unique(
    t: PronySketch,
    z: Seq<u64>,
    ys: Seq<Seq<i64>>,
    d: Seq<Seq<int>>,
    row: Seq<int>,
    sym: int,
    i: int,
)
    requires
        t.wf(),
        z.len() <= t.params.columns(),
        t.encodes(ints(z), ys),
        is_dual(d, ints(z), t.params.p as int),
        0 <= sym < t.params.payload_symbols,
        0 <= i < z.len(),
        cong(row[i], dot(d[i], entries(t.w[sym]@)), t.params.p as int),
    ensures
        cong(row[i], symbol(ys, sym)[i], t.params.p as int),
{
    let p = t.params.p as int;
    let e = entries(t.w[sym]@);
    let y = symbol(ys, sym);
    assert forall|m: int| 0 <= m < z.len() implies cong(
        #[trigger] e[m],
        moment(y, ints(z), m as nat),
        p,
    ) by {
        assert(t.w[sym].len() == t.params.columns());
        assert(cong(t.w[sym][m] as int, moment(symbol(ys, sym), ints(z), m as nat), p));
    }
    lemma_weights_unique(d, ints(z), e, y, i, p);
}

impl PronySketch {
    /// Lists the points, ascending, each with its payload.
    pub fn decode_with_points(&self) -> (r: Result<Vec<(u64, Vec<i64>)>, PronyError>)
        requires
            self.decodable(),
        ensures
            match r {
                Ok(out) => self.failure() is None && self.explained(
                    listed_points(out@),
                    listed_payloads(out@),
                ),
                Err(e) => self.failure() == Some(e),
            },
    {
        let q: PronyParams = self.params;
        let ghost p = q.p as int;
        proof {
            lemma_sizes(q);
        }
        let f = Fp::new(q.p);
        let cols: usize = q.cols();
        let count: u64 = residue(self.s[0], q.p);
        if count > q.capacity as u64 {
            return Err(
                PronyError::CapacityExceeded { count: count as usize, capacity: q.capacity },
            );
        }
        let k: usize = count as usize;
        if k == 0 {
            if !self.is_clear() {
                return Err(PronyError::CheckFailed);
            }
            let out: Vec<(u64, Vec<i64>)> = Vec::new();
            proof {
                assert(listed_points(out@) =~= Seq::<u64>::empty());
                assert(listed_payloads(out@) =~= Seq::<Seq<i64>>::empty());
                lemma_clear(*self);
                assert(ints(listed_points(out@)) =~= Seq::<int>::empty());
            }
            return Ok(out);
        }
        let syn: Vec<u64> = residue_row(&self.s, cols + 1, q.p);
        let lam: Vec<u64> = newton_poly(&syn, k, f);
        let ghost ss = ints(syn@);
        proof {
            assert forall|j: int| 0 <= j <= cols implies cong(#[trigger] ss[j], self.s[j] as int, p) by {
                assert(syn[j] == self.s[j] as int % p);
                field::lemma_cong_mod(self.s[j] as int, p);
            }
            assert forall|z: Seq<u64>| #[trigger] self.points_fit(z) implies splits(
                lam@,
                ints(z),
                p,
            ) by {
                assert forall|t: nat| 1 <= t <= z.len() implies cong(
                    ss[t as int],
                    #[trigger] power_sum(ints(z), t),
                    p,
                ) by {
                    assert(cong(self.s[t as int] as int, power_sum(ints(z), t), p));
                }
                lemma_points_split(lam@, ss, z, q.p);
            }
        }
        let z: Vec<u64> = match roots_of_split(&lam, f) {
            None => {
                return Err(PronyError::NotSplit);
            },
            Some(z) => z,
        };
        proof {
            assert forall|i: int| 0 <= i < z.len() implies #[trigger] z[i] < q.p by {
                assert(0 <= ints(z@)[i] < p);
            }
        }
        if z[0] == 0 {
            proof {
                assert(val(lam@, ints(z@)[0]) % p == 0);
                assert forall|y: Seq<u64>| !(#[trigger] self.points_fit(y)) by {
                    if self.points_fit(y) {
                        lemma_root_listed(lam@, y, 0, q.p);
                        let t = choose|t: int| 0 <= t < y.len() && y[t] == 0;
                        assert(0 < y[t]);
                    }
                }
            }
            return Err(PronyError::NotSplit);
        }
        proof {
            lemma_split_points(lam@, ss, z@, q.p);
            assert forall|t: nat| 1 <= t <= z.len() implies cong(
                self.s[t as int] as int,
                #[trigger] power_sum(ints(z@), t),
                p,
            ) by {
                assert(cong(ss[t as int], self.s[t as int] as int, p));
            }
            assert forall|i: int| 0 <= i < z.len() implies 0 < #[trigger] z[i] < q.p by {
                if i > 0 {
                    assert(z[0] < z[i]);
                }
            }
            assert(self.points_fit(z@));
            assert forall|y: Seq<u64>, ys: Seq<Seq<i64>>| #[trigger]
                self.explained(y, ys) implies y == z@ by {
                law_points_unique(*self, y, z@);
            }
        }
        if !self.check_points(&z, f) {
            proof {
                assert forall|y: Seq<u64>, ys: Seq<Seq<i64>>| !(#[trigger] self.explained(y, ys)) by {
                    if self.explained(y, ys) {
                        assert(self.points_agree(z@, z.len() + 1));
                    }
                }
            }
            return Err(PronyError::CheckFailed);
        }
        let dual: Vec<Vec<u64>> = dual_rows(&lam, &z, f);
        let xs: Vec<Vec<u64>> = self.solve(&dual, f);
        let ghost d = rows(dual@);
        proof {
            assert forall|sym: int, i: int| 0 <= sym < xs.len() && 0 <= i < k implies cong(
                #[trigger] ints(xs[sym]@)[i],
                dot(d[i], entries(self.w[sym]@)),
                p,
            ) by {
                assert(cong(
                    xs[sym][i] as int,
                    dot(ints(dual[i]@), entries(self.w[sym]@)),
                    p,
                ));
                assert(xs[sym].len() == dual.len());
            }
        }
        if !self.check_payloads(&xs, &z, f) {
            proof {
                assert forall|y: Seq<u64>, ys: Seq<Seq<i64>>| !(#[trigger] self.explained(y, ys)) by {
                    if self.explained(y, ys) {
                        lemma_agreeing(*self, z@, ys, d, xs@);
                    }
                }
            }
            return Err(PronyError::CheckFailed);
        }
        let symbols: usize = q.payload_symbols;
        let mut out: Vec<(u64, Vec<i64>)> = Vec::with_capacity(k);
        for i in 0..k
            invariant
                k == z.len(),
                symbols == q.payload_symbols,
                xs.len() == symbols,
                q.p <= DECODE_LIMIT,
                forall|sym: int| 0 <= sym < xs.len() ==> (#[trigger] xs[sym]).len() == k,
                forall|sym: int| 0 <= sym < xs.len() ==> canon((#[trigger] xs[sym])@, q.p),
                out.len() == i,
                forall|a: int| 0 <= a < i ==> (#[trigger] out[a]).0 == z[a],
                forall|a: int| 0 <= a < i ==> reduced((#[trigger] out[a]).1@, q),
                forall|a: int, sym: int|
                    0 <= a < i && 0 <= sym < symbols ==> #[trigger] out[a].1[sym] == xs[sym][a],
        {
            let mut x: Vec<i64> = Vec::with_capacity(symbols);
            for sym in 0..symbols
                invariant
                    i < k,
                    symbols == q.payload_symbols,
                    xs.len() == symbols,
                    q.p <= DECODE_LIMIT,
                    forall|t: int| 0 <= t < xs.len() ==> (#[trigger] xs[t]).len() == k,
                    forall|t: int| 0 <= t < xs.len() ==> canon((#[trigger] xs[t])@, q.p),
                    x.len() == sym,
                    forall|t: int| 0 <= t < sym ==> 0 <= #[trigger] x[t] < q.p,
                    forall|t: int| 0 <= t < sym ==> #[trigger] x[t] == xs[t][i as int],
            {
                assert(xs[sym as int].len() == k && canon(xs[sym as int]@, q.p));
                assert(xs[sym as int][i as int] < q.p);
                x.push(xs[sym][i] as i64);
            }
            out.push((z[i], x));
        }
        proof {
            let (zs, ps) = (listed_points(out@), listed_payloads(out@));
            assert(zs =~= z@);
            assert forall|sym: int| 0 <= sym < symbols implies #[trigger] symbol(ps, sym) == ints(
                xs[sym]@,
            ) by {
                assert(xs[sym].len() == k);
                assert(symbol(ps, sym) =~= ints(xs[sym]@)) by {
                    assert forall|a: int| 0 <= a < k implies symbol(ps, sym)[a] == ints(
                        xs[sym]@,
                    )[a] by {
                        assert(out[a].1[sym] == xs[sym][a]);
                    }
                }
            }
            assert forall|a: int| 0 <= a < ps.len() implies reduced(#[trigger] ps[a], q) by {
                assert(reduced(out[a].1@, q));
            }
            lemma_explains(*self, z@, d, xs@);
            assert forall|sym: int, j: int|
                0 <= sym < self.params.payload_symbols && 0 <= j < self.params.columns() implies cong(
                #[trigger] self.w[sym][j] as int,
                moment(symbol(ps, sym), ints(zs), j as nat),
                p,
            ) by {
                assert(symbol(ps, sym) == ints(xs[sym]@));
            }
            assert(self.explained(zs, ps));
        }
        Ok(out)
    }

    /// Lists the payloads, ascending.
    pub fn decode(&self) -> (r: Result<Vec<Vec<i64>>, PronyError>)
        requires
            self.decodable(),
        ensures
            match r {
                Ok(out) => self.failure() is None && ascending(payloads(out@)) && exists|
                    z: Seq<u64>,
                    xs: Seq<Seq<i64>>,
                | #[trigger]
                    self.explained(z, xs) && payloads(out@).to_multiset() == xs.to_multiset(),
                Err(e) => self.failure() == Some(e),
            },
    {
        match self.decode_with_points() {
            Err(e) => Err(e),
            Ok(list) => {
                let n: usize = list.len();
                let mut rest: Vec<(u64, Vec<i64>)> = list;
                let mut xs: Vec<Vec<i64>> = Vec::with_capacity(n);
                let ghost all = listed_payloads(list@);
                let ghost points = listed_points(list@);
                proof {
                    assert(payloads(xs@) =~= Seq::<Seq<i64>>::empty());
                    assert(all.reverse().take(0) =~= Seq::<Seq<i64>>::empty());
                }
                while rest.len() > 0
                    invariant
                        all.len() == n,
                        xs.len() + rest.len() == n,
                        payloads(xs@) == all.reverse().take(xs.len() as int),
                        listed_payloads(rest@) == all.take(rest.len() as int),
                    decreases rest.len(),
                {
                    let ghost (before, m) = (rest@, xs@);
                    match rest.pop() {
                        None => {},
                        Some((_, x)) => {
                            xs.push(x);
                            proof {
                                let t = before.len() - 1;
                                assert(listed_payloads(before)[t] == x@);
                                assert(all.take(before.len() as int)[t] == all[t]);
                                assert(payloads(xs@) =~= all.reverse().take(xs.len() as int)) by {
                                    assert(payloads(m) == all.reverse().take(m.len() as int));
                                    assert forall|i: int| 0 <= i < xs.len() implies payloads(
                                        xs@,
                                    )[i] == all.reverse()[i] by {
                                        if i < m.len() {
                                            assert(payloads(xs@)[i] == payloads(m)[i]);
                                            assert(all.reverse().take(m.len() as int)[i]
                                                == all.reverse()[i]);
                                        }
                                    }
                                }
                                assert(listed_payloads(rest@) =~= all.take(rest.len() as int)) by {
                                    assert forall|i: int| 0 <= i < rest.len() implies
                                        listed_payloads(rest@)[i] == all[i] by {
                                        assert(listed_payloads(before)[i] == all.take(
                                            before.len() as int,
                                        )[i]);
                                    }
                                }
                            }
                        },
                    }
                }
                proof {
                    assert(all.reverse().take(n as int) =~= all.reverse());
                    lemma_reverse_multiset(all);
                    assert(self.explained(points, all));
                }
                Ok(sort_payloads(xs))
            },
        }
    }
}

proof fn lemma_reverse_multiset(s: Seq<Seq<i64>>)
    ensures
        s.reverse().to_multiset() == s.to_multiset(),
    decreases s.len(),
{
    broadcast use vstd::seq_lib::group_to_multiset_ensures;

    if s.len() == 0 {
        assert(s.reverse() =~= s);
    } else {
        let low = s.drop_last();
        lemma_reverse_multiset(low);
        assert(s.reverse() =~= low.reverse().insert(0, s.last()));
        assert(s =~= low.push(s.last()));
        vstd::seq_lib::to_multiset_insert(low.reverse(), 0, s.last());
    }
}

/// A cleared sketch is that of nobody.
proof fn lemma_clear(t: PronySketch)
    requires
        t.wf(),
        t.all_zero(),
    ensures
        t.points_fit(Seq::empty()),
        t.encodes(Seq::empty(), Seq::empty()),
{
    field::lemma_small(0, t.params.p as int);
    assert forall|sym: int, j: int|
        0 <= sym < t.params.payload_symbols && 0 <= j < t.params.columns() implies cong(
        #[trigger] t.w[sym][j] as int,
        moment(symbol(Seq::empty(), sym), Seq::empty(), j as nat),
        t.params.p as int,
    ) by {
        assert(t.w[sym].len() == t.params.columns());
    }
}

/// Payloads that explain the sums agree with the rows, and so does every column.
proof fn lemma_agreeing(
    t: PronySketch,
    z: Seq<u64>,
    ys: Seq<Seq<i64>>,
    d: Seq<Seq<int>>,
    xs: Seq<Vec<u64>>,
)
    requires
        t.wf(),
        z.len() <= t.params.columns(),
        t.encodes(ints(z), ys),
        is_dual(d, ints(z), t.params.p as int),
        forall|sym: int, i: int|
            0 <= sym < t.params.payload_symbols && 0 <= i < z.len() ==> cong(
                #[trigger] ints(xs[sym]@)[i],
                dot(d[i], entries(t.w[sym]@)),
                t.params.p as int,
            ),
    ensures
        t.payloads_agree(xs, z, z.len() as int),
{
    let p = t.params.p as int;
    assert forall|sym: int, j: int|
        0 <= sym < t.params.payload_symbols && z.len() <= j < t.params.columns() implies cong(
        #[trigger] t.w[sym][j] as int,
        moment(ints(xs[sym]@), ints(z), j as nat),
        p,
    ) by {
        let (x, y) = (ints(xs[sym]@), symbol(ys, sym));
        assert forall|i: int| 0 <= i < ints(z).len() implies cong(#[trigger] x[i], y[i], p) by {
            lemma_rows_unique(t, z, ys, d, x, sym, i);
        }
        lemma_moment_cong(x, y, ints(z), j as nat, p);
    }
}

/// The rows have the moments of every column.
proof fn lemma_explains(t: PronySketch, z: Seq<u64>, d: Seq<Seq<int>>, xs: Seq<Vec<u64>>)
    requires
        t.decodable(),
        1 <= t.count() <= t.params.capacity,
        t.points_fit(z),
        t.points_agree(z, z.len() as int + 1),
        t.payloads_agree(xs, z, z.len() as int),
        is_dual(d, ints(z), t.params.p as int),
        forall|sym: int, i: int|
            0 <= sym < t.params.payload_symbols && 0 <= i < z.len() ==> cong(
                #[trigger] ints(xs[sym]@)[i],
                dot(d[i], entries(t.w[sym]@)),
                t.params.p as int,
            ),
    ensures
        forall|j: int|
            0 <= j <= t.params.columns() ==> cong(
                #[trigger] t.s[j] as int,
                power_sum(ints(z), j as nat),
                t.params.p as int,
            ),
        forall|sym: int, j: int|
            0 <= sym < t.params.payload_symbols && 0 <= j < t.params.columns() ==> cong(
                #[trigger] t.w[sym][j] as int,
                moment(ints(xs[sym]@), ints(z), j as nat),
                t.params.p as int,
            ),
{
    let p = t.params.p as int;
    let k = z.len() as int;
    lemma_increasing_distinct(z, t.params.p);
    assert forall|j: int| 0 <= j <= t.params.columns() implies cong(
        #[trigger] t.s[j] as int,
        power_sum(ints(z), j as nat),
        p,
    ) by {
        if j == 0 {
            lemma_count(ints(z));
            field::lemma_cong_mod(t.s[0] as int, p);
        } else if j <= k {
            assert(cong(t.s[(j as nat) as int] as int, power_sum(ints(z), j as nat), p));
        }
    }
    assert forall|sym: int, j: int|
        0 <= sym < t.params.payload_symbols && 0 <= j < t.params.columns() implies cong(
        #[trigger] t.w[sym][j] as int,
        moment(ints(xs[sym]@), ints(z), j as nat),
        p,
    ) by {
        if j < k {
            let e = entries(t.w[sym]@);
            assert(t.w[sym].len() == t.params.columns());
            lemma_weights_solve(d, ints(z), e, ints(xs[sym]@), j, p);
        }
    }
}

/// The zeroth power sum counts the points.
proof fn lemma_count(z: Seq<int>)
    ensures
        power_sum(z, 0) == z.len(),
    decreases z.len(),
{
    if z.len() > 0 {
        lemma_count(z.drop_last());
        lemma_pow0(z.last());
    }
}

// ---------------------------------------------------------------
// Sums and packing
// ---------------------------------------------------------------

fn add_rows(a: &Vec<i64>, b: &Vec<i64>, f: Fp) -> (r: Vec<i64>)
    requires
        f.wf(),
        a.len() == b.len(),
    ensures
        r.len() == a.len(),
        forall|i: int|
            0 <= i < a.len() ==> #[trigger] r[i] == centered_half_open(a[i] + b[i], f.p as int),
{
    let ghost p = f.p as int;
    let n: usize = a.len();
    let mut r: Vec<i64> = Vec::with_capacity(n);
    for i in 0..n
        invariant
            f.wf(),
            p == f.p,
            n == a.len(),
            n == b.len(),
            r.len() == i,
            forall|k: int|
                0 <= k < i ==> #[trigger] r[k] == centered_half_open(a[k] + b[k], p),
    {
        let y: u64 = residue(b[i], f.p);
        proof {
            let (u, v) = (a[i as int] as int, b[i as int] as int);
            field::lemma_cong_mod(v, p);
            field::lemma_cong_ops(u, u, v % p, v, p);
            lemma_half_open_cong(u + v % p, u + v, p);
        }
        r.push(bump(a[i], y, f));
    }
    r
}

impl PronySketch {
    /// Adds another sketch; both must have the same parameters.
    pub fn add_assign(&mut self, other: &Self) -> (r: Result<(), PronyError>)
        requires
            old(self).wf(),
            other.wf(),
        ensures
            final(self).wf(),
            final(self).params == old(self).params,
            match r {
                Ok(_) => old(self).params == other.params && is_sum(
                    *old(self),
                    *other,
                    *final(self),
                ),
                Err(e) => e == PronyError::ParamsMismatch && old(self).params != other.params
                    && *final(self) == *old(self),
            },
    {
        if self.params != other.params {
            return Err(PronyError::ParamsMismatch);
        }
        let ghost before = *self;
        let f = Fp::new(self.params.p);
        let s: Vec<i64> = add_rows(&self.s, &other.s, f);
        let m: usize = self.w.len();
        let mut w: Vec<Vec<i64>> = Vec::with_capacity(m);
        for sym in 0..m
            invariant
                f.wf(),
                self.wf(),
                other.wf(),
                self.params == other.params,
                f.p == self.params.p,
                m == self.w.len(),
                w.len() == sym,
                forall|t: int| 0 <= t < sym ==> (#[trigger] w[t]).len() == self.params.columns(),
                forall|t: int, j: int|
                    0 <= t < sym && 0 <= j < self.params.columns() ==> #[trigger] w[t][j]
                        == centered_half_open(self.w[t][j] + other.w[t][j], f.p as int),
        {
            assert(self.w[sym as int].len() == self.params.columns());
            assert(other.w[sym as int].len() == self.params.columns());
            let row: Vec<i64> = add_rows(&self.w[sym], &other.w[sym], f);
            w.push(row);
        }
        self.s = s;
        self.w = w;
        Ok(())
    }

    /// The point sums, then the sums of each payload symbol.
    pub open spec fn flat_at(&self, j: int) -> i64 {
        let c = self.params.columns();
        if j <= c {
            self.s[j]
        } else {
            self.w[(j - c - 1) / c][(j - c - 1) % c]
        }
    }

    fn entry(&self, j: usize) -> (r: i64)
        requires
            self.wf(),
            j < self.params.scalars(),
        ensures
            r == self.flat_at(j as int),
    {
        proof {
            lemma_sizes(self.params);
        }
        let cols: usize = self.params.cols();
        if j <= cols {
            self.s[j]
        } else {
            let t: usize = j - cols - 1;
            proof {
                lemma_place(self.params, t as int);
                assert(self.w[t as int / cols as int].len() == cols);
            }
            self.w[t / cols][t % cols]
        }
    }

    /// Polynomials needed for a sketch.
    pub fn n_polys(params: &PronyParams) -> (r: usize)
        requires
            params.valid(),
        ensures
            r == (params.scalars() + 2047) / 2048,
    {
        (params.total_scalars() + 2047) / 2048
    }

    /// Cover traffic: an empty sketch.
    pub fn cover(params: &PronyParams) -> (r: Vec<KahePoly>)
        requires
            params.valid(),
        ensures
            r.len() == (params.scalars() + 2047) / 2048,
            forall|q: int, i: int|
                0 <= q < r.len() && 0 <= i < N ==> #[trigger] r[q].coeffs[i] == 0,
    {
        let empty = PronySketch::new(*params);
        let r: Vec<KahePoly> = empty.pack();
        proof {
            lemma_sizes(*params);
            assert forall|q: int, i: int| 0 <= q < r.len() && 0 <= i < N implies
                #[trigger] r[q].coeffs[i] == 0 by {
                let j = q * N + i;
                if j < params.scalars() && j > params.columns() {
                    let t = j - params.columns() - 1;
                    lemma_place(*params, t);
                    assert(empty.w[t / params.columns()].len() == params.columns());
                }
            }
        }
        r
    }

    /// The sketch as polynomials, padded with zeros.
    pub fn pack(&self) -> (r: Vec<KahePoly>)
        requires
            self.wf(),
        ensures
            r.len() == (self.params.scalars() + 2047) / 2048,
            forall|q: int, i: int|
                0 <= q < r.len() && 0 <= i < N ==> #[trigger] r[q].coeffs[i] == (if q * N + i
                    < self.params.scalars() {
                    self.flat_at(q * N + i)
                } else {
                    0i64
                }),
    {
        let total: usize = self.params.total_scalars();
        let n: usize = (total + 2047) / 2048;
        let mut polys: Vec<KahePoly> = Vec::with_capacity(n);
        for q in 0..n
            invariant
                self.wf(),
                total == self.params.scalars(),
                total + 2047 <= usize::MAX,
                n == (total + 2047) / 2048,
                polys.len() == q,
                forall|t: int, i: int|
                    0 <= t < q && 0 <= i < N ==> #[trigger] polys[t].coeffs[i] == (if t * N + i
                        < self.params.scalars() {
                        self.flat_at(t * N + i)
                    } else {
                        0i64
                    }),
        {
            let mut coeffs: [i64; N] = [0i64; N];
            let base: usize = q * 2048;
            for i in 0..N
                invariant
                    self.wf(),
                    total == self.params.scalars(),
                    total + 2047 <= usize::MAX,
                    base == q * 2048,
                    base <= total,
                    forall|k: int|
                        0 <= k < i ==> #[trigger] coeffs[k] == (if q * N + k
                            < self.params.scalars() {
                            self.flat_at(q * N + k)
                        } else {
                            0i64
                        }),
                    forall|k: int| i <= k < N ==> #[trigger] coeffs[k] == 0,
            {
                let j: usize = base + i;
                if j < total {
                    coeffs[i] = self.entry(j);
                }
            }
            polys.push(KahePoly::from_coeffs(coeffs));
        }
        polys
    }

    /// Reads a sketch back; coefficients are centered first.
    pub fn unpack(params: &PronyParams, polys: &[KahePoly]) -> (r: Self)
        requires
            params.valid(),
            polys.len() == (params.scalars() + 2047) / 2048,
        ensures
            r.wf(),
            r.params == *params,
            forall|j: int|
                0 <= j < params.scalars() ==> #[trigger] r.flat_at(j) == centered(
                    polys[j / 2048]@[j % 2048],
                    KAHE_MODULUS as int,
                ),
    {
        proof {
            lemma_sizes(*params);
        }
        let cols: usize = params.cols();
        let s: Vec<i64> = read_run(polys, 0, cols + 1);
        let symbols: usize = params.payload_symbols;
        let mut w: Vec<Vec<i64>> = Vec::with_capacity(symbols);
        for sym in 0..symbols
            invariant
                params.valid(),
                polys.len() == (params.scalars() + 2047) / 2048,
                cols == params.columns(),
                symbols == params.payload_symbols,
                w.len() == sym,
                forall|t: int| 0 <= t < sym ==> (#[trigger] w[t]).len() == cols,
                forall|t: int, i: int|
                    0 <= t < sym && 0 <= i < cols ==> #[trigger] w[t][i] == packed_at(
                        polys@,
                        cols + 1 + t * cols + i,
                    ),
        {
            proof {
                lemma_row_fits(*params, sym as int);
            }
            let row: Vec<i64> = read_run(polys, cols + 1 + sym * cols, cols);
            w.push(row);
        }
        let r = PronySketch { params: *params, s, w };
        proof {
            assert forall|j: int| 0 <= j < params.scalars() implies #[trigger] r.flat_at(j)
                == centered(polys[j / 2048]@[j % 2048], KAHE_MODULUS as int) by {
                assert(packed_at(polys@, j) == centered(
                    polys[j / 2048]@[j % 2048],
                    KAHE_MODULUS as int,
                ));
                if j <= cols {
                    assert(r.s[j] == packed_at(polys@, 0 + j));
                } else {
                    let t = j - cols - 1;
                    lemma_place(*params, t);
                    let (a, b) = (t / (cols as int), t % (cols as int));
                    vstd::arithmetic::div_mod::lemma_fundamental_div_mod(t, cols as int);
                    assert(cols * a == a * cols) by (nonlinear_arith);
                    assert(r.w[a][b] == packed_at(polys@, cols + 1 + a * cols + b));
                }
            }
        }
        r
    }
}

/// Scalar `j` of a packed sketch, centered.
pub open spec fn packed_at(polys: Seq<KahePoly>, j: int) -> int {
    centered(polys[j / 2048]@[j % 2048], KAHE_MODULUS as int)
}

/// Reads `n` scalars from position `at`.
fn read_run(polys: &[KahePoly], at: usize, n: usize) -> (r: Vec<i64>)
    requires
        at + n <= polys.len() * 2048,
        at + n <= usize::MAX,
    ensures
        r.len() == n,
        forall|i: int| 0 <= i < n ==> #[trigger] r[i] == packed_at(polys@, at + i),
{
    let mut r: Vec<i64> = Vec::with_capacity(n);
    for i in 0..n
        invariant
            at + n <= polys.len() * 2048,
            at + n <= usize::MAX,
            r.len() == i,
            forall|k: int| 0 <= k < i ==> #[trigger] r[k] == packed_at(polys@, at + k),
    {
        let j: usize = at + i;
        let (q, c): (usize, usize) = (j / 2048, j % 2048);
        assert(polys[q as int]@[c as int] == polys[q as int].coeffs[c as int]);
        let x: i64 = center_i64(polys[q].coeffs[c], KAHE_MODULUS);
        r.push(x);
    }
    r
}

/// Row and column of a payload scalar.
proof fn lemma_place(q: PronyParams, t: int)
    requires
        q.valid(),
        0 <= t < q.payload_symbols * q.columns(),
    ensures
        0 <= t / q.columns() < q.payload_symbols,
        0 <= t % q.columns() < q.columns(),
{
    let (n, m) = (q.columns(), q.payload_symbols as int);
    assert(0 <= t / n < m) by (nonlinear_arith)
        requires
            0 <= t < m * n,
            n > 0,
    ;
}

pub(crate) proof fn lemma_row_fits(q: PronyParams, sym: int)
    requires
        q.valid(),
        0 <= sym < q.payload_symbols,
    ensures
        0 <= sym * q.columns(),
        q.columns() + 1 + sym * q.columns() + q.columns() <= q.scalars(),
{
    let (n, m) = (q.columns(), q.payload_symbols as int);
    assert(0 <= sym * n && sym * n + n <= m * n) by (nonlinear_arith)
        requires
            0 <= sym < m,
            n > 0,
    ;
}

fn copy_row(v: &Vec<i64>) -> (r: Vec<i64>)
    ensures
        r@ == v@,
{
    let n: usize = v.len();
    let mut r: Vec<i64> = Vec::with_capacity(n);
    for i in 0..n
        invariant
            n == v.len(),
            r@ == v@.take(i as int),
    {
        r.push(v[i]);
        assert(r@ =~= v@.take(i + 1));
    }
    assert(v@.take(n as int) =~= v@);
    r
}

impl Clone for PronySketch {
    fn clone(&self) -> (r: Self)
        ensures
            r.params == self.params,
            r.s@ == self.s@,
            r.w.len() == self.w.len(),
            forall|i: int| 0 <= i < self.w.len() ==> (#[trigger] r.w[i])@ == self.w[i]@,
    {
        let n: usize = self.w.len();
        let mut w: Vec<Vec<i64>> = Vec::with_capacity(n);
        for i in 0..n
            invariant
                n == self.w.len(),
                w.len() == i,
                forall|k: int| 0 <= k < i ==> (#[trigger] w[k])@ == self.w[k]@,
        {
            w.push(copy_row(&self.w[i]));
        }
        PronySketch { params: self.params, s: copy_row(&self.s), w }
    }
}

// ---------------------------------------------------------------
// Laws
// ---------------------------------------------------------------

pub(crate) proof fn lemma_power_sum_append(a: Seq<int>, b: Seq<int>, j: nat)
    ensures
        power_sum(a + b, j) == power_sum(a, j) + power_sum(b, j),
    decreases b.len(),
{
    if b.len() == 0 {
        assert(a + b =~= a);
    } else {
        lemma_power_sum_append(a, b.drop_last(), j);
        assert((a + b).drop_last() =~= a + b.drop_last());
    }
}

pub(crate) proof fn lemma_moment_append(
    xs: Seq<Seq<i64>>,
    ys: Seq<Seq<i64>>,
    a: Seq<int>,
    b: Seq<int>,
    sym: int,
    j: nat,
)
    requires
        xs.len() == a.len(),
        ys.len() == b.len(),
    ensures
        moment(symbol(xs + ys, sym), a + b, j) == moment(symbol(xs, sym), a, j) + moment(
            symbol(ys, sym),
            b,
            j,
        ),
    decreases b.len(),
{
    let all = symbol(xs + ys, sym);
    if b.len() == 0 {
        assert(a + b =~= a);
        lemma_moment_prefix(all, symbol(xs, sym), a, j);
    } else {
        let (bl, yl) = (b.drop_last(), ys.drop_last());
        lemma_moment_append(xs, yl, a, bl, sym, j);
        assert((a + b).drop_last() =~= a + bl);
        lemma_moment_prefix(all, symbol(xs + yl, sym), a + bl, j);
        lemma_moment_prefix(symbol(ys, sym), symbol(yl, sym), bl, j);
    }
}

/// Inserting adds one contributor.
pub proof fn law_insert_adds(
    a: PronySketch,
    b: PronySketch,
    z: Seq<int>,
    xs: Seq<Seq<i64>>,
    point: int,
    payload: Seq<i64>,
)
    requires
        a.wf(),
        b.wf(),
        b.params == a.params,
        a.encodes(z, xs),
        is_insert(a, payload, point, b),
    ensures
        b.encodes(z.push(point), xs.push(payload)),
{
    let p = a.params.p as int;
    let (y, ys) = (seq![point], seq![payload]);
    assert(z.push(point) =~= z + y);
    assert(xs.push(payload) =~= xs + ys);
    assert(y.drop_last() =~= Seq::<int>::empty());
    assert forall|j: int| 0 <= j <= a.params.columns() implies cong(
        #[trigger] b.s[j] as int,
        power_sum(z + y, j as nat),
        p,
    ) by {
        lemma_power_sum_append(z, y, j as nat);
        let w = pow(point, j as nat);
        assert(power_sum(y.drop_last(), j as nat) == 0);
        assert(power_sum(y, j as nat) == w);
        lemma_centered(a.s[j] + w, p);
        assert(cong(a.s[j] as int, power_sum(z, j as nat), p));
        field::lemma_cong_ops(a.s[j] as int, power_sum(z, j as nat), w, w, p);
    }
    assert forall|sym: int, j: int|
        0 <= sym < a.params.payload_symbols && 0 <= j < a.params.columns() implies cong(
        #[trigger] b.w[sym][j] as int,
        moment(symbol(xs + ys, sym), z + y, j as nat),
        p,
    ) by {
        lemma_moment_append(xs, ys, z, y, sym, j as nat);
        let w = payload[sym] * pow(point, j as nat);
        assert(moment(symbol(ys, sym), y.drop_last(), j as nat) == 0);
        assert(moment(symbol(ys, sym), y, j as nat) == w);
        lemma_centered(a.w[sym][j] + w, p);
        let m = moment(symbol(xs, sym), z, j as nat);
        assert(cong(a.w[sym][j] as int, m, p));
        field::lemma_cong_ops(a.w[sym][j] as int, m, w, w, p);
    }
}

/// Entries congruent to the sums of two sketches' entries are those of all
/// contributors.
proof fn lemma_union(
    a: PronySketch,
    b: PronySketch,
    c: PronySketch,
    z: Seq<int>,
    xs: Seq<Seq<i64>>,
    y: Seq<int>,
    ys: Seq<Seq<i64>>,
)
    requires
        a.wf(),
        b.wf(),
        c.wf(),
        b.params == a.params,
        c.params == a.params,
        a.encodes(z, xs),
        b.encodes(y, ys),
        forall|j: int|
            0 <= j <= a.params.columns() ==> cong(
                #[trigger] c.s[j] as int,
                a.s[j] + b.s[j],
                a.params.p as int,
            ),
        forall|sym: int, j: int|
            0 <= sym < a.params.payload_symbols && 0 <= j < a.params.columns() ==> cong(
                #[trigger] c.w[sym][j] as int,
                a.w[sym][j] + b.w[sym][j],
                a.params.p as int,
            ),
    ensures
        c.encodes(z + y, xs + ys),
{
    let p = a.params.p as int;
    assert forall|j: int| 0 <= j <= a.params.columns() implies cong(
        #[trigger] c.s[j] as int,
        power_sum(z + y, j as nat),
        p,
    ) by {
        lemma_power_sum_append(z, y, j as nat);
        assert(cong(a.s[j] as int, power_sum(z, j as nat), p));
        assert(cong(b.s[j] as int, power_sum(y, j as nat), p));
        field::lemma_cong_ops(
            a.s[j] as int,
            power_sum(z, j as nat),
            b.s[j] as int,
            power_sum(y, j as nat),
            p,
        );
    }
    assert forall|sym: int, j: int|
        0 <= sym < a.params.payload_symbols && 0 <= j < a.params.columns() implies cong(
        #[trigger] c.w[sym][j] as int,
        moment(symbol(xs + ys, sym), z + y, j as nat),
        p,
    ) by {
        lemma_moment_append(xs, ys, z, y, sym, j as nat);
        let (m, n) = (
            moment(symbol(xs, sym), z, j as nat),
            moment(symbol(ys, sym), y, j as nat),
        );
        assert(cong(a.w[sym][j] as int, m, p));
        assert(cong(b.w[sym][j] as int, n, p));
        field::lemma_cong_ops(a.w[sym][j] as int, m, b.w[sym][j] as int, n, p);
    }
}

/// The sum of two sketches is that of all their contributors.
pub proof fn law_sum_is_union(
    a: PronySketch,
    b: PronySketch,
    c: PronySketch,
    z: Seq<int>,
    xs: Seq<Seq<i64>>,
    y: Seq<int>,
    ys: Seq<Seq<i64>>,
)
    requires
        a.wf(),
        b.wf(),
        c.wf(),
        b.params == a.params,
        c.params == a.params,
        a.encodes(z, xs),
        b.encodes(y, ys),
        is_sum(a, b, c),
    ensures
        c.encodes(z + y, xs + ys),
{
    let p = a.params.p as int;
    assert forall|j: int| 0 <= j <= a.params.columns() implies cong(
        #[trigger] c.s[j] as int,
        a.s[j] + b.s[j],
        p,
    ) by {
        lemma_centered(a.s[j] + b.s[j], p);
    }
    assert forall|sym: int, j: int|
        0 <= sym < a.params.payload_symbols && 0 <= j < a.params.columns() implies cong(
        #[trigger] c.w[sym][j] as int,
        a.w[sym][j] + b.w[sym][j],
        p,
    ) by {
        lemma_centered(a.w[sym][j] + b.w[sym][j], p);
    }
    lemma_union(a, b, c, z, xs, y, ys);
}

/// Unpacking coefficients that are the sums of two packed sketches, modulo `p`
/// and centered modulo the ring's modulus, gives the sketch of all contributors.
pub proof fn law_unpack_of_sum(
    a: PronySketch,
    b: PronySketch,
    total: Seq<KahePoly>,
    back: PronySketch,
    z: Seq<int>,
    xs: Seq<Seq<i64>>,
    y: Seq<int>,
    ys: Seq<Seq<i64>>,
)
    requires
        a.wf(),
        b.wf(),
        back.wf(),
        b.params == a.params,
        back.params == a.params,
        a.encodes(z, xs),
        b.encodes(y, ys),
        forall|j: int|
            0 <= j < a.params.scalars() ==> cong(
                #[trigger] total[j / 2048]@[j % 2048],
                a.flat_at(j) + b.flat_at(j),
                a.params.p as int,
            ),
        forall|j: int|
            0 <= j < a.params.scalars() ==> -((KAHE_MODULUS - 1) / 2)
                <= #[trigger] total[j / 2048]@[j % 2048] <= KAHE_MODULUS / 2,
        forall|j: int|
            0 <= j < a.params.scalars() ==> #[trigger] back.flat_at(j) == packed_at(total, j),
    ensures
        back.encodes(z + y, xs + ys),
{
    let q = a.params;
    let p = q.p as int;
    lemma_sizes(q);
    assert forall|j: int| 0 <= j < q.scalars() implies cong(
        #[trigger] back.flat_at(j) as int,
        a.flat_at(j) + b.flat_at(j),
        p,
    ) by {
        lemma_centered_id(total[j / 2048]@[j % 2048], KAHE_MODULUS as int);
    }
    assert forall|j: int| 0 <= j <= q.columns() implies cong(
        #[trigger] back.s[j] as int,
        a.s[j] + b.s[j],
        p,
    ) by {
        assert(cong(back.flat_at(j) as int, a.flat_at(j) + b.flat_at(j), p));
    }
    assert forall|sym: int, j: int|
        0 <= sym < q.payload_symbols && 0 <= j < q.columns() implies cong(
        #[trigger] back.w[sym][j] as int,
        a.w[sym][j] + b.w[sym][j],
        p,
    ) by {
        let c = q.columns();
        let at = c + 1 + sym * c + j;
        lemma_row_fits(q, sym);
        vstd::arithmetic::div_mod::lemma_fundamental_div_mod_converse(sym * c + j, c, sym, j);
        assert(at - c - 1 == sym * c + j);
        assert(cong(back.flat_at(at) as int, a.flat_at(at) + b.flat_at(at), p));
    }
    lemma_union(a, b, back, z, xs, y, ys);
}

/// Points paired with their payloads.
pub open spec fn paired(z: Seq<int>, xs: Seq<Seq<i64>>) -> Seq<(int, Seq<i64>)> {
    Seq::new(z.len(), |i: int| (z[i], xs[i]))
}

proof fn lemma_power_sum_insert(z: Seq<int>, at: int, a: int, j: nat)
    requires
        0 <= at <= z.len(),
    ensures
        power_sum(z.insert(at, a), j) == power_sum(z, j) + pow(a, j),
    decreases z.len(),
{
    let t = z.insert(at, a);
    if at == z.len() {
        assert(t.drop_last() =~= z);
    } else {
        lemma_power_sum_insert(z.drop_last(), at, a, j);
        assert(t.drop_last() =~= z.drop_last().insert(at, a));
    }
}

proof fn lemma_moment_insert(
    z: Seq<int>,
    xs: Seq<Seq<i64>>,
    at: int,
    a: int,
    x: Seq<i64>,
    sym: int,
    j: nat,
)
    requires
        z.len() == xs.len(),
        0 <= at <= z.len(),
    ensures
        moment(symbol(xs.insert(at, x), sym), z.insert(at, a), j) == moment(symbol(xs, sym), z, j)
            + x[sym] * pow(a, j),
    decreases z.len(),
{
    let (t, u) = (z.insert(at, a), symbol(xs.insert(at, x), sym));
    if at == z.len() {
        assert(t.drop_last() =~= z);
        lemma_moment_prefix(u, symbol(xs, sym), z, j);
    } else {
        let (zl, xl) = (z.drop_last(), xs.drop_last());
        lemma_moment_insert(zl, xl, at, a, x, sym, j);
        assert(t.drop_last() =~= zl.insert(at, a));
        lemma_moment_prefix(u, symbol(xl.insert(at, x), sym), zl.insert(at, a), j);
        lemma_moment_prefix(symbol(xs, sym), symbol(xl, sym), zl, j);
    }
}

/// Distinct points can be listed ascending, with their payloads.
proof fn lemma_sorted(z: Seq<int>, xs: Seq<Seq<i64>>, q: PronyParams) -> (r: (
    Seq<u64>,
    Seq<Seq<i64>>,
))
    requires
        z.len() == xs.len(),
        z.no_duplicates(),
        forall|i: int| 0 <= i < z.len() ==> 0 < #[trigger] z[i] < q.p,
        forall|i: int| 0 <= i < xs.len() ==> reduced(#[trigger] xs[i], q),
    ensures
        r.0.len() == z.len(),
        r.1.len() == z.len(),
        increasing(r.0),
        forall|i: int| 0 <= i < r.0.len() ==> 0 < #[trigger] r.0[i] < q.p,
        forall|i: int| 0 <= i < r.0.len() ==> z.contains(#[trigger] ints(r.0)[i]),
        forall|i: int| 0 <= i < r.1.len() ==> reduced(#[trigger] r.1[i], q),
        forall|j: nat| #[trigger] power_sum(ints(r.0), j) == power_sum(z, j),
        forall|sym: int, j: nat| #[trigger]
            moment(symbol(r.1, sym), ints(r.0), j) == moment(symbol(xs, sym), z, j),
        paired(ints(r.0), r.1).to_multiset() == paired(z, xs).to_multiset(),
    decreases z.len(),
{
    if z.len() == 0 {
        let (a, b) = (Seq::<u64>::empty(), Seq::<Seq<i64>>::empty());
        assert(ints(a) =~= z);
        assert(b =~= xs);
        return (a, b);
    }
    let n = z.len() - 1;
    let (zl, xl) = (z.drop_last(), xs.drop_last());
    assert forall|i: int| 0 <= i < zl.len() implies 0 < #[trigger] zl[i] < q.p by {
        assert(0 < z[i] < q.p);
    }
    assert forall|i: int| 0 <= i < xl.len() implies reduced(#[trigger] xl[i], q) by {
        assert(reduced(xs[i], q));
    }
    let (s, ys) = lemma_sorted(zl, xl, q);
    let (a, x) = (z[n], xs[n]);
    assert(0 < z[n] < q.p && reduced(xs[n], q));
    let at = lemma_slot(s, a);
    let (t, us) = (s.insert(at, a as u64), ys.insert(at, x));
    assert forall|i: int| 0 <= i < s.len() implies #[trigger] s[i] != a by {
        assert(zl.contains(ints(s)[i]));
        let k = choose|k: int| 0 <= k < zl.len() && zl[k] == s[i] as int;
        assert(z[k] != z[n]);
    }
    assert forall|i: int, j: int| 0 <= i < j < t.len() implies t[i] < t[j] by {
        let (i0, j0) = (if i < at { i } else { i - 1 }, if j < at { j } else { j - 1 });
        if i != at && j != at {
            assert(s[i0] < s[j0]);
        } else if i == at {
            assert(s[j0] >= a && s[j0] != a);
        } else {
            assert(s[i0] < a);
        }
    }
    assert(ints(t) =~= ints(s).insert(at, a));
    assert forall|i: int| 0 <= i < t.len() implies z.contains(#[trigger] ints(t)[i]) && 0 < t[i]
        < q.p by {
        if i == at {
            assert(z[n] == a);
        } else {
            let i0 = if i < at { i } else { i - 1 };
            assert(zl.contains(ints(s)[i0]));
            let k = choose|k: int| 0 <= k < zl.len() && zl[k] == ints(s)[i0];
            assert(z[k] == ints(t)[i]);
            assert(0 < s[i0] < q.p);
        }
    }
    assert forall|i: int| 0 <= i < t.len() implies 0 < #[trigger] t[i] < q.p by {
        assert(z.contains(ints(t)[i]));
    }
    assert forall|i: int| 0 <= i < us.len() implies reduced(#[trigger] us[i], q) by {
        if i != at {
            let i0 = if i < at { i } else { i - 1 };
            assert(reduced(ys[i0], q));
        }
    }
    assert forall|j: nat| #[trigger] power_sum(ints(t), j) == power_sum(z, j) by {
        lemma_power_sum_insert(ints(s), at, a, j);
        assert(power_sum(ints(s), j) == power_sum(zl, j));
    }
    assert forall|sym: int, j: nat| #[trigger]
        moment(symbol(us, sym), ints(t), j) == moment(symbol(xs, sym), z, j) by {
        lemma_moment_insert(ints(s), ys, at, a, x, sym, j);
        assert(moment(symbol(ys, sym), ints(s), j) == moment(symbol(xl, sym), zl, j));
        lemma_moment_prefix(symbol(xs, sym), symbol(xl, sym), zl, j);
    }
    let (pa, pb) = (paired(ints(s), ys), paired(zl, xl));
    assert(paired(ints(t), us) =~= pa.insert(at, (a, x)));
    assert(paired(z, xs) =~= pb.push((a, x)));
    vstd::seq_lib::to_multiset_insert(pa, at, (a, x));
    vstd::seq_lib::to_multiset_build(pb, (a, x));
    (t, us)
}

/// Where a value goes in an ascending sequence.
proof fn lemma_slot(s: Seq<u64>, a: int) -> (at: int)
    requires
        increasing(s),
    ensures
        0 <= at <= s.len(),
        forall|i: int| 0 <= i < at ==> #[trigger] s[i] < a,
        forall|i: int| at <= i < s.len() ==> #[trigger] s[i] >= a,
    decreases s.len(),
{
    if s.len() == 0 || s.last() < a {
        assert forall|i: int| 0 <= i < s.len() implies #[trigger] s[i] < a by {
            if i < s.len() - 1 {
                assert(s[i] < s[s.len() - 1]);
            }
        }
        s.len() as int
    } else {
        let low = s.drop_last();
        assert forall|i: int, j: int| 0 <= i < j < low.len() implies low[i] < low[j] by {
            assert(s[i] < s[j]);
        }
        let at = lemma_slot(low, a);
        assert forall|i: int| 0 <= i < at implies #[trigger] s[i] < a by {
            assert(low[i] < a);
        }
        assert forall|i: int| at <= i < s.len() implies #[trigger] s[i] >= a by {
            if i < s.len() - 1 {
                assert(low[i] >= a);
            }
        }
        at
    }
}

/// Two explanations of a sketch are the same.
pub proof fn law_explanation_unique(
    t: PronySketch,
    z: Seq<u64>,
    xs: Seq<Seq<i64>>,
    y: Seq<u64>,
    ys: Seq<Seq<i64>>,
)
    requires
        t.decodable(),
        1 <= t.count() <= t.params.capacity,
        t.explained(z, xs),
        t.explained(y, ys),
    ensures
        z == y,
        xs == ys,
{
    law_points_unique(t, z, y);
    let q = t.params;
    let p = q.p as int;
    let zi = ints(z);
    lemma_sizes(q);
    lemma_increasing_distinct(z, q.p);
    let d = lemma_duals_exist(z, q.p);
    assert forall|i: int| 0 <= i < xs.len() implies xs[i] == ys[i] by {
        assert(reduced(xs[i], q) && reduced(ys[i], q));
        assert forall|sym: int| 0 <= sym < q.payload_symbols implies xs[i][sym] == ys[i][sym] by {
            let e = entries(t.w[sym]@);
            let row = Seq::new(z.len(), |a: int| dot(d[a], e));
            lemma_rows_unique(t, z, xs, d, row, sym, i);
            lemma_rows_unique(t, z, ys, d, row, sym, i);
            field::lemma_small(xs[i][sym] as int, p);
            field::lemma_small(ys[i][sym] as int, p);
        }
        assert(xs[i] =~= ys[i]);
    }
    assert(xs =~= ys);
}

/// Distinct points have dual polynomials.
proof fn lemma_duals_exist(z: Seq<u64>, p: u64) -> (d: Seq<Seq<int>>)
    requires
        is_prime(p as int),
        increasing(z),
        canon(z, p),
    ensures
        is_dual(d, ints(z), p as int),
{
    let m = p as int;
    let zs = ints(z);
    lemma_increasing_distinct(z, p);
    let d = Seq::new(
        z.len(),
        |i: int| choose|c: Seq<int>| is_basis(c, zs, i, m),
    );
    assert forall|i: int| 0 <= i < z.len() implies is_basis(#[trigger] d[i], zs, i, m) by {
        let ys = Seq::new(
            z.len(),
            |l: int|
                if l == i {
                    1
                } else {
                    0
                },
        );
        let short = field::lemma_interpolate_is_poly(zs, ys, m);
        let pad = Seq::new(z.len(), |l: int| 0int);
        let c = field::poly_add(short, pad);
        assert forall|l: int| 0 <= l < zs.len() implies cong(
            #[trigger] eval(c, zs[l]),
            if i == l {
                1
            } else {
                0
            },
            m,
        ) by {
            field::lemma_interpolate_at_point(zs, ys, l, m);
            field::lemma_eval_add(short, pad, zs[l]);
            lemma_zero_poly(z.len(), zs[l], zs);
        }
        assert(is_basis(c, zs, i, m));
    }
    assert forall|i: int| 0 <= i < d.len() implies (#[trigger] d[i]).len() == zs.len() by {
        assert(is_basis(d[i], zs, i, m));
    }
    assert forall|i: int, l: int| 0 <= i < d.len() && 0 <= l < zs.len() implies cong(
        #[trigger] eval(d[i], zs[l]),
        if i == l {
            1
        } else {
            0
        },
        m,
    ) by {
        assert(is_basis(d[i], zs, i, m));
    }
    d
}

/// One at point `i`, zero at the other points.
spec fn is_basis(c: Seq<int>, z: Seq<int>, i: int, p: int) -> bool {
    &&& c.len() == z.len()
    &&& forall|l: int|
        0 <= l < z.len() ==> cong(
            #[trigger] eval(c, z[l]),
            if i == l {
                1
            } else {
                0
            },
            p,
        )
}

/// A sketch of at most `capacity` contributors at distinct points decodes, and
/// to exactly those points and payloads.
pub proof fn law_honest_sketch_decodes(t: PronySketch, z: Seq<int>, xs: Seq<Seq<i64>>)
    requires
        t.decodable(),
        t.encodes(z, xs),
        1 <= z.len() <= t.params.capacity,
        z.no_duplicates(),
        forall|i: int| 0 <= i < z.len() ==> 0 < #[trigger] z[i] < t.params.p,
        forall|i: int| 0 <= i < xs.len() ==> reduced(#[trigger] xs[i], t.params),
    ensures
        t.failure() is None,
        forall|y: Seq<u64>, ys: Seq<Seq<i64>>| #[trigger]
            t.explained(y, ys) ==> paired(ints(y), ys).to_multiset() == paired(
                z,
                xs,
            ).to_multiset(),
{
    let q = t.params;
    let p = q.p as int;
    lemma_sizes(q);
    lemma_count(z);
    assert(cong(t.s[0] as int, power_sum(z, 0), p));
    field::lemma_small(z.len() as int, p);
    assert(t.count() == z.len());
    let (s, us) = lemma_sorted(z, xs, q);
    assert forall|n: nat| 1 <= n <= s.len() implies cong(
        t.s[n as int] as int,
        #[trigger] power_sum(ints(s), n),
        p,
    ) by {
        assert(cong(t.s[n as int] as int, power_sum(z, (n as int) as nat), p));
    }
    assert forall|j: int| 0 <= j <= q.columns() implies cong(
        #[trigger] t.s[j] as int,
        power_sum(ints(s), j as nat),
        p,
    ) by {
        assert(power_sum(ints(s), j as nat) == power_sum(z, j as nat));
    }
    assert forall|sym: int, j: int|
        0 <= sym < q.payload_symbols && 0 <= j < q.columns() implies cong(
        #[trigger] t.w[sym][j] as int,
        moment(symbol(us, sym), ints(s), j as nat),
        p,
    ) by {
        assert(moment(symbol(us, sym), ints(s), j as nat) == moment(
            symbol(xs, sym),
            z,
            j as nat,
        ));
    }
    assert(t.points_fit(s));
    assert(t.explained(s, us));
    assert forall|y: Seq<u64>, ys: Seq<Seq<i64>>| #[trigger] t.explained(y, ys) implies paired(
        ints(y),
        ys,
    ).to_multiset() == paired(z, xs).to_multiset() by {
        law_explanation_unique(t, s, us, y, ys);
    }
}

/// Two elements drawn at distinct points that no other has are both listed,
/// whatever their payloads: equal ones too.
pub proof fn law_distinct_draws_are_all_listed(
    a: PronySketch,
    b: PronySketch,
    c: PronySketch,
    z: Seq<int>,
    xs: Seq<Seq<i64>>,
    first: (int, Seq<i64>),
    second: (int, Seq<i64>),
)
    requires
        a.wf(),
        b.wf(),
        c.decodable(),
        b.params == a.params,
        c.params == a.params,
        a.encodes(z, xs),
        is_insert(a, first.1, first.0, b),
        is_insert(b, second.1, second.0, c),
        z.len() + 2 <= a.params.capacity,
        z.no_duplicates(),
        forall|i: int| 0 <= i < z.len() ==> 0 < #[trigger] z[i] < a.params.p,
        forall|i: int| 0 <= i < xs.len() ==> reduced(#[trigger] xs[i], a.params),
        reduced(first.1, a.params),
        reduced(second.1, a.params),
        0 < first.0 < a.params.p,
        0 < second.0 < a.params.p,
        first.0 != second.0,
        !z.contains(first.0),
        !z.contains(second.0),
    ensures
        c.failure() is None,
        forall|y: Seq<u64>, ys: Seq<Seq<i64>>| #[trigger]
            c.explained(y, ys) ==> paired(ints(y), ys).to_multiset() == paired(z, xs).push(
                first,
            ).push(second).to_multiset(),
{
    law_insert_adds(a, b, z, xs, first.0, first.1);
    let (zb, xb) = (z.push(first.0), xs.push(first.1));
    law_insert_adds(b, c, zb, xb, second.0, second.1);
    let (zc, xc) = (zb.push(second.0), xb.push(second.1));
    assert forall|i: int, j: int| 0 <= i < zc.len() && 0 <= j < zc.len() && i != j implies zc[i]
        != zc[j] by {
        let n = z.len();
        assert(i < n ==> zc[i] == z[i]);
        assert(j < n ==> zc[j] == z[j]);
        assert(i < n ==> z.contains(z[i]));
        assert(j < n ==> z.contains(z[j]));
    }
    assert forall|i: int| 0 <= i < zc.len() implies 0 < #[trigger] zc[i] < c.params.p by {
        assert(i < z.len() ==> zc[i] == z[i]);
    }
    assert forall|i: int| 0 <= i < xc.len() implies reduced(#[trigger] xc[i], c.params) by {
        assert(i < xs.len() ==> xc[i] == xs[i]);
    }
    law_honest_sketch_decodes(c, zc, xc);
    assert(paired(zc, xc) =~= paired(z, xs).push(first).push(second));
}

/// A sketch's sums are the power sums of the points and the payload moments:
/// one more element adds, to every sum, its point to the sum's degree, times the
/// payload symbol where there is one.
pub proof fn law_sums_are_moments(
    t: PronySketch,
    z: Seq<int>,
    xs: Seq<Seq<i64>>,
    last: (int, Seq<i64>),
    u: PronySketch,
)
    requires
        t.wf(),
        u.wf(),
        u.params == t.params,
        t.encodes(z, xs),
        u.encodes(z.push(last.0), xs.push(last.1)),
    ensures
        forall|j: int|
            0 <= j < t.s.len() ==> cong(
                #[trigger] u.s[j] as int,
                t.s[j] + pow(last.0, j as nat),
                t.params.p as int,
            ),
        forall|sym: int, j: int|
            0 <= sym < t.w.len() && 0 <= j < t.w[sym].len() ==> cong(
                #[trigger] u.w[sym][j] as int,
                t.w[sym][j] + last.1[sym] * pow(last.0, j as nat),
                t.params.p as int,
            ),
{
    let p = t.params.p as int;
    let (zz, xx) = (z.push(last.0), xs.push(last.1));
    assert(zz.drop_last() =~= z);
    assert forall|j: int| 0 <= j < t.s.len() implies cong(
        #[trigger] u.s[j] as int,
        t.s[j] + pow(last.0, j as nat),
        p,
    ) by {
        let a = pow(last.0, j as nat);
        assert(cong(t.s[j] as int, power_sum(z, j as nat), p));
        field::lemma_cong_ops(t.s[j] as int, power_sum(z, j as nat), a, a, p);
    }
    assert forall|sym: int, j: int| 0 <= sym < t.w.len() && 0 <= j < t.w[sym].len() implies cong(
        #[trigger] u.w[sym][j] as int,
        t.w[sym][j] + last.1[sym] * pow(last.0, j as nat),
        p,
    ) by {
        let a = last.1[sym] * pow(last.0, j as nat);
        assert(t.w[sym].len() == t.params.columns());
        let (m, n) = (moment(symbol(xs, sym), z, j as nat), moment(symbol(xx, sym), z, j as nat));
        assert(cong(t.w[sym][j] as int, m, p));
        lemma_moment_prefix(symbol(xs, sym), symbol(xx, sym), z, j as nat);
        assert(moment(symbol(xx, sym), zz, j as nat) == n + symbol(xx, sym)[z.len() as int] * pow(
            last.0,
            j as nat,
        ));
        field::lemma_cong_ops(t.w[sym][j] as int, m, a, a, p);
    }
}

/// The scalars of a sketch: the point sums by degree, then the sums of each
/// payload symbol by degree.
pub proof fn law_scalars_in_order(t: PronySketch, sym: int, j: int)
    requires
        t.wf(),
        0 <= sym < t.params.payload_symbols,
        0 <= j < t.params.columns(),
    ensures
        t.flat_at(j) == t.s[j],
        t.flat_at(t.params.columns()) == t.s[t.params.columns()],
        t.flat_at(t.params.columns() + 1 + sym * t.params.columns() + j) == t.w[sym][j],
{
    let c = t.params.columns();
    assert(sym * c >= 0) by (nonlinear_arith)
        requires
            sym >= 0,
            c >= 0,
    ;
    vstd::arithmetic::div_mod::lemma_fundamental_div_mod_converse(sym * c + j, c, sym, j);
}

} // verus!
