//! Arithmetic modulo a word-sized prime.

use crate::field::{self, cong, is_prime, lemma_fermat_inverse};
use vstd::arithmetic::div_mod::{
    lemma_fundamental_div_mod, lemma_fundamental_div_mod_converse, lemma_mod_bound,
};
use vstd::arithmetic::power::{lemma_pow0, lemma_pow1, lemma_pow_adds, lemma_pow_multiplies, pow};
use vstd::arithmetic::power2::{lemma2_to64, lemma2_to64_rest, lemma_pow2_adds, lemma_pow2_pos, pow2};
use vstd::prelude::*;

verus! {

/// A modulus with its Barrett reciprocal, so that a modular product costs two
/// wide products instead of a wide division.
#[derive(Clone, Copy, Debug)]
pub struct Fp {
    pub p: u64,
    /// `2^(2k) / p`, rounded down.
    pub mu: u128,
    /// Bits of `p`.
    pub k: u32,
}

/// Largest modulus: its products and their reciprocals fit in 128 bits.
pub const MAX_MODULUS: u64 = 0x3fff_ffff_ffff_ffff;

impl Fp {
    pub open spec fn wf(&self) -> bool {
        &&& 3 <= self.p <= MAX_MODULUS
        &&& 2 <= self.k <= 62
        &&& pow2((self.k - 1) as nat) <= self.p < pow2(self.k as nat)
        &&& self.mu == pow2((2 * self.k) as nat) as int / (self.p as int)
    }

    pub fn new(p: u64) -> (r: Self)
        requires
            3 <= p <= MAX_MODULUS,
        ensures
            r.wf(),
            r.p == p,
    {
        let mut k: u32 = 2;
        let mut top: u128 = 4;
        let mut square: u128 = 16;
        proof {
            lemma2_to64();
            lemma2_to64_rest();
        }
        while top <= p as u128
            invariant
                3 <= p <= MAX_MODULUS,
                2 <= k <= 62,
                top == pow2(k as nat),
                pow2((k - 1) as nat) <= p,
                square == pow2((2 * k) as nat),
                square == top * top,
            decreases 62 - k,
        {
            proof {
                lemma2_to64();
                lemma2_to64_rest();
                if k == 62 {
                    assert(pow2(62) == 0x4000_0000_0000_0000);
                }
                lemma_pow2_adds(k as nat, 1);
                lemma_pow2_adds((2 * k) as nat, 2);
                assert(top * top <= 0x3fff_ffff_ffff_ffff * 0x3fff_ffff_ffff_ffff)
                    by (nonlinear_arith)
                    requires
                        top <= 0x3fff_ffff_ffff_ffff,
                ;
                assert((2 * top) * (2 * top) == 4 * (top * top)) by (nonlinear_arith);
            }
            k = k + 1;
            top = 2 * top;
            square = 4 * square;
        }
        Fp { p, mu: square / p as u128, k }
    }

    /// `x mod p` for `x < p^2`: the quotient estimate is never too large, and a
    /// few subtractions finish.
    pub fn reduce(self, x: u128) -> (r: u64)
        requires
            self.wf(),
            x < self.p * self.p,
        ensures
            r == x as int % (self.p as int),
            r < self.p,
    {
        let ghost (p, m, n) = (self.p as int, self.mu as int, x as int);
        let ghost a = pow2((self.k - 1) as nat) as int;
        let ghost b = pow2((self.k + 1) as nat) as int;
        let lo: u128 = x >> ((self.k - 1) as u128);
        proof {
            vstd::bits::lemma_u128_shr_is_div(x, (self.k - 1) as u128);
            lemma_pow2_pos((self.k - 1) as nat);
            lemma_pow2_pos((self.k + 1) as nat);
            lemma_pow2_adds((self.k - 1) as nat, (self.k + 1) as nat);
            lemma_pow2_adds((self.k - 1) as nat, 2);
            lemma_pow2_adds((self.k - 1) as nat, 1);
            lemma_pow2_adds(self.k as nat, self.k as nat);
            lemma2_to64();
            lemma_estimate(n, p, a, b, lo as int, m);
            lemma_pow2_small(self.k + 1);
            assert(lo * m < b * b) by (nonlinear_arith)
                requires
                    0 <= lo < b,
                    0 <= m <= b,
                    b > 0,
            ;
            assert(b * b <= 0x8000_0000_0000_0000 * 0x8000_0000_0000_0000) by (nonlinear_arith)
                requires
                    0 < b <= 0x8000_0000_0000_0000,
            ;
        }
        let wide: u128 = lo * self.mu;
        let q: u128 = wide >> ((self.k + 1) as u128);
        proof {
            vstd::bits::lemma_u128_shr_is_div(wide, (self.k + 1) as u128);
        }
        let mut r: u128 = x - q * self.p as u128;
        let ghost start = r as int;
        proof {
            field::lemma_cong_multiple(n, q as int, p);
            assert(p * (q as int) == q * p) by (nonlinear_arith);
        }
        while r >= self.p as u128
            invariant
                p == self.p,
                p > 0,
                n == x,
                cong(r as int, n, p),
            decreases r,
        {
            proof {
                field::lemma_cong_multiple(r as int, 1, p);
            }
            r = r - self.p as u128;
        }
        proof {
            field::lemma_small(r as int, p);
        }
        r as u64
    }

    /// `x mod p` for any `x`.
    pub fn reduce_wide(self, x: u128) -> (r: u64)
        requires
            self.wf(),
        ensures
            r == x as int % (self.p as int),
            r < self.p,
    {
        (x % self.p as u128) as u64
    }

    pub fn add(self, a: u64, b: u64) -> (r: u64)
        requires
            self.wf(),
            a < self.p,
            b < self.p,
        ensures
            r == (a + b) % (self.p as int),
            r < self.p,
    {
        let s: u64 = a + b;
        proof {
            if s >= self.p {
                lemma_fundamental_div_mod_converse(
                    s as int,
                    self.p as int,
                    1,
                    s - self.p,
                );
            } else {
                field::lemma_small(s as int, self.p as int);
            }
        }
        if s >= self.p {
            s - self.p
        } else {
            s
        }
    }

    pub fn sub(self, a: u64, b: u64) -> (r: u64)
        requires
            self.wf(),
            a < self.p,
            b < self.p,
        ensures
            r == (a - b) % (self.p as int),
            r < self.p,
    {
        proof {
            if a >= b {
                field::lemma_small(a - b, self.p as int);
            } else {
                lemma_fundamental_div_mod_converse(
                    a - b,
                    self.p as int,
                    -1,
                    a + self.p - b,
                );
            }
        }
        if a >= b {
            a - b
        } else {
            a + self.p - b
        }
    }

    pub fn mul(self, a: u64, b: u64) -> (r: u64)
        requires
            self.wf(),
            a < self.p,
            b < self.p,
        ensures
            r == (a * b) % (self.p as int),
            r < self.p,
    {
        proof {
            let (x, y, p) = (a as int, b as int, self.p as int);
            assert(x * y < p * p && x * y <= u64::MAX * u64::MAX) by (nonlinear_arith)
                requires
                    0 <= x < p,
                    0 <= y < p,
                    p <= u64::MAX,
            ;
        }
        self.reduce(a as u128 * b as u128)
    }

    pub fn pow(self, a: u64, e: u64) -> (r: u64)
        requires
            self.wf(),
        ensures
            r == pow(a as int, e as nat) % (self.p as int),
            r < self.p,
    {
        let ghost p = self.p as int;
        let mut r: u64 = 1;
        let mut b: u64 = a % self.p;
        let mut left: u64 = e;
        proof {
            field::lemma_cong_mod(a as int, p);
            lemma_pow_cong(a as int, b as int, e as nat, p);
        }
        while left > 0
            invariant
                self.wf(),
                p == self.p,
                r < p,
                b < p,
                cong(r * pow(b as int, left as nat), pow(a as int, e as nat), p),
            decreases left,
        {
            let ghost (r0, b0, l0) = (r as int, b as int, left as int);
            let ghost h = left as int / 2;
            proof {
                lemma_pow_half(b as int, left as nat);
                field::lemma_cong_mod(b * b, p);
                lemma_pow_cong(b * b, (b * b) % p, h as nat, p);
            }
            if left % 2 == 1 {
                r = self.mul(r, b);
            }
            b = self.mul(b, b);
            left = left / 2;
            proof {
                let sq = pow((b0 * b0), h as nat);
                let nw = pow(b as int, h as nat);
                if l0 % 2 == 1 {
                    field::lemma_cong_mod(r0 * b0, p);
                    field::lemma_cong_ops(r as int, r0 * b0, nw, sq, p);
                    assert((r0 * b0) * sq == r0 * (b0 * sq)) by (nonlinear_arith);
                } else {
                    field::lemma_cong_ops(r0, r0, nw, sq, p);
                }
            }
        }
        proof {
            lemma_pow0(b as int);
            field::lemma_small(r as int, p);
        }
        r
    }

    /// The inverse, for a prime modulus and a nonzero residue.
    pub fn inv(self, a: u64) -> (r: u64)
        requires
            self.wf(),
            is_prime(self.p as int),
        ensures
            r < self.p,
            a as int % self.p as int != 0 ==> cong(a * r, 1, self.p as int),
            a == 0 ==> r == 0,
            a == 1 ==> r == 1,
    {
        if a == 1 {
            return 1;
        }
        let r: u64 = self.pow(a, self.p - 2);
        proof {
            let (x, p) = (a as int, self.p as int);
            let w = pow(x, (p - 2) as nat);
            if x % p != 0 {
                lemma_fermat_inverse(x, p);
                field::lemma_cong_mod(w, p);
                field::lemma_cong_ops(r as int, w, x, x, p);
                assert(w * x == x * w && r * x == x * r) by (nonlinear_arith);
            }
            if a == 0 {
                vstd::arithmetic::power::lemma0_pow((p - 2) as nat);
                field::lemma_small(0, p);
            }
        }
        r
    }

    /// Companion of a multiplier reused across a loop: `w * 2^64 / p`.
    pub fn shoup(self, w: u64) -> (r: u64)
        requires
            self.wf(),
            w < self.p,
        ensures
            r == (w * 0x1_0000_0000_0000_0000) / (self.p as int),
    {
        let wide: u128 = w as u128 * 0x1_0000_0000_0000_0000;
        let q: u128 = wide / self.p as u128;
        proof {
            let (x, p) = (wide as int, self.p as int);
            assert(x / p < 0x1_0000_0000_0000_0000) by (nonlinear_arith)
                requires
                    x == w * 0x1_0000_0000_0000_0000,
                    0 <= w < p,
            ;
        }
        q as u64
    }

    /// `a * w mod p` with `w`'s companion.
    pub fn mul_shoup(self, a: u64, w: u64, w_shoup: u64) -> (r: u64)
        requires
            self.wf(),
            a < self.p,
            w < self.p,
            w_shoup == (w * 0x1_0000_0000_0000_0000) / (self.p as int),
        ensures
            r == (a * w) % (self.p as int),
            r < self.p,
    {
        assert(a * w_shoup <= u64::MAX * u64::MAX) by (nonlinear_arith)
            requires
                a <= u64::MAX,
                w_shoup <= u64::MAX,
        ;
        let wide: u128 = a as u128 * w_shoup as u128;
        let q: u128 = wide / 0x1_0000_0000_0000_0000;
        proof {
            let (x, y, p) = (a as int, w as int, self.p as int);
            lemma_shoup(x, y, w_shoup as int, q as int, p);
            assert(x * y <= u64::MAX * u64::MAX && q * p <= x * y) by (nonlinear_arith)
                requires
                    0 <= x <= u64::MAX,
                    0 <= y <= u64::MAX,
                    p * q <= x * y,
            ;
        }
        let t: u128 = a as u128 * w as u128 - q * self.p as u128;
        let r: u64 = t as u64;
        proof {
            let (n, p) = (a * w, self.p as int);
            field::lemma_cong_multiple(n, q as int, p);
            assert(p * (q as int) == q * p) by (nonlinear_arith);
            if r >= p {
                field::lemma_cong_multiple(r as int, 1, p);
                field::lemma_small(r - p, p);
            } else {
                field::lemma_small(r as int, p);
            }
        }
        if r >= self.p {
            r - self.p
        } else {
            r
        }
    }
}

proof fn lemma_pow2_small(k: int)
    requires
        0 <= k <= 63,
    ensures
        pow2(k as nat) <= 0x8000_0000_0000_0000,
{
    crate::bits::lemma_pow2_monotonic(k as nat, 63);
    lemma2_to64_rest();
}

/// The Barrett estimate: `lo * mu / b` is at most `n / p`, and its factors stay
/// below `b`.
proof fn lemma_estimate(n: int, p: int, a: int, b: int, lo: int, m: int)
    requires
        p > 0,
        a > 0,
        b == 4 * a,
        a <= p < 2 * a,
        0 <= n < p * p,
        lo == n / a,
        m == (a * b) / p,
    ensures
        0 <= lo < b,
        0 <= m <= b,
        0 <= (lo * m) / b,
        p * ((lo * m) / b) <= n,
{
    lemma_fundamental_div_mod(n, a);
    lemma_fundamental_div_mod(a * b, p);
    lemma_mod_bound(n, a);
    lemma_mod_bound(a * b, p);
    let q = (lo * m) / b;
    assert(a * lo <= n && p * m <= a * b);
    assert(lo >= 0 && m >= 0) by (nonlinear_arith)
        requires
            lo == n / a,
            m == (a * b) / p,
            n >= 0,
            a > 0,
            b > 0,
            p > 0,
    ;
    assert(lo < b) by (nonlinear_arith)
        requires
            a * lo <= n,
            n < p * p,
            p < 2 * a,
            b == 4 * a,
            a > 0,
            p > 0,
    ;
    assert(m <= b) by (nonlinear_arith)
        requires
            p * m <= a * b,
            a <= p,
            b > 0,
            m >= 0,
            a > 0,
    ;
    lemma_fundamental_div_mod(lo * m, b);
    lemma_mod_bound(lo * m, b);
    assert(q >= 0) by (nonlinear_arith)
        requires
            q == (lo * m) / b,
            lo >= 0,
            m >= 0,
            b > 0,
    ;
    assert((a * b) * (p * q) <= (a * b) * n) by {
        let (s, t) = (a * lo, p * m);
        assert(s * t <= n * (a * b)) by (nonlinear_arith)
            requires
                0 <= s <= n,
                0 <= t <= a * b,
        ;
        assert(s >= 0 && t >= 0) by (nonlinear_arith)
            requires
                s == a * lo,
                t == p * m,
                a > 0,
                lo >= 0,
                p > 0,
                m >= 0,
        ;
        assert(s * t == (a * p) * (lo * m)) by (nonlinear_arith)
            requires
                s == a * lo,
                t == p * m,
        ;
        assert((a * p) * (b * q) <= (a * p) * (lo * m)) by (nonlinear_arith)
            requires
                b * q <= lo * m,
                a > 0,
                p > 0,
        ;
        assert((a * p) * (b * q) == (a * b) * (p * q)) by (nonlinear_arith);
        assert((a * b) * n == n * (a * b)) by (nonlinear_arith);
    }
    assert(a * b > 0) by (nonlinear_arith)
        requires
            a > 0,
            b > 0,
    ;
    assert(p * q <= n) by (nonlinear_arith)
        requires
            (a * b) * (p * q) <= (a * b) * n,
            a * b > 0,
    ;
}

/// The companion's estimate is short of the quotient by less than two.
proof fn lemma_shoup(a: int, w: int, ws: int, q: int, p: int)
    requires
        p > 0,
        0 <= a < p,
        0 <= w < p,
        p <= 0x3fff_ffff_ffff_ffff,
        ws == (w * 0x1_0000_0000_0000_0000) / p,
        q == (a * ws) / 0x1_0000_0000_0000_0000,
    ensures
        0 <= q,
        p * q <= a * w,
        a * w - p * q < 2 * p,
{
    let b = 0x1_0000_0000_0000_0000int;
    let t = (w * b) % p;
    lemma_fundamental_div_mod(w * b, p);
    lemma_mod_bound(w * b, p);
    let u = (a * ws) % b;
    lemma_fundamental_div_mod(a * ws, b);
    lemma_mod_bound(a * ws, b);
    assert(ws >= 0) by (nonlinear_arith)
        requires
            ws == (w * b) / p,
            w >= 0,
            p > 0,
            b > 0,
    ;
    assert(q >= 0) by (nonlinear_arith)
        requires
            q == (a * ws) / b,
            a >= 0,
            ws >= 0,
            b > 0,
    ;
    assert(b * (a * w - p * q) == p * u + a * t) by (nonlinear_arith)
        requires
            w * b == p * ws + t,
            a * ws == b * q + u,
    ;
    assert(0 <= p * u + a * t && p * u + a * t < p * b + p * b) by (nonlinear_arith)
        requires
            0 <= u < b,
            0 <= t < p,
            0 <= a < b,
            p > 0,
    ;
    let d = a * w - p * q;
    assert(0 <= d && d < 2 * p) by (nonlinear_arith)
        requires
            0 <= b * d,
            b * d < 2 * (p * b),
            b > 0,
    ;
}

/// Powers of congruent bases are congruent.
pub proof fn lemma_pow_cong(a: int, b: int, e: nat, m: int)
    requires
        m > 0,
        cong(a, b, m),
    ensures
        cong(pow(a, e), pow(b, e), m),
    decreases e,
{
    reveal(pow);
    if e > 0 {
        lemma_pow_cong(a, b, (e - 1) as nat, m);
        field::lemma_cong_ops(a, b, pow(a, (e - 1) as nat), pow(b, (e - 1) as nat), m);
    }
}

/// Squaring halves the exponent.
pub proof fn lemma_pow_half(b: int, e: nat)
    ensures
        pow(b, e) == (if e % 2 == 1 {
            b * pow(b * b, e / 2)
        } else {
            pow(b * b, e / 2)
        }),
{
    let h = e / 2;
    lemma_pow_multiplies(b, 2, h);
    assert(pow(b, 2) == b * b) by {
        lemma_pow_adds(b, 1, 1);
        lemma_pow1(b);
    }
    assert(2 * h == h * 2);
    if e % 2 == 1 {
        lemma_pow_adds(b, 1, 2 * h);
        lemma_pow1(b);
    }
}

} // verus!
