//! Invertible lookup table over integers modulo the tree-hash modulus.
//!
//! A chunk of 48 bytes is split into limbs of `base_bits` bits. It is added,
//! limb by limb, into one bucket per level, chosen by hashing; a counter per
//! bucket counts chunks. Tables add up, and the sum lists the chunks of all.

use crate::bits::{
    digits_fit, lemma_byte_span, lemma_le_push, lemma_pow2_monotonic, lemma_stream_digit, packed_len,
    stream,
    unpack_digits, unpacked_at,
};
use crate::bytes::{le_bytes, le_value, lemma_le_value, read_le};
use crate::hash::{sha256, sha256_of};
use crate::negacyclic::N;
use crate::peel::{
    self, after, bared, cells_of, holds, is_clear, is_item, is_pure, kept, law_peeling_is_sound,
    legal, lessened, pure_in_level, pure_in_order, regular, shown, stuck, take_out, Cell, Grid,
    Shape,
};
use crate::rings::HVCPoly;
use vstd::arithmetic::power2::{lemma2_to64, lemma_pow2_adds, lemma_pow2_pos, pow2};
use vstd::prelude::*;

verus! {

pub const IBLT_N_LEVELS: usize = 4;

pub const IBLT_CHUNK_BYTES: usize = 48;

pub const IBLT_CHUNK_BITS: usize = 384;

pub const Q: i32 = 40_961;

#[derive(Clone, Copy, Debug, PartialEq, Eq, Structural)]
pub struct IbltParams {
    pub message_slots: u32,
    pub base_bits: u32,
}

/// Limbs of `b` bits in a chunk.
pub open spec fn limb_count(b: int) -> int {
    (384 + b - 1) / b
}

/// Three quarters of the level above, rounded down at the end.
pub open spec fn level_cells(slots: int, level: nat) -> int {
    (slots * power(3, level)) / power(4, level)
}

pub open spec fn power(base: int, e: nat) -> int
    decreases e,
{
    if e == 0 {
        1
    } else {
        power(base, (e - 1) as nat) * base
    }
}

impl IbltParams {
    pub open spec fn valid(&self) -> bool {
        1 <= self.base_bits <= 16
    }

    /// Cells of a level.
    pub open spec fn cells(&self, level: int) -> int {
        level_cells(self.message_slots as int, level as nat)
    }

    pub open spec fn limbs(&self) -> int {
        limb_count(self.base_bits as int)
    }

    /// Cells of all levels.
    pub open spec fn all_cells(&self) -> int {
        self.cells(0) + self.cells(1) + self.cells(2) + self.cells(3)
    }

    pub fn limbs_per_chunk(&self) -> (r: usize)
        requires
            self.base_bits >= 1,
        ensures
            r == self.limbs(),
            1 <= r <= 384,
    {
        let b: u64 = self.base_bits as u64;
        let r: u64 = (384 + b - 1) / b;
        proof {
            let (x, d) = (384 + b - 1, b as int);
            assert(1 <= x / d <= 384) by (nonlinear_arith)
                requires
                    x == 384 + d - 1,
                    d >= 1,
            ;
        }
        r as usize
    }

    pub fn level_size(&self, level: usize) -> (r: usize)
        requires
            level <= 12,
        ensures
            r == self.cells(level as int),
            r <= self.message_slots,
    {
        let mut num: u64 = self.message_slots as u64;
        let mut den: u64 = 1;
        assert(self.message_slots * 1 == self.message_slots);
        assert(power(4, 12) == 16_777_216) by {
            reveal_with_fuel(power, 13);
        }
        for l in 0..level
            invariant
                level <= 12,
                num == self.message_slots * power(3, l as nat),
                den == power(4, l as nat),
                1 <= power(3, l as nat) <= power(4, l as nat),
                power(4, l as nat) <= power(4, 12),
                power(4, 12) == 16_777_216,
                num <= self.message_slots * den,
        {
            proof {
                lemma_power_step(l as nat);
                let (s, a, b) = (self.message_slots as int, power(3, l as nat), den as int);
                assert((s * a) * 3 == s * (a * 3)) by (nonlinear_arith);
                assert(s * a <= 0xffff_ffff * 16_777_216) by (nonlinear_arith)
                    requires
                        0 <= s <= 0xffff_ffff,
                        0 <= a <= 16_777_216,
                ;
                assert(s * (a * 3) <= s * (b * 4)) by (nonlinear_arith)
                    requires
                        a <= b,
                        s >= 0,
                        a >= 0,
                ;
            }
            num = num * 3;
            den = den * 4;
        }
        proof {
            let (s, d, n) = (self.message_slots as int, den as int, num as int);
            assert(n / d <= s) by (nonlinear_arith)
                requires
                    0 <= n <= s * d,
                    d >= 1,
            ;
        }
        (num / den) as usize
    }

    pub fn total_buckets(&self) -> (r: usize)
        requires
            self.all_cells() <= usize::MAX,
        ensures
            r == self.all_cells(),
            r <= 4 * self.message_slots,
    {
        self.level_size(0) + self.level_size(1) + self.level_size(2) + self.level_size(3)
    }

    /// Largest number of clients whose limbs cannot wrap when summed. With no
    /// bits there is no largest, and the modulus stands in.
    pub fn max_clients(&self) -> (r: u32)
        requires
            self.base_bits < 32,
        ensures
            self.base_bits >= 1 ==> r * (pow2(self.base_bits as nat) - 1) < Q,
            self.base_bits >= 1 ==> (r + 1) * (pow2(self.base_bits as nat) - 1) >= Q,
            self.base_bits == 0 ==> r == Q,
    {
        proof {
            lemma_pow2_monotonic(self.base_bits as nat, 31);
            lemma2_to64();
            vstd::bits::lemma_u64_shl_is_mul(1, self.base_bits as u64);
            if self.base_bits >= 1 {
                lemma_pow2_monotonic(1, self.base_bits as nat);
            }
        }
        let b: u64 = 1u64 << (self.base_bits as u64);
        if b == 1 {
            return Q as u32;
        }
        let d: u64 = b - 1;
        let r: u64 = (Q as u64 - 1) / d;
        proof {
            let (n, k, e) = (r as int, d as int, Q - 1);
            assert(n * k <= e && (n + 1) * k > e && n <= e) by (nonlinear_arith)
                requires
                    n == e / k,
                    k >= 1,
                    e >= 0,
            ;
        }
        r as u32
    }
}

proof fn lemma_power_step(l: nat)
    requires
        l < 12,
        1 <= power(3, l) <= power(4, l) <= power(4, 12),
    ensures
        power(3, l + 1) == 3 * power(3, l),
        power(4, l + 1) == 4 * power(4, l),
        1 <= power(3, l + 1) <= power(4, l + 1) <= power(4, 12),
{
    reveal_with_fuel(power, 13);
}

// ---------------------------------------------------------------
// Limbs
// ---------------------------------------------------------------

/// The limbs of a chunk: base-`2^b` digits of its big-endian integer.
pub open spec fn limbs_of(chunk: Seq<u8>, b: int) -> Seq<int> {
    Seq::new(
        limb_count(b) as nat,
        |j: int| unpacked_at(chunk.reverse(), b as nat, j as nat) as int,
    )
}

/// Splits a chunk into limbs, least significant first.
pub fn chunk_to_limbs(chunk: &[u8; IBLT_CHUNK_BYTES], base_bits: u32) -> (r: Vec<i32>)
    requires
        1 <= base_bits <= 16,
    ensures
        r.len() == limb_count(base_bits as int),
        forall|j: int|
            0 <= j < r.len() ==> #[trigger] r[j] == limbs_of(chunk@, base_bits as int)[j],
        forall|j: int| 0 <= j < r.len() ==> 0 <= #[trigger] r[j] < pow2(base_bits as nat),
        pow2(base_bits as nat) <= 65_536,
{
    let ghost b = base_bits as nat;
    let ghost rev = chunk@.reverse();
    let mut low: Vec<u8> = Vec::with_capacity(50);
    for i in 0..48usize
        invariant
            low@ == chunk@.reverse().take(i as int),
    {
        low.push(chunk[47 - i]);
        assert(low@ =~= chunk@.reverse().take(i + 1));
    }
    assert(low@ =~= rev);
    low.push(0);
    low.push(0);
    let count: usize = (IBLT_CHUNK_BITS + base_bits as usize - 1) / base_bits as usize;
    proof {
        let (c, d) = (count as int, base_bits as int);
        lemma_limb_count(d);
    }
    let (digits, end): (Vec<u64>, usize) = unpack_digits(&low, 0, count, base_bits);
    let mut out: Vec<i32> = Vec::with_capacity(count);
    proof {
        lemma2_to64();
        lemma_pow2_monotonic(b, 16);
        lemma_pow2_pos(b);
        assert(low@.subrange(0, end as int).take(48) =~= rev);
        lemma_padding(rev, low@.subrange(0, end as int));
    }
    for j in 0..count
        invariant
            count == limb_count(base_bits as int),
            b == base_bits,
            rev == chunk@.reverse(),
            digits.len() == count,
            pow2(b) <= 65_536,
            pow2(b) > 0,
            le_value(low@.subrange(0, end as int)) == le_value(rev),
            forall|k: int|
                0 <= k < count ==> #[trigger] digits[k] == unpacked_at(
                    low@.subrange(0, end as int),
                    b,
                    k as nat,
                ),
            out.len() == j,
            forall|k: int|
                0 <= k < j ==> #[trigger] out[k] == limbs_of(chunk@, base_bits as int)[k] && 0
                    <= out[k] < pow2(b),
    {
        assert(digits[j as int] < pow2(b));
        out.push(digits[j] as i32);
    }
    out
}

/// `limb_count(b)` limbs cover the chunk and overshoot by less than one limb.
proof fn lemma_limb_count(b: int)
    requires
        1 <= b <= 16,
    ensures
        384 <= limb_count(b) * b < 384 + b,
        24 <= limb_count(b) <= 384,
        48 <= packed_len(limb_count(b), b) <= 50,
{
    let c = limb_count(b);
    assert(384 <= c * b < 384 + b && 24 <= c <= 384) by (nonlinear_arith)
        requires
            c == (384 + b - 1) / b,
            1 <= b <= 16,
    ;
}

/// Zero bytes at the end do not change the value.
proof fn lemma_padding(s: Seq<u8>, t: Seq<u8>)
    requires
        s.len() <= t.len(),
        t.take(s.len() as int) == s,
        forall|i: int| s.len() <= i < t.len() ==> #[trigger] t[i] == 0,
    ensures
        le_value(t) == le_value(s),
    decreases t.len(),
{
    if t.len() > 0 {
        if s.len() > 0 {
            assert(t[0] == s[0]) by {
                assert(t.take(s.len() as int)[0] == s[0]);
            }
            assert(t.drop_first().take(s.drop_first().len() as int) =~= s.drop_first()) by {
                assert forall|i: int| 0 <= i < s.len() - 1 implies t[i + 1] == #[trigger] s.drop_first()[i] by {
                    assert(t.take(s.len() as int)[i + 1] == s[i + 1]);
                }
            }
            assert forall|i: int| s.len() - 1 <= i < t.len() - 1 implies #[trigger] t.drop_first()[i] == 0 by {
                assert(t[i + 1] == 0);
            }
            lemma_padding(s.drop_first(), t.drop_first());
        } else {
            assert(t[0] == 0);
            assert forall|i: int| 0 <= i < t.len() - 1 implies #[trigger] t.drop_first()[i] == 0 by {
                assert(t[i + 1] == 0);
            }
            assert(t.drop_first().take(0) =~= s);
            lemma_padding(s, t.drop_first());
        }
    }
}

/// Whole bytes moved from a bit accumulator, at most 48 of them.
pub open spec fn drain(acc: u64, bits: int, out: Seq<u8>) -> (u64, int, Seq<u8>)
    decreases bits,
{
    if bits >= 8 && out.len() < 48 {
        drain(acc >> 8, bits - 8, out.push((acc & 0xff) as u8))
    } else {
        (acc, bits, out)
    }
}

/// The accumulator and the bytes out after `n` limbs, each or-ed in `b` bits
/// above the one before.
pub open spec fn spill(limbs: Seq<i32>, b: int, n: nat) -> (u64, int, Seq<u8>)
    decreases n,
{
    if n == 0 {
        (0, 0, Seq::empty())
    } else {
        let (acc, bits, out) = spill(limbs, b, (n - 1) as nat);
        drain(acc | ((limbs[n - 1] as u64) << (bits as u64)), bits + b, out)
    }
}

/// The chunk that limbs spell, whatever they hold.
pub open spec fn chunk_of(limbs: Seq<i32>, b: int) -> Seq<u8> {
    let out = spill(limbs, b, limbs.len()).2;
    Seq::new(
        48,
        |i: int|
            if 47 - i < out.len() {
                out[47 - i]
            } else {
                0
            },
    )
}

proof fn lemma_drain(acc: u64, bits: int, out: Seq<u8>)
    requires
        bits >= 0,
        out.len() <= 48,
    ensures
        ({
            let d = drain(acc, bits, out);
            &&& d.2.len() <= 48
            &&& d.1 >= 0
            &&& d.1 + 8 * d.2.len() == bits + 8 * out.len()
            &&& d.2.len() < 48 ==> d.1 < 8
        }),
    decreases bits,
{
    if bits >= 8 && out.len() < 48 {
        lemma_drain(acc >> 8, bits - 8, out.push((acc & 0xff) as u8));
    }
}

proof fn lemma_spill(limbs: Seq<i32>, b: int, n: nat)
    requires
        b >= 0,
    ensures
        ({
            let d = spill(limbs, b, n);
            &&& d.2.len() <= 48
            &&& d.1 >= 0
            &&& d.1 + 8 * d.2.len() == b * n
            &&& d.2.len() < 48 ==> d.1 < 8
        }),
    decreases n,
{
    if n > 0 {
        lemma_spill(limbs, b, (n - 1) as nat);
        let (acc, bits, out) = spill(limbs, b, (n - 1) as nat);
        lemma_drain(acc | ((limbs[n - 1] as u64) << (bits as u64)), bits + b, out);
        assert(b * (n - 1) + b == b * n) by (nonlinear_arith);
    } else {
        assert(b * 0 == 0);
    }
}

/// Once the chunk is full, further limbs change nothing.
proof fn lemma_spill_full(limbs: Seq<i32>, b: int, n: nat)
    requires
        1 <= b <= 16,
        n >= limb_count(b),
    ensures
        spill(limbs, b, n).2 == spill(limbs, b, limb_count(b) as nat).2,
    decreases n,
{
    if n > limb_count(b) {
        let m = (n - 1) as nat;
        lemma_spill_full(limbs, b, m);
        lemma_spill(limbs, b, m);
        lemma_limb_count(b);
        assert(b * m >= limb_count(b) * b) by (nonlinear_arith)
            requires
                m >= limb_count(b),
                b >= 0,
        ;
        assert(spill(limbs, b, m).2.len() == 48);
    }
}

/// Puts limbs back together. Limbs above the chunk's bits are dropped.
pub fn limbs_to_chunk(limbs: &[i32], base_bits: u32) -> (r: [u8; IBLT_CHUNK_BYTES])
    requires
        1 <= base_bits <= 16,
    ensures
        r@ == chunk_of(limbs@, base_bits as int),
{
    let ghost b = base_bits as int;
    let mut low: Vec<u8> = Vec::with_capacity(48);
    let mut acc: u64 = 0;
    let mut acc_bits: u32 = 0;
    proof {
        lemma_limb_count(b);
    }
    let count: usize = (IBLT_CHUNK_BITS + base_bits as usize - 1) / base_bits as usize;
    let used: usize = if limbs.len() < count {
        limbs.len()
    } else {
        count
    };
    for n in 0..used
        invariant
            1 <= base_bits <= 16,
            b == base_bits,
            used <= limbs.len(),
            used <= limb_count(b),
            384 <= limb_count(b) * b < 384 + b,
            (acc, acc_bits as int, low@) == spill(limbs@, b, n as nat),
    {
        proof {
            lemma_spill(limbs@, b, n as nat);
            assert(b * n <= limb_count(b) * b) by (nonlinear_arith)
                requires
                    n <= limb_count(b),
                    b >= 0,
            ;
        }
        acc = acc | ((limbs[n] as u64) << (acc_bits as u64));
        acc_bits = acc_bits + base_bits;
        while acc_bits >= 8 && low.len() < 48
            invariant
                low.len() <= 48,
                drain(acc, acc_bits as int, low@) == spill(limbs@, b, (n + 1) as nat),
            decreases acc_bits,
        {
            low.push((acc & 0xff) as u8);
            acc = acc >> 8;
            acc_bits = acc_bits - 8;
        }
    }
    let mut out: [u8; IBLT_CHUNK_BYTES] = [0u8; IBLT_CHUNK_BYTES];
    proof {
        lemma_spill(limbs@, b, limbs.len() as nat);
        if limbs.len() > count {
            lemma_spill_full(limbs@, b, limbs.len() as nat);
        }
    }
    for i in 0..48usize
        invariant
            low@ == spill(limbs@, b, limbs.len() as nat).2,
            low.len() <= 48,
            b == base_bits,
            forall|k: int| 0 <= k < i ==> #[trigger] out[k] == chunk_of(limbs@, b)[k],
            forall|k: int| i <= k < 48 ==> #[trigger] out[k] == 0,
    {
        if 47 - i < low.len() {
            out[i] = low[47 - i];
        }
    }
    assert(out@ =~= chunk_of(limbs@, b));
    out
}

proof fn lemma_or_is_sum(acc: u64, x: u64, s: u64)
    requires
        s < 24,
        acc < pow2(s as nat),
        x < 65_536,
    ensures
        acc | (x << s) == acc + x * pow2(s as nat),
{
    lemma_pow2_monotonic(s as nat, 24);
    lemma2_to64();
    vstd::bits::lemma_u64_shl_is_mul(1, s);
    let p = pow2(s as nat);
    assert(x * p <= 65_535 * 16_777_216) by (nonlinear_arith)
        requires
            x <= 65_535,
            p <= 16_777_216,
    ;
    vstd::bits::lemma_u64_shl_is_mul(x, s);
    assert(acc < (1u64 << s) && s < 24 && x < 65_536 ==> (acc | (x << s)) == acc + (x << s))
        by (bit_vector);
}

/// What the accumulator and the bytes stand for together.
spec fn state_value(st: (u64, int, Seq<u8>)) -> int {
    le_value(st.2) + pow2(8 * st.2.len()) * st.0
}

proof fn lemma_drain_value(acc: u64, bits: int, out: Seq<u8>)
    requires
        0 <= bits <= 40,
        acc < pow2(bits as nat),
        out.len() <= 48,
    ensures
        state_value(drain(acc, bits, out)) == state_value((acc, bits, out)),
        drain(acc, bits, out).0 < pow2(drain(acc, bits, out).1 as nat),
    decreases bits,
{
    if bits >= 8 && out.len() < 48 {
        let x = (acc & 0xff) as u8;
        assert((acc & 0xff) == acc % 256 && (acc >> 8) == acc / 256) by (bit_vector);
        lemma_pow2_adds((bits - 8) as nat, 8);
        lemma2_to64();
        let r = pow2((bits - 8) as nat) as int;
        let h = (acc / 256) as int;
        assert(h < r) by (nonlinear_arith)
            requires
                acc < r * 256,
                256 * h <= acc,
        ;
        lemma_drain_value(acc >> 8, bits - 8, out.push(x));
        lemma_le_push(out, x);
        lemma_pow2_adds(8 * out.len(), 8);
        let (p, a) = (pow2(8 * out.len()) as int, acc as int);
        assert(p * a == p * (x as int) + (p * 256) * h) by (nonlinear_arith)
            requires
                a == x + 256 * h,
        ;
    }
}

proof fn lemma_spill_value(limbs: Seq<i32>, us: Seq<nat>, b: nat, n: nat)
    requires
        1 <= b <= 16,
        n <= limbs.len(),
        limbs.len() <= limb_count(b as int),
        us.len() == limbs.len(),
        digits_fit(us, b),
        forall|j: int| 0 <= j < us.len() ==> #[trigger] us[j] == limbs[j],
    ensures
        state_value(spill(limbs, b as int, n)) == stream(us.take(n as int), b),
        spill(limbs, b as int, n).0 < pow2(spill(limbs, b as int, n).1 as nat),
    decreases n,
{
    lemma2_to64();
    if n == 0 {
        assert(us.take(0) =~= Seq::<nat>::empty());
        assert(pow2(0) == 1);
        assert(pow2(0) * 0 == 0);
    } else {
        let m = (n - 1) as nat;
        lemma_spill_value(limbs, us, b, m);
        lemma_spill(limbs, b as int, m);
        lemma_limb_count(b as int);
        let (acc, bits, out) = spill(limbs, b as int, m);
        assert(b * m <= limb_count(b as int) * b - b) by (nonlinear_arith)
            requires
                m + 1 <= limb_count(b as int),
                b >= 0,
        ;
        assert(us[m as int] < pow2(b));
        lemma_pow2_monotonic(b, 16);
        let x = limbs[m as int] as u64;
        lemma_or_is_sum(acc, x, bits as u64);
        let acc2 = acc | (x << (bits as u64));
        lemma_pow2_adds(b, bits as nat);
        let (y, z, xi) = (pow2(b) as int, pow2(bits as nat) as int, x as int);
        assert(xi * z <= y * z - z) by (nonlinear_arith)
            requires
                xi <= y - 1,
                z > 0,
        ;
        lemma_pow2_pos(bits as nat);
        lemma_drain_value(acc2, bits + b, out);
        let full = us.take(n as int);
        assert(full.drop_last() =~= us.take(m as int));
        lemma_pow2_adds(8 * out.len(), bits as nat);
        assert(b * m == 8 * out.len() + bits);
        let (p, a) = (pow2(8 * out.len()) as int, acc as int);
        assert(p * (a + xi * z) == p * a + (p * z) * xi) by (nonlinear_arith);
    }
}

/// Limbs of a chunk put back together give the chunk.
pub proof fn law_limbs_round_trip(chunk: Seq<u8>, b: u32, limbs: Seq<i32>)
    requires
        1 <= b <= 16,
        chunk.len() == 48,
        limbs.len() == limb_count(b as int),
        forall|j: int|
            0 <= j < limbs.len() ==> #[trigger] limbs[j] == limbs_of(chunk, b as int)[j],
    ensures
        chunk_of(limbs, b as int) == chunk,
{
    let (w, count) = (b as nat, limb_count(b as int) as nat);
    let rev = chunk.reverse();
    let v = le_value(rev);
    let us = Seq::new(count, |j: int| unpacked_at(rev, w, j as nat));
    lemma_pow2_pos(w);
    lemma_limb_count(b as int);
    assert(digits_fit(us, w));
    lemma_le_value(rev);
    lemma_byte_span(48);
    lemma_pow2_monotonic(384, w * count);
    assert(w * count == count * w) by (nonlinear_arith);
    lemma_digits_stream(rev, w, count);
    assert(v / pow2(w * count) == 0) by {
        vstd::arithmetic::div_mod::lemma_basic_div(v as int, pow2(w * count) as int);
    }
    lemma_spill_value(limbs, us, w, count);
    lemma_spill(limbs, b as int, count);
    assert(us.take(count as int) =~= us);
    let st = spill(limbs, b as int, count);
    let out = st.2;
    assert(b * count == count * b) by (nonlinear_arith);
    assert(out.len() == 48);
    let p = pow2(384) as int;
    lemma_le_value(out);
    assert(st.0 == 0) by (nonlinear_arith)
        requires
            le_value(out) + p * st.0 == v,
            v < p,
            p > 0,
            le_value(out) >= 0,
            st.0 >= 0,
    ;
    assert(p * 0 == 0);
    assert(out =~= le_bytes(le_value(out), 48));
    assert(rev =~= le_bytes(v, 48));
    assert(out == rev);
    assert(chunk_of(limbs, b as int) =~= chunk) by {
        assert forall|i: int| 0 <= i < 48 implies chunk_of(limbs, b as int)[i] == chunk[i] by {
            assert(rev[47 - i] == chunk[i]);
        }
    }
}

/// In-range limbs that a chunk can hold come back from their chunk.
pub proof fn law_chunk_round_trip(limbs: Seq<i32>, b: u32)
    requires
        1 <= b <= 16,
        limbs.len() == limb_count(b as int),
        forall|j: int| 0 <= j < limbs.len() ==> 0 <= #[trigger] limbs[j] < pow2(b as nat),
        stream(limbs.map_values(|x: i32| x as nat), b as nat) < pow2(384),
    ensures
        limbs_of(chunk_of(limbs, b as int), b as int) == limbs.map_values(|x: i32| x as int),
{
    let (w, count) = (b as nat, limb_count(b as int) as nat);
    let us = limbs.map_values(|x: i32| x as nat);
    lemma_limb_count(b as int);
    assert(digits_fit(us, w));
    lemma_spill_value(limbs, us, w, count);
    lemma_spill(limbs, b as int, count);
    assert(us.take(count as int) =~= us);
    let st = spill(limbs, b as int, count);
    let out = st.2;
    assert(b * count == count * b) by (nonlinear_arith);
    assert(out.len() == 48);
    let p = pow2(384) as int;
    lemma_le_value(out);
    assert(st.0 == 0) by (nonlinear_arith)
        requires
            le_value(out) + p * st.0 < p,
            p > 0,
            le_value(out) >= 0,
            st.0 >= 0,
    ;
    assert(p * 0 == 0);
    let chunk = chunk_of(limbs, b as int);
    assert(chunk.reverse() =~= out);
    assert forall|j: int| 0 <= j < count implies limbs_of(chunk, b as int)[j] == limbs[j] by {
        lemma_stream_digit(us, w, 0, j);
        assert(pow2(w * us.len()) * 0 == 0);
        assert(us[j] == limbs[j]);
    }
    assert(limbs_of(chunk, b as int) =~= limbs.map_values(|x: i32| x as int));
}

/// The digits of a value stream back to it.
proof fn lemma_digits_stream(s: Seq<u8>, b: nat, n: nat)
    ensures
        le_value(s) == stream(Seq::new(n, |j: int| unpacked_at(s, b, j as nat)), b) + pow2(b * n)
            * (le_value(s) / pow2(b * n)),
    decreases n,
{
    let v = le_value(s) as int;
    lemma2_to64();
    if n == 0 {
        assert(b * 0 == 0);
        assert(pow2(0) == 1);
        assert(v / 1 == v);
    } else {
        let m = (n - 1) as nat;
        lemma_digits_stream(s, b, m);
        let us = Seq::new(n, |j: int| unpacked_at(s, b, j as nat));
        assert(us.drop_last() =~= Seq::new(m, |j: int| unpacked_at(s, b, j as nat)));
        assert(b * n == b * m + b) by (nonlinear_arith)
            requires
                n == m + 1,
        ;
        lemma_pow2_adds(b * m, b);
        lemma_pow2_pos(b * m);
        lemma_pow2_pos(b);
        let (p, w) = (pow2(b * m) as int, pow2(b) as int);
        vstd::arithmetic::div_mod::lemma_div_denominator(v, p, w);
        let h = v / p;
        vstd::arithmetic::div_mod::lemma_fundamental_div_mod(h, w);
        assert(p * h == p * (h % w) + (p * w) * (h / w)) by (nonlinear_arith)
            requires
                h == w * (h / w) + h % w,
        ;
    }
}

// ---------------------------------------------------------------
// Tables
// ---------------------------------------------------------------

/// Decimal digits, most significant first.
pub open spec fn decimal_of(n: nat) -> Seq<u8>
    decreases n,
{
    if n < 10 {
        seq![(48 + n) as u8]
    } else {
        decimal_of(n / 10).push((48 + n % 10) as u8)
    }
}

fn decimal(n: usize) -> (r: Vec<u8>)
    ensures
        r@ == decimal_of(n as nat),
    decreases n,
{
    if n < 10 {
        let mut r: Vec<u8> = Vec::new();
        r.push(48 + n as u8);
        assert(r@ =~= decimal_of(n as nat));
        r
    } else {
        let mut r: Vec<u8> = decimal(n / 10);
        r.push(48 + (n % 10) as u8);
        r
    }
}

/// The bucket of a chunk in a level of `cells` buckets: the first eight bytes,
/// big-endian, of the hash of the level in decimal and the chunk.
pub open spec fn index_of(chunk: Seq<u8>, level: nat, cells: int) -> int {
    le_value(sha256_of(decimal_of(level) + chunk).take(8).reverse()) as int % cells
}

/// The bucket of a chunk in a level.
pub fn chunk_index(chunk: &[u8; IBLT_CHUNK_BYTES], level: usize, items_in_level: usize) -> (r: u64)
    requires
        items_in_level > 0,
    ensures
        r == index_of(chunk@, level as nat, items_in_level as int),
        r < items_in_level,
{
    let mut input: Vec<u8> = decimal(level);
    for i in 0..48usize
        invariant
            input@ == decimal_of(level as nat) + chunk@.take(i as int),
    {
        input.push(chunk[i]);
        assert(input@ =~= decimal_of(level as nat) + chunk@.take(i + 1));
    }
    assert(chunk@.take(48) =~= chunk@);
    let hash: [u8; 32] = sha256(&input);
    let mut prefix: Vec<u8> = Vec::with_capacity(8);
    for i in 0..8usize
        invariant
            prefix@ == hash@.take(8).reverse().take(i as int),
    {
        prefix.push(hash[7 - i]);
        assert(prefix@ =~= hash@.take(8).reverse().take(i + 1));
    }
    assert(prefix@ =~= hash@.take(8).reverse());
    assert(prefix@.subrange(0, 8) =~= prefix@);
    read_le(&prefix, 0, 8) % items_in_level as u64
}

pub struct IbltVector {
    pub params: IbltParams,
    /// Per level, per bucket, the limbs.
    pub chunks: [Vec<Vec<i32>>; IBLT_N_LEVELS],
    /// Per level, per bucket, the count.
    pub counters: [Vec<i32>; IBLT_N_LEVELS],
}

#[derive(Debug, PartialEq, Eq, Structural, Clone, Copy)]
pub enum IbltError {
    UnexpectedZeroCounter,
    ParamsMismatch,
}

/// Limbs as integers.
pub open spec fn ints(s: Seq<i32>) -> Seq<int> {
    s.map(|_i: int, x: i32| x as int)
}

/// Integers as limbs.
pub open spec fn words(s: Seq<int>) -> Seq<i32> {
    s.map(|_i: int, x: int| x as i32)
}

/// Entries modulo the tree-hash modulus; a cell goes where the chunk that its
/// limbs spell hashes to.
pub open spec fn shape(p: IbltParams) -> Shape {
    Shape {
        m: Q as int,
        signed: false,
        place: |v: Cell|
            Seq::new(
                4,
                |l: int|
                    index_of(
                        chunk_of(words(v.skip(1)), p.base_bits as int),
                        l as nat,
                        p.cells(l),
                    ),
            ),
    }
}

/// A chunk as an item: one, then its limbs.
pub open spec fn item(chunk: Seq<u8>, p: IbltParams) -> Cell {
    seq![1int] + limbs_of(chunk, p.base_bits as int)
}

/// Entries of a cell.
pub open spec fn width(p: IbltParams) -> nat {
    (1 + p.limbs()) as nat
}

/// Every value is a residue.
pub open spec fn residues(s: Seq<i32>) -> bool {
    forall|k: int| 0 <= k < s.len() ==> 0 <= #[trigger] s[k] < Q
}

impl IbltVector {
    pub open spec fn wf(&self) -> bool {
        &&& self.params.base_bits >= 1
        &&& forall|l: int|
            0 <= l < 4 ==> (#[trigger] self.chunks[l]).len() == self.params.cells(l)
                && self.counters[l].len() == self.params.cells(l) && residues(self.counters[l]@)
        &&& forall|l: int, i: int|
            0 <= l < 4 && 0 <= i < self.params.cells(l) ==> (#[trigger] self.chunks[l][i]).len()
                == self.params.limbs() && residues(self.chunks[l][i]@)
    }

    pub open spec fn cell(&self, l: int, i: int) -> Cell {
        seq![self.counters[l][i] as int] + ints(self.chunks[l][i]@)
    }

    /// The table as cells.
    pub open spec fn grid(&self) -> Grid {
        Seq::new(
            4,
            |l: int| Seq::new(self.params.cells(l) as nat, |i: int| self.cell(l, i)),
        )
    }

    /// The table lists exactly `list`.
    pub open spec fn lists(&self, list: Seq<Seq<u8>>) -> bool {
        holds(
            shape(self.params),
            self.grid(),
            width(self.params),
            list.map(|_k: int, c: Seq<u8>| item(c, self.params)),
        )
    }

    /// Changes one bucket: adds `limbs` and one, or takes them off.
    #[verifier::spinoff_prover]
    #[verifier::rlimit(50)]
    fn shift_bucket(&mut self, level: usize, idx: usize, limbs: &Vec<i32>, up: bool)
        requires
            old(self).wf(),
            level < 4,
            idx < old(self).params.cells(level as int),
            limbs.len() == old(self).params.limbs(),
            residues(limbs@),
        ensures
            final(self).wf(),
            final(self).params == old(self).params,
            final(self).grid() == old(self).grid().update(
                level as int,
                old(self).grid()[level as int].update(
                    idx as int,
                    shifted(old(self).cell(level as int, idx as int), limbs@, up),
                ),
            ),
    {
        let ghost before = *self;
        let ghost sh = shape(self.params);
        assert(self.chunks[level as int].len() == self.params.cells(level as int));
        assert(residues(self.counters[level as int]@));
        assert(residues(self.chunks[level as int][idx as int]@));
        let count: i32 = self.counters[level][idx];
        let n: usize = limbs.len();
        let mut bucket: Vec<i32> = Vec::with_capacity(n);
        for j in 0..n
            invariant
                self.wf(),
                *self == before,
                level < 4,
                idx < self.params.cells(level as int),
                n == limbs.len(),
                n == self.params.limbs(),
                residues(limbs@),
                bucket.len() == j,
                forall|k: int|
                    0 <= k < j ==> #[trigger] bucket[k] == shifted_entry(
                        before.chunks[level as int][idx as int][k] as int,
                        limbs[k] as int,
                        up,
                    ) && 0 <= bucket[k] < Q,
        {
            assert(self.chunks[level as int][idx as int].len() == n);
            assert(residues(self.chunks[level as int][idx as int]@));
            assert(0 <= self.chunks[level as int][idx as int]@[j as int] < Q);
            assert(0 <= limbs@[j as int] < Q);
            let x: i32 = self.chunks[level][idx][j];
            bucket.push(shift_mod(x, limbs[j], up));
        }
        assert(0 <= self.counters[level as int]@[idx as int] < Q);
        let new_count: i32 = shift_mod(count, 1, up);
        let ghost want = shifted(before.cell(level as int, idx as int), limbs@, up);
        assert(seq![new_count as int] + ints(bucket@) =~= want);
        self.counters[level].set(idx, new_count);
        self.chunks[level].set(idx, bucket);
        proof {
            assert forall|l: int| 0 <= l < 4 implies (#[trigger] self.chunks[l]).len()
                == self.params.cells(l) && self.counters[l].len() == self.params.cells(l)
                && residues(self.counters[l]@) by {
                assert(before.chunks[l].len() == before.params.cells(l));
                assert(residues(before.counters[l]@));
                assert forall|k: int| 0 <= k < self.counters[l].len() implies 0
                    <= #[trigger] self.counters[l]@[k] < Q by {
                    if l != level || k != idx {
                        assert(self.counters[l]@[k] == before.counters[l]@[k]);
                    }
                }
            }
            assert forall|l: int, i: int| 0 <= l < 4 && 0 <= i < self.params.cells(l) implies (
            #[trigger] self.chunks[l][i]).len() == self.params.limbs() && residues(
                self.chunks[l][i]@,
            ) by {
                assert(before.chunks[l].len() == before.params.cells(l));
                if l == level && i == idx {
                    assert(self.chunks[l][i]@ == bucket@);
                } else {
                    assert(self.chunks[l][i] == before.chunks[l][i]);
                }
            }
            let (g, h) = (self.grid(), before.grid());
            assert forall|l: int, i: int| 0 <= l < 4 && 0 <= i < self.params.cells(l) implies
                #[trigger] g[l][i] == (if l == level && i == idx {
                want
            } else {
                h[l][i]
            }) by {
                assert(before.chunks[l].len() == before.params.cells(l));
                if l == level && i == idx {
                    assert(self.chunks[l][i]@ == bucket@);
                } else {
                    assert(self.chunks[l][i] == before.chunks[l][i]);
                    assert(self.counters[l][i] == before.counters[l][i]);
                }
            }
            let target = h.update(
                level as int,
                h[level as int].update(idx as int, want),
            );
            assert forall|l: int| 0 <= l < 4 implies g[l] =~= target[l] by {}
            assert(g =~= target);
        }
    }
}

/// `a + b` or `a - b`, as a residue.
pub open spec fn shifted_entry(a: int, b: int, up: bool) -> int {
    if up {
        (a + b) % (Q as int)
    } else {
        (a - b) % (Q as int)
    }
}

/// A cell with one item's entries added or taken off.
pub open spec fn shifted(cell: Cell, limbs: Seq<i32>, up: bool) -> Cell {
    Seq::new(
        (1 + limbs.len()) as nat,
        |c: int|
            shifted_entry(
                cell[c],
                if c == 0 {
                    1
                } else {
                    limbs[c - 1] as int
                },
                up,
            ),
    )
}

fn shift_mod(a: i32, b: i32, up: bool) -> (r: i32)
    requires
        0 <= a < Q,
        0 <= b < Q,
    ensures
        r == shifted_entry(a as int, b as int, up),
        0 <= r < Q,
{
    if up {
        let s: i32 = a + b;
        if s >= Q {
            s - Q
        } else {
            s
        }
    } else {
        let s: i32 = a - b;
        if s < 0 {
            s + Q
        } else {
            s
        }
    }
}

fn zeros(n: usize) -> (r: Vec<i32>)
    ensures
        r.len() == n,
        forall|k: int| 0 <= k < n ==> #[trigger] r[k] == 0,
{
    let mut out: Vec<i32> = Vec::with_capacity(n);
    for i in 0..n
        invariant
            out.len() == i,
            forall|k: int| 0 <= k < i ==> #[trigger] out[k] == 0,
    {
        out.push(0);
    }
    out
}

impl Clone for IbltVector {
    fn clone(&self) -> (r: Self)
        ensures
            r.params == self.params,
            forall|l: int|
                0 <= l < 4 ==> (#[trigger] r.counters[l])@ == self.counters[l]@,
            forall|l: int|
                0 <= l < 4 ==> (#[trigger] r.chunks[l]).len()
                    == self.chunks[l].len(),
            forall|l: int, i: int|
                0 <= l < 4 && 0 <= i < self.chunks[l].len() ==> (
                #[trigger] r.chunks[l][i])@ == self.chunks[l][i]@,
    {
        let mut chunks: Vec<Vec<Vec<i32>>> = Vec::with_capacity(4);
        for l in 0..4usize
            invariant
                chunks.len() == l,
                forall|k: int|
                    0 <= k < l ==> (#[trigger] chunks[k]).len() == self.chunks[k].len(),
                forall|k: int, i: int|
                    0 <= k < l && 0 <= i < self.chunks[k].len() ==> (#[trigger] chunks[k][i])@
                        == self.chunks[k][i]@,
        {
            let size: usize = self.chunks[l].len();
            let mut level: Vec<Vec<i32>> = Vec::with_capacity(size);
            for i in 0..size
                invariant
                    l < 4,
                    size == self.chunks[l as int].len(),
                    level.len() == i,
                    forall|k: int|
                        0 <= k < i ==> (#[trigger] level[k])@ == self.chunks[l as int][k]@,
            {
                level.push(copy_words(&self.chunks[l][i]));
            }
            chunks.push(level);
        }
        let mut counters: Vec<Vec<i32>> = Vec::with_capacity(4);
        for l in 0..4usize
            invariant
                counters.len() == l,
                forall|k: int| 0 <= k < l ==> (#[trigger] counters[k])@ == self.counters[k]@,
        {
            counters.push(copy_words(&self.counters[l]));
        }
        IbltVector { params: self.params, chunks: four(chunks), counters: four(counters) }
    }
}

fn four<A>(v: Vec<A>) -> (r: [A; IBLT_N_LEVELS])
    requires
        v.len() == 4,
    ensures
        r@ == v@,
{
    let mut v: Vec<A> = v;
    let ghost all = v@;
    let d: A = v.pop().unwrap();
    let c: A = v.pop().unwrap();
    let b: A = v.pop().unwrap();
    let a: A = v.pop().unwrap();
    let r: [A; IBLT_N_LEVELS] = [a, b, c, d];
    assert(r@ =~= all);
    r
}

fn copy_words(s: &Vec<i32>) -> (r: Vec<i32>)
    ensures
        r@ == s@,
{
    let mut out: Vec<i32> = Vec::with_capacity(s.len());
    for i in 0..s.len()
        invariant
            out@ == s@.take(i as int),
    {
        out.push(s[i]);
        assert(out@ =~= s@.take(i + 1));
    }
    assert(s@.take(s.len() as int) =~= s@);
    out
}

/// The cells of a well-formed table have one entry per limb and one more.
proof fn lemma_regular(t: IbltVector)
    requires
        t.wf(),
    ensures
        regular(t.grid(), width(t.params)),
        t.grid().len() == 4,
        forall|l: int| 0 <= l < 4 ==> #[trigger] t.grid()[l].len() == t.params.cells(l),
{
    assert forall|l: int, i: int|
        0 <= l < t.grid().len() && 0 <= i < t.grid()[l].len() implies (#[trigger] t.grid()[l][i]).len()
        == width(t.params) by {
        assert(t.chunks[l][i].len() == t.params.limbs());
    }
    assert forall|l: int| 0 <= l < 4 implies #[trigger] t.grid()[l].len() == t.params.cells(l) by {
        assert(t.chunks[l].len() == t.params.cells(l));
    }
}

/// A chunk is an item, and goes where it hashes to.
proof fn lemma_item(t: IbltVector, chunk: Seq<u8>)
    requires
        t.wf(),
        t.params.base_bits <= 15,
        t.params.message_slots >= 3,
        chunk.len() == 48,
    ensures
        is_item(shape(t.params), t.grid(), width(t.params), item(chunk, t.params)),
        forall|l: int|
            0 <= l < 4 ==> #[trigger] (shape(t.params).place)(item(chunk, t.params))[l] == index_of(
                chunk,
                l as nat,
                t.params.cells(l),
            ),
{
    let (p, b) = (t.params, t.params.base_bits as int);
    let x = item(chunk, p);
    let s = shape(p);
    lemma_limb_count(b);
    lemma_pow2_pos(b as nat);
    lemma_pow2_monotonic(b as nat, 15);
    lemma2_to64();
    let limbs = limbs_of(chunk, b);
    assert forall|j: int| 0 <= j < limbs.len() implies 0 <= #[trigger] limbs[j] < Q by {
        assert(unpacked_at(chunk.reverse(), b as nat, j as nat) < pow2(b as nat));
    }
    assert(x.skip(1) =~= limbs);
    let w = words(x.skip(1));
    assert forall|j: int| 0 <= j < w.len() implies #[trigger] w[j] == limbs[j] by {
        assert(0 <= limbs[j] < Q);
    }
    law_limbs_round_trip(chunk, p.base_bits, w);
    lemma_regular(t);
    lemma_cells_positive(p);
    assert forall|c: int| 0 <= c < width(p) implies kept(s, #[trigger] x[c]) == x[c] by {
        if c > 0 {
            assert(0 <= limbs[c - 1] < Q);
        }
        vstd::arithmetic::div_mod::lemma_small_mod(x[c] as nat, Q as nat);
    }
    assert forall|l: int| 0 <= l < t.grid().len() implies 0 <= #[trigger] (s.place)(x)[l]
        < t.grid()[l].len() by {
        assert(t.grid()[l].len() == p.cells(l));
        assert(p.cells(l) > 0);
    }
}

proof fn lemma_cells_positive(p: IbltParams)
    requires
        p.message_slots >= 3,
    ensures
        forall|l: int| 0 <= l < 4 ==> #[trigger] p.cells(l) > 0,
{
    reveal_with_fuel(power, 4);
    let s = p.message_slots as int;
    assert(p.cells(0) == (s * 1) / 1);
    assert(p.cells(1) == (s * 3) / 4);
    assert(p.cells(2) == (s * 9) / 16);
    assert(p.cells(3) == (s * 27) / 64);
}

impl IbltVector {
    /// An empty table.
    pub fn new(params: IbltParams) -> (r: Self)
        requires
            params.base_bits >= 1,
        ensures
            r.wf(),
            r.params == params,
            is_clear(r.grid()),
            r.lists(Seq::empty()),
    {
        let limbs: usize = params.limbs_per_chunk();
        let mut chunks: Vec<Vec<Vec<i32>>> = Vec::with_capacity(4);
        let mut counters: Vec<Vec<i32>> = Vec::with_capacity(4);
        for l in 0..4usize
            invariant
                limbs == params.limbs(),
                chunks.len() == l,
                counters.len() == l,
                forall|k: int| 0 <= k < l ==> (#[trigger] chunks[k]).len() == params.cells(k),
                forall|k: int| 0 <= k < l ==> (#[trigger] counters[k]).len() == params.cells(k),
                forall|k: int, i: int|
                    0 <= k < l && 0 <= i < params.cells(k) ==> (#[trigger] chunks[k][i]).len()
                        == limbs,
                forall|k: int, i: int, j: int|
                    0 <= k < l && 0 <= i < params.cells(k) && 0 <= j < limbs
                        ==> #[trigger] chunks[k][i][j] == 0,
                forall|k: int, i: int|
                    0 <= k < l && 0 <= i < params.cells(k) ==> #[trigger] counters[k][i] == 0,
        {
            let size: usize = params.level_size(l);
            let mut level: Vec<Vec<i32>> = Vec::with_capacity(size);
            for i in 0..size
                invariant
                    level.len() == i,
                    forall|k: int| 0 <= k < i ==> (#[trigger] level[k]).len() == limbs,
                    forall|k: int, j: int|
                        0 <= k < i && 0 <= j < limbs ==> #[trigger] level[k][j] == 0,
            {
                level.push(zeros(limbs));
            }
            let count: Vec<i32> = zeros(size);
            assert(count.len() == params.cells(l as int));
            chunks.push(level);
            counters.push(count);
        }
        let r = IbltVector { params, chunks: four(chunks), counters: four(counters) };
        proof {
            assert forall|l: int| 0 <= l < 4 implies (#[trigger] r.chunks[l]).len()
                == r.params.cells(l) && r.counters[l].len() == r.params.cells(l) && residues(
                r.counters[l]@,
            ) by {
                assert(chunks[l].len() == params.cells(l));
                assert(counters[l].len() == params.cells(l));
                assert forall|k: int| 0 <= k < r.counters[l].len() implies 0
                    <= #[trigger] r.counters[l]@[k] < Q by {
                    assert(counters[l][k] == 0);
                }
            }
            assert forall|l: int, i: int| 0 <= l < 4 && 0 <= i < r.params.cells(l) implies (
            #[trigger] r.chunks[l][i]).len() == r.params.limbs() && residues(r.chunks[l][i]@) by {
                assert forall|k: int| 0 <= k < r.chunks[l][i].len() implies 0
                    <= #[trigger] r.chunks[l][i]@[k] < Q by {
                    assert(r.chunks[l][i][k] == 0);
                }
            }
            lemma_regular(r);
            let g = r.grid();
            assert forall|l: int, i: int, c: int|
                0 <= l < g.len() && 0 <= i < g[l].len() && 0 <= c < g[l][i].len() implies
                #[trigger] g[l][i][c] == 0 by {
                assert(g[l].len() == r.params.cells(l));
                assert(r.counters[l][i] == 0);
                if c > 0 {
                    assert(r.chunks[l][i][c - 1] == 0);
                }
            }
            peel::lemma_empty(shape(params), g, width(params));
            assert(Seq::<Seq<u8>>::empty().map(|_k: int, c: Seq<u8>| item(c, params)) =~= Seq::<
                Cell,
            >::empty());
        }
        r
    }

    /// Adds a chunk.
    pub fn insert_chunk(&mut self, chunk: [u8; IBLT_CHUNK_BYTES])
        requires
            old(self).wf(),
            old(self).params.base_bits <= 15,
            old(self).params.message_slots >= 3,
        ensures
            final(self).wf(),
            final(self).params == old(self).params,
            peel::is_put(
                shape(old(self).params),
                old(self).grid(),
                width(old(self).params),
                item(chunk@, old(self).params),
                final(self).grid(),
            ),
            forall|list: Seq<Seq<u8>>| #[trigger]
                old(self).lists(list) ==> final(self).lists(list.push(chunk@)),
    {
        let ghost before = *self;
        let ghost p = self.params;
        let ghost s = shape(p);
        let ghost x = item(chunk@, p);
        let ghost g = self.grid();
        let limbs: Vec<i32> = chunk_to_limbs(&chunk, self.params.base_bits);
        proof {
            lemma_item(*self, chunk@);
            lemma_cells_positive(p);
            lemma_pow2_monotonic(p.base_bits as nat, 15);
            lemma2_to64();
            assert(residues(limbs@));
        }
        for level in 0..4usize
            invariant
                self.wf(),
                self.params == p,
                p == before.params,
                s == shape(p),
                x == item(chunk@, p),
                g == before.grid(),
                p.message_slots >= 3,
                limbs.len() == p.limbs(),
                residues(limbs@),
                forall|j: int|
                    0 <= j < limbs.len() ==> #[trigger] limbs[j] == limbs_of(
                        chunk@,
                        p.base_bits as int,
                    )[j],
                forall|l: int| 0 <= l < 4 ==> #[trigger] p.cells(l) > 0,
                forall|l: int|
                    0 <= l < 4 ==> #[trigger] (s.place)(x)[l] == index_of(
                        chunk@,
                        l as nat,
                        p.cells(l),
                    ),
                self.grid().len() == 4,
                forall|l: int| level <= l < 4 ==> #[trigger] self.grid()[l] == g[l],
                forall|l: int|
                    0 <= l < level ==> #[trigger] self.grid()[l] == g[l].update(
                        (s.place)(x)[l],
                        shifted(g[l][(s.place)(x)[l]], limbs@, true),
                    ),
        {
            assert(self.chunks[level as int].len() == p.cells(level as int));
            assert(p.cells(level as int) > 0);
            let size: usize = self.chunks[level].len();
            let idx: usize = chunk_index(&chunk, level, size) as usize;
            assert((s.place)(x)[level as int] == idx);
            assert(self.grid()[level as int] == g[level as int]);
            assert(self.grid()[level as int][idx as int] == self.cell(level as int, idx as int));
            self.shift_bucket(level, idx, &limbs, true);
        }
        proof {
            lemma_regular(*self);
            lemma_regular(before);
            let t = self.grid();
            assert forall|l: int| 0 <= l < g.len() implies (#[trigger] t[l]).len() == g[l].len() by {
                assert(t[l].len() == p.cells(l) && g[l].len() == p.cells(l));
            }
            assert forall|l: int, i: int, c: int|
                0 <= l < g.len() && 0 <= i < g[l].len() && 0 <= c < width(p) implies
                #[trigger] t[l][i][c] == (if (s.place)(x)[l] == i {
                kept(s, g[l][i][c] + x[c])
            } else {
                g[l][i][c]
            }) by {
                assert(t[l] == g[l].update(
                    (s.place)(x)[l],
                    shifted(g[l][(s.place)(x)[l]], limbs@, true),
                ));
                assert(g[l].len() == p.cells(l));
                if c > 0 {
                    assert(limbs[c - 1] == limbs_of(chunk@, p.base_bits as int)[c - 1]);
                }
            }
            assert(peel::is_put(s, g, width(p), x, t));
            assert forall|list: Seq<Seq<u8>>| #[trigger] before.lists(list) implies self.lists(
                list.push(chunk@),
            ) by {
                let items = list.map(|_k: int, c: Seq<u8>| item(c, p));
                peel::lemma_put_in(s, g, width(p), items, x, t);
                assert(list.push(chunk@).map(|_k: int, c: Seq<u8>| item(c, p)) =~= items.push(x));
            }
        }
    }

    /// Adds another table entry by entry; the sum lists the chunks of both.
    pub fn add_assign(&mut self, other: &Self) -> (r: Result<(), IbltError>)
        requires
            old(self).wf(),
            other.wf(),
        ensures
            final(self).wf(),
            final(self).params == old(self).params,
            old(self).params != other.params <==> r == Err::<(), _>(IbltError::ParamsMismatch),
            r is Err ==> *final(self) == *old(self) && r == Err::<(), _>(IbltError::ParamsMismatch),
            r is Ok ==> peel::is_union(
                shape(other.params),
                old(self).grid(),
                other.grid(),
                width(other.params),
                final(self).grid(),
            ),
            r is Ok ==> forall|a: Seq<Seq<u8>>, b: Seq<Seq<u8>>| #[trigger]
                old(self).lists(a) && #[trigger] other.lists(b) ==> final(self).lists(a + b),
    {
        if self.params.message_slots != other.params.message_slots || self.params.base_bits
            != other.params.base_bits {
            return Err(IbltError::ParamsMismatch);
        }
        let ghost before = *self;
        let ghost p = self.params;
        let mut chunks: Vec<Vec<Vec<i32>>> = Vec::with_capacity(4);
        let mut counters: Vec<Vec<i32>> = Vec::with_capacity(4);
        for l in 0..4usize
            invariant
                self.wf(),
                other.wf(),
                *self == before,
                p == self.params,
                p == other.params,
                chunks.len() == l,
                counters.len() == l,
                forall|k: int| 0 <= k < l ==> (#[trigger] chunks[k]).len() == p.cells(k),
                forall|k: int|
                    0 <= k < l ==> (#[trigger] counters[k])@ == sum_words(
                        self.counters[k]@,
                        other.counters[k]@,
                    ) && counters[k].len() == p.cells(k) && residues(counters[k]@),
                forall|k: int, i: int|
                    0 <= k < l && 0 <= i < p.cells(k) ==> (#[trigger] chunks[k][i])@ == sum_words(
                        self.chunks[k][i]@,
                        other.chunks[k][i]@,
                    ) && chunks[k][i].len() == p.limbs() && residues(chunks[k][i]@),
        {
            assert(self.chunks[l as int].len() == p.cells(l as int));
            assert(other.chunks[l as int].len() == p.cells(l as int));
            let size: usize = self.chunks[l].len();
            let mut level: Vec<Vec<i32>> = Vec::with_capacity(size);
            for i in 0..size
                invariant
                    l < 4,
                    self.wf(),
                    other.wf(),
                    p == self.params,
                    p == other.params,
                    size == p.cells(l as int),
                    self.chunks[l as int].len() == size,
                    other.chunks[l as int].len() == size,
                    level.len() == i,
                    forall|k: int|
                        0 <= k < i ==> (#[trigger] level[k])@ == sum_words(
                            self.chunks[l as int][k]@,
                            other.chunks[l as int][k]@,
                        ) && level[k].len() == p.limbs() && residues(level[k]@),
            {
                assert(self.chunks[l as int][i as int].len() == p.limbs() && residues(
                    self.chunks[l as int][i as int]@,
                ));
                assert(other.chunks[l as int][i as int].len() == p.limbs() && residues(
                    other.chunks[l as int][i as int]@,
                ));
                level.push(add_words(&self.chunks[l][i], &other.chunks[l][i]));
            }
            let count: Vec<i32> = add_words(&self.counters[l], &other.counters[l]);
            assert(count.len() == p.cells(l as int));
            chunks.push(level);
            counters.push(count);
        }
        self.chunks = four(chunks);
        self.counters = four(counters);
        proof {
            assert forall|l: int| 0 <= l < 4 implies (#[trigger] self.chunks[l]).len()
                == self.params.cells(l) && self.counters[l].len() == self.params.cells(l)
                && residues(self.counters[l]@) by {
                assert(self.counters[l]@ == sum_words(before.counters[l]@, other.counters[l]@));
            }
            let (s, w) = (shape(p), width(p));
            lemma_regular(*self);
            lemma_regular(before);
            lemma_regular(*other);
            let (g, h, t) = (before.grid(), other.grid(), self.grid());
            assert forall|l: int| 0 <= l < g.len() implies (#[trigger] t[l]).len() == g[l].len() by {
                assert(t[l].len() == p.cells(l) && g[l].len() == p.cells(l));
            }
            assert forall|l: int| 0 <= l < g.len() implies (#[trigger] h[l]).len() == g[l].len() by {
                assert(h[l].len() == p.cells(l) && g[l].len() == p.cells(l));
            }
            assert forall|l: int, i: int, c: int|
                0 <= l < g.len() && 0 <= i < g[l].len() && 0 <= c < w implies #[trigger] t[l][i][c]
                == kept(s, g[l][i][c] + h[l][i][c]) by {
                assert(g[l].len() == p.cells(l));
                assert(self.chunks[l].len() == p.cells(l));
                assert(self.counters[l]@ == sum_words(before.counters[l]@, other.counters[l]@));
                assert(self.chunks[l][i]@ == sum_words(before.chunks[l][i]@, other.chunks[l][i]@));
            }
            assert(peel::is_union(s, g, h, w, t));
            assert forall|a: Seq<Seq<u8>>, b: Seq<Seq<u8>>| #[trigger] before.lists(a)
                && #[trigger] other.lists(b) implies self.lists(a + b) by {
                let f = |_k: int, c: Seq<u8>| item(c, p);
                peel::lemma_union(s, g, h, w, a.map(f), b.map(f), t);
                assert((a + b).map(f) =~= a.map(f) + b.map(f));
            }
        }
        Ok(())
    }
}

/// Entry-wise sum of residues.
pub open spec fn sum_words(a: Seq<i32>, b: Seq<i32>) -> Seq<i32> {
    Seq::new(a.len(), |k: int| ((a[k] + b[k]) % (Q as int)) as i32)
}

fn add_words(a: &Vec<i32>, b: &Vec<i32>) -> (r: Vec<i32>)
    requires
        a.len() == b.len(),
        residues(a@),
        residues(b@),
    ensures
        r@ == sum_words(a@, b@),
        residues(r@),
{
    let mut out: Vec<i32> = Vec::with_capacity(a.len());
    for k in 0..a.len()
        invariant
            a.len() == b.len(),
            residues(a@),
            residues(b@),
            residues(out@),
            out@ == sum_words(a@, b@).take(k as int),
    {
        assert(0 <= a@[k as int] < Q && 0 <= b@[k as int] < Q);
        out.push(shift_mod(a[k], b[k], true));
        assert(out@ =~= sum_words(a@, b@).take(k + 1));
    }
    assert(out@ =~= sum_words(a@, b@));
    out
}

// ---------------------------------------------------------------
// Listing
// ---------------------------------------------------------------

/// The chunk that a cell shows.
pub open spec fn shown_chunk(p: IbltParams, v: Cell) -> Seq<u8> {
    chunk_of(words(v.skip(1)), p.base_bits as int)
}

/// No cell that `v` goes to counts zero.
pub open spec fn all_counted(p: IbltParams, g: Grid, v: Cell) -> bool {
    forall|l: int| 0 <= l < 4 ==> g[l][#[trigger] (shape(p).place)(v)[l]][0] != 0
}

/// At every step, no cell that the shown chunk goes to counted zero.
pub open spec fn never_empty(p: IbltParams, g: Grid, steps: Seq<(int, int)>) -> bool
    decreases steps.len(),
{
    steps.len() == 0 || {
        let t = after(shape(p), g, steps.drop_last());
        &&& never_empty(p, g, steps.drop_last())
        &&& all_counted(p, t, t[steps.last().0][steps.last().1])
    }
}

/// A run of peeling: cells taken one after the other, each counting one chunk
/// when it is taken and never meeting an empty cell.
pub open spec fn is_run(p: IbltParams, g: Grid, steps: Seq<(int, int)>) -> bool {
    legal(shape(p), g, steps) && never_empty(p, g, steps)
}

/// A full run: every cell that counts one chunk at the end was taken.
pub open spec fn is_full_run(p: IbltParams, g: Grid, steps: Seq<(int, int)>) -> bool {
    &&& is_run(p, g, steps)
    &&& forall|l: int, i: int|
        #[trigger] is_pure(after(shape(p), g, steps), l, i) ==> steps.contains((l, i))
}

/// `out` is what the cells of a run showed.
pub open spec fn lists_run(
    p: IbltParams,
    g: Grid,
    steps: Seq<(int, int)>,
    out: Seq<[u8; IBLT_CHUNK_BYTES]>,
) -> bool {
    &&& out.len() == steps.len()
    &&& shown(shape(p), g, steps).len() == steps.len()
    &&& forall|k: int|
        0 <= k < out.len() ==> (#[trigger] out[k])@ == shown_chunk(p, shown(shape(p), g, steps)[k])
}

/// A run that meets an empty cell: the cell taken next counts one chunk, but
/// some cell of that chunk counts none.
pub open spec fn run_breaks(p: IbltParams, g: Grid, steps: Seq<(int, int)>, l: int, i: int) -> bool {
    let t = after(shape(p), g, steps);
    is_run(p, g, steps) && is_pure(t, l, i) && !all_counted(p, t, t[l][i])
}

/// The queue of cells, and the cells taken, after `n` visits. The queue starts
/// with the cells that count one chunk; a visited cell that counts one is taken,
/// and the cells this bares go to the end.
pub open spec fn visits(p: IbltParams, g: Grid, n: nat) -> (Seq<(int, int)>, Seq<(int, int)>)
    decreases n,
{
    if n == 0 {
        (pure_in_order(g, 4), seq![])
    } else {
        let (queue, steps) = visits(p, g, (n - 1) as nat);
        let t = after(shape(p), g, steps);
        if n > queue.len() {
            (queue, steps)
        } else {
            let (l, i) = queue[n - 1];
            if is_pure(t, l, i) {
                (queue + bared(shape(p), t, t[l][i], 4), steps.push((l, i)))
            } else {
                (queue, steps)
            }
        }
    }
}

/// The queue is at its end after `n` visits, and these cells were taken.
pub open spec fn ends_after(p: IbltParams, g: Grid, n: nat, steps: Seq<(int, int)>) -> bool {
    visits(p, g, n).0.len() == n && visits(p, g, n).1 == steps
}

/// After `n` visits these cells were taken, and cell `i` of level `l` is next.
pub open spec fn comes_next(
    p: IbltParams,
    g: Grid,
    n: nat,
    steps: Seq<(int, int)>,
    l: int,
    i: int,
) -> bool {
    n < visits(p, g, n).0.len() && visits(p, g, n).0[n as int] == (l, i) && visits(p, g, n).1
        == steps
}

/// Sum of all counts.
spec fn tally(g: Grid) -> int {
    peel::tally_row(g[0]) + peel::tally_row(g[1]) + peel::tally_row(g[2]) + peel::tally_row(g[3])
}

proof fn lemma_tally_nonnegative(t: IbltVector)
    requires
        t.wf(),
    ensures
        tally(t.grid()) >= 0,
{
    lemma_regular(t);
    let g = t.grid();
    assert forall|l: int| 0 <= l < 4 implies #[trigger] peel::tally_row(g[l]) >= 0 by {
        assert forall|i: int| 0 <= i < g[l].len() implies (#[trigger] g[l][i])[0] >= 0 by {
            assert(t.chunks[l].len() == t.params.cells(l));
            assert(residues(t.counters[l]@));
            assert(g[l][i] == t.cell(l, i));
            assert(0 <= t.counters[l]@[i]);
        }
        peel::lemma_tally_nonnegative(g[l]);
    }
    assert(peel::tally_row(g[0]) >= 0 && peel::tally_row(g[1]) >= 0 && peel::tally_row(g[2]) >= 0
        && peel::tally_row(g[3]) >= 0);
}

proof fn lemma_tally_step(g: Grid, l: int, i: int, x: Cell)
    requires
        g.len() == 4,
        0 <= l < 4,
        0 <= i < g[l].len(),
    ensures
        tally(g.update(l, g[l].update(i, x))) == tally(g) - g[l][i][0] + x[0],
{
    peel::lemma_tally_update(g[l], i, x);
}

/// The first `n` levels of `a`, then the levels of `b`.
spec fn spliced(a: Grid, b: Grid, n: int) -> Grid {
    Seq::new(
        4,
        |l: int|
            if l < n {
                a[l]
            } else {
                b[l]
            },
    )
}

/// Every pure cell is waiting in the queue or was taken.
spec fn all_known(
    g: Grid,
    queue: Seq<(usize, usize)>,
    head: int,
    steps: Seq<(int, int)>,
) -> bool {
    forall|l: int, i: int|
        #[trigger] is_pure(g, l, i) ==> steps.contains((l, i)) || waits(queue, head, l, i)
}

spec fn waits(queue: Seq<(usize, usize)>, head: int, l: int, i: int) -> bool {
    exists|k: int|
        head <= k < queue.len() && (#[trigger] queue[k]).0 == l && queue[k].1 == i
}

proof fn lemma_waits_push(queue: Seq<(usize, usize)>, head: int, x: (usize, usize))
    requires
        0 <= head <= queue.len(),
    ensures
        forall|l: int, i: int|
            #![trigger waits(queue.push(x), head, l, i)]
            waits(queue, head, l, i) ==> waits(queue.push(x), head, l, i),
        waits(queue.push(x), head, x.0 as int, x.1 as int),
{
    let q = queue.push(x);
    assert(q[queue.len() as int] == x);
    assert forall|l: int, i: int|
        #![trigger waits(q, head, l, i)]
        waits(queue, head, l, i) implies waits(q, head, l, i) by {
        let k = choose|k: int|
            head <= k < queue.len() && (#[trigger] queue[k]).0 == l && queue[k].1 == i;
        assert(q[k] == queue[k]);
    }
}

impl IbltVector {
    /// The cells that count one chunk, in order.
    fn pure_cells(&self) -> (queue: Vec<(usize, usize)>)
        requires
            self.wf(),
        ensures
            cells_of(queue@) == pure_in_order(self.grid(), 4),
            forall|k: int|
                0 <= k < queue.len() ==> is_pure(
                    self.grid(),
                    (#[trigger] queue[k]).0 as int,
                    queue[k].1 as int,
                ),
            forall|l: int, i: int| #[trigger]
                is_pure(self.grid(), l, i) ==> waits(queue@, 0, l, i),
            forall|k: int|
                0 <= k < queue.len() ==> (#[trigger] queue[k]).0 < 4 && queue[k].1
                    < self.params.cells(queue[k].0 as int),
    {
        let mut queue: Vec<(usize, usize)> = Vec::new();
        let ghost g = self.grid();
        proof {
            lemma_regular(*self);
        }
        assert(cells_of(queue@) =~= pure_in_order(g, 0));
        for level in 0..4usize
            invariant
                self.wf(),
                g == self.grid(),
                cells_of(queue@) == pure_in_order(g, level as nat),
                forall|k: int|
                    0 <= k < queue.len() ==> is_pure(
                        g,
                        (#[trigger] queue[k]).0 as int,
                        queue[k].1 as int,
                    ),
                forall|l: int, i: int| #[trigger]
                    is_pure(g, l, i) && l < level ==> waits(queue@, 0, l, i),
                forall|k: int|
                    0 <= k < queue.len() ==> (#[trigger] queue[k]).0 < 4 && queue[k].1
                        < self.params.cells(queue[k].0 as int),
        {
            assert(self.chunks[level as int].len() == self.params.cells(level as int));
            let size: usize = self.counters[level].len();
            let ghost first = cells_of(queue@);
            assert(first + pure_in_level(g, level as int, 0) =~= first);
            for i in 0..size
                invariant
                    level < 4,
                    self.wf(),
                    g == self.grid(),
                    cells_of(queue@) == first + pure_in_level(g, level as int, i as nat),
                    forall|k: int|
                        0 <= k < queue.len() ==> is_pure(
                            g,
                            (#[trigger] queue[k]).0 as int,
                            queue[k].1 as int,
                        ),
                    size == self.counters[level as int].len(),
                    size == self.params.cells(level as int),
                    forall|l: int, j: int| #[trigger]
                        is_pure(g, l, j) && (l < level || (l == level && j < i)) ==> waits(
                            queue@,
                            0,
                            l,
                            j,
                        ),
                    forall|k: int|
                        0 <= k < queue.len() ==> (#[trigger] queue[k]).0 < 4 && queue[k].1
                            < self.params.cells(queue[k].0 as int),
            {
                let ghost before = queue@;
                assert(g[level as int][i as int] == self.cell(level as int, i as int));
                if self.counters[level][i] == 1 {
                    queue.push((level, i));
                    proof {
                        lemma_waits_push(before, 0, (level, i));
                        let x = (level as int, i as int);
                        assert(cells_of(queue@) =~= cells_of(before).push(x));
                        let part = pure_in_level(g, level as int, i as nat);
                        assert((first + part).push(x) =~= first + part.push(x));
                    }
                }
            }
        }
        queue
    }

    /// Lists the chunks by peeling: what a cell that counts one chunk shows is
    /// listed and taken out, as long as there is such a cell. What never comes to
    /// stand alone in a cell stays in the table and is not listed, with no error:
    /// a table of two equal chunks lists nothing.
    #[verifier::spinoff_prover]
    #[verifier::rlimit(80)]
    pub fn recover(&self) -> (r: Result<Vec<[u8; IBLT_CHUNK_BYTES]>, IbltError>)
        requires
            self.wf(),
            (self.params.valid() && self.params.message_slots >= 3) || forall|l: int, i: int|
                !#[trigger] is_pure(self.grid(), l, i),
        ensures
            (forall|l: int, i: int| !#[trigger] is_pure(self.grid(), l, i)) ==> (r matches Ok(
                out,
            ) && out.len() == 0),
            match r {
                Ok(out) => exists|steps: Seq<(int, int)>, n: nat|
                    is_full_run(self.params, self.grid(), steps) && lists_run(
                        self.params,
                        self.grid(),
                        steps,
                        out@,
                    ) && #[trigger] ends_after(self.params, self.grid(), n, steps),
                Err(e) => e == IbltError::UnexpectedZeroCounter && exists|
                    steps: Seq<(int, int)>,
                    n: nat,
                    l: int,
                    i: int,
                |
                    run_breaks(self.params, self.grid(), steps, l, i) && #[trigger] comes_next(
                        self.params,
                        self.grid(),
                        n,
                        steps,
                        l,
                        i,
                    ),
            },
    {
        let ghost p = self.params;
        let ghost s = shape(p);
        let ghost g0 = self.grid();
        let mut working: IbltVector = self.clone();
        proof {
            lemma_same_grid(*self, working);
        }
        let mut recovered: Vec<[u8; IBLT_CHUNK_BYTES]> = Vec::new();
        let mut queue: Vec<(usize, usize)> = working.pure_cells();
        let mut head: usize = 0;
        let ghost mut steps: Seq<(int, int)> = Seq::empty();
        if queue.len() == 0 {
            proof {
                assert forall|l: int, i: int| !#[trigger] is_pure(g0, l, i) by {
                    if is_pure(g0, l, i) {
                        assert(waits(queue@, 0, l, i));
                    }
                }
                assert(is_full_run(p, g0, steps));
                assert(cells_of(queue@).len() == 0);
                assert(ends_after(p, g0, 0, steps));
            }
            return Ok(recovered);
        }
        let ghost first = (queue[0].0 as int, queue[0].1 as int);
        proof {
            assert(is_pure(g0, first.0, first.1));
            lemma_cells_positive(p);
        }
        proof {
            lemma_tally_nonnegative(working);
        }
        while head < queue.len()
            invariant
                p == self.params,
                s == shape(p),
                g0 == self.grid(),
                p.valid(),
                p.message_slots >= 3,
                working.wf(),
                working.params == p,
                working.grid() == after(s, g0, steps),
                forall|l: int| 0 <= l < 4 ==> #[trigger] p.cells(l) > 0,
                head <= queue.len(),
                is_pure(g0, first.0, first.1),
                visits(p, g0, head as nat) == (cells_of(queue@), steps),
                forall|k: int|
                    0 <= k < queue.len() ==> (#[trigger] queue[k]).0 < 4 && queue[k].1 < p.cells(
                        queue[k].0 as int,
                    ),
                is_run(p, g0, steps),
                lists_run(p, g0, steps, recovered@),
                all_known(working.grid(), queue@, head as int, steps),
                tally(working.grid()) >= 0,
            decreases tally(working.grid()), queue.len() - head,
        {
            let (level, idx): (usize, usize) = queue[head];
            let ghost g = working.grid();
            let ghost old_queue = queue@;
            let ghost old_head = head as int;
            head = head + 1;
            assert(queue[old_head].0 < 4 && queue[old_head].1 < p.cells(queue[old_head].0 as int));
            proof {
                lemma_regular(working);
                assert(working.chunks[level as int].len() == p.cells(level as int));
            }
            assert(g[level as int][idx as int] == working.cell(level as int, idx as int));
            if working.counters[level][idx] != 1 {
                assert(!is_pure(g, level as int, idx as int));
                proof {
                    assert(cells_of(queue@)[old_head] == (level as int, idx as int));
                    assert forall|l: int, i: int| #[trigger] is_pure(g, l, i) implies steps.contains(
                        (l, i),
                    ) || waits(queue@, head as int, l, i) by {
                        if !steps.contains((l, i)) {
                            let k = choose|k: int|
                                old_head <= k < queue.len() && (#[trigger] queue@[k]).0 == l
                                    && queue@[k].1 == i;
                            assert(queue@[k].0 == l && queue@[k].1 == i);
                        }
                    }
                }
                continue;
            }
            assert(is_pure(g, level as int, idx as int));
            let ghost v = g[level as int][idx as int];
            assert(working.chunks[level as int][idx as int].len() == p.limbs() && residues(
                working.chunks[level as int][idx as int]@,
            ));
            let limbs: Vec<i32> = copy_words(&working.chunks[level][idx]);
            assert(words(v.skip(1)) =~= limbs@);
            let chunk: [u8; IBLT_CHUNK_BYTES] = limbs_to_chunk(&limbs, working.params.base_bits);
            let ghost target = take_out(s, g, v);
            let ghost next = steps.push((level as int, idx as int));
            proof {
                assert(next.drop_last() =~= steps);
                assert(after(s, g0, next) == target);
                assert forall|l: int, i: int| #[trigger] is_pure(g, l, i) implies next.contains(
                    (l, i),
                ) || waits(queue@, head as int, l, i) by {
                    if steps.contains((l, i)) {
                        let k = choose|k: int| 0 <= k < steps.len() && steps[k] == (l, i);
                        assert(next[k] == (l, i));
                    } else {
                        let k = choose|k: int|
                            old_head <= k < queue.len() && (#[trigger] queue@[k]).0 == l
                                && queue@[k].1 == i;
                        assert(queue@[k].0 == l && queue@[k].1 == i);
                        if k == old_head {
                            assert(next[steps.len() as int] == (l, i));
                        }
                    }
                }
                assert(spliced(target, g, 0) =~= g);
                assert(cells_of(queue@) + bared(shape(p), g, v, 0) =~= cells_of(queue@));
                assert(cells_of(queue@)[old_head] == (level as int, idx as int));
            }
            for inner in 0..4usize
                invariant
                    is_pure(g0, first.0, first.1),
                    0 <= old_head < old_queue.len(),
                    visits(p, g0, old_head as nat) == (cells_of(old_queue), steps),
                    cells_of(old_queue)[old_head] == (level as int, idx as int),
                    cells_of(queue@) == cells_of(old_queue) + bared(shape(p), g, v, inner as nat),
                    p == self.params,
                    s == shape(p),
                    g0 == self.grid(),
                    p.valid(),
                    working.wf(),
                    working.params == p,
                    g == after(s, g0, steps),
                    g.len() == 4,
                    forall|l: int| 0 <= l < 4 ==> #[trigger] g[l].len() == p.cells(l),
                    regular(g, width(p)),
                    is_run(p, g0, steps),
                    is_pure(g, level as int, idx as int),
                    v == g[level as int][idx as int],
                    v.len() == width(p),
                    words(v.skip(1)) == limbs@,
                    forall|c: int| 0 <= c < limbs.len() ==> #[trigger] limbs[c] == v[c + 1],
                    limbs.len() == p.limbs(),
                    residues(limbs@),
                    chunk@ == shown_chunk(p, v),
                    target == take_out(s, g, v),
                    forall|l: int| 0 <= l < 4 ==> #[trigger] p.cells(l) > 0,
                    working.grid() == spliced(target, g, inner as int),
                    head <= queue.len(),
                    forall|k: int|
                        0 <= k < queue.len() ==> (#[trigger] queue[k]).0 < 4 && queue[k].1
                            < p.cells(queue[k].0 as int),
                    forall|l: int|
                        0 <= l < inner ==> g[l][#[trigger] (s.place)(v)[l]][0] != 0,
                    all_known(spliced(target, g, inner as int), queue@, head as int, next),
                    tally(working.grid()) == tally(g) - inner,
            {
                assert(p.cells(inner as int) > 0);
                assert(working.chunks[inner as int].len() == p.cells(inner as int));
                let size: usize = working.chunks[inner].len();
                let at: usize = chunk_index(&chunk, inner, size) as usize;
                assert((s.place)(v)[inner as int] == at);
                let ghost w = working.grid();
                assert(w[inner as int] == g[inner as int]);
                assert(w[inner as int][at as int] == working.cell(inner as int, at as int));
                if working.counters[inner][at] == 0 {
                    assert(!all_counted(p, g, v)) by {
                        assert(g[inner as int][(s.place)(v)[inner as int]][0] == 0);
                    }
                    assert(run_breaks(p, g0, steps, level as int, idx as int));
                    assert(comes_next(
                        p,
                        g0,
                        old_head as nat,
                        steps,
                        level as int,
                        idx as int,
                    ));
                    return Err(IbltError::UnexpectedZeroCounter);
                }
                assert(residues(working.counters[inner as int]@));
                assert(0 <= working.counters[inner as int]@[at as int] < Q);
                working.shift_bucket(inner, at, &limbs, false);
                let ghost x = shifted(w[inner as int][at as int], limbs@, false);
                proof {
                    assert(x =~= lessened(s, g, v, inner as int, at as int)) by {
                        assert(v[0] == 1);
                    }
                    assert(working.grid() =~= spliced(target, g, inner + 1)) by {
                        assert forall|l: int| 0 <= l < 4 implies working.grid()[l] == spliced(
                            target,
                            g,
                            inner + 1,
                        )[l] by {}
                    }
                    lemma_tally_step(w, inner as int, at as int, x);
                    let count = w[inner as int][at as int][0];
                    assert(x[0] == (count - 1) % (Q as int));
                    vstd::arithmetic::div_mod::lemma_small_mod((count - 1) as nat, Q as nat);
                    lemma_regular(working);
                }
                assert(working.grid()[inner as int][at as int] == working.cell(
                    inner as int,
                    at as int,
                ));
                let ghost was = queue@;
                if working.counters[inner][at] == 1 {
                    queue.push((inner, at));
                    proof {
                        lemma_waits_push(was, head as int, (inner, at));
                        let y = (inner as int, at as int);
                        assert(cells_of(queue@) =~= cells_of(was).push(y));
                        let part = bared(shape(p), g, v, inner as nat);
                        assert((cells_of(old_queue) + part).push(y) =~= cells_of(old_queue)
                            + part.push(y));
                    }
                }
                proof {
                    let (a, b) = (spliced(target, g, inner as int), spliced(target, g, inner + 1));
                    assert forall|l: int, i: int| #[trigger] is_pure(b, l, i) implies next.contains(
                        (l, i),
                    ) || waits(queue@, head as int, l, i) by {
                        if l == inner && i == at {
                            assert(b[l][i] == x);
                        } else {
                            assert(b[l][i] == a[l][i]);
                            assert(is_pure(a, l, i));
                            if !next.contains((l, i)) {
                                assert(waits(was, head as int, l, i));
                                assert(waits(queue@, head as int, l, i));
                            }
                        }
                    }
                }
            }
            proof {
                assert(spliced(target, g, 4) =~= target);
                assert(all_counted(p, g, v));
                let sh = shown(s, g0, steps);
                assert(shown(s, g0, next) == sh.push(v));
                steps = next;
                lemma_tally_nonnegative(working);
            }
            recovered.push(chunk);
        }
        proof {
            assert forall|l: int, i: int| #[trigger]
                is_pure(after(s, g0, steps), l, i) implies steps.contains((l, i)) by {}
            assert(is_full_run(p, g0, steps));
            assert(ends_after(p, g0, head as nat, steps));
        }
        Ok(recovered)
    }
}

proof fn lemma_same_grid(a: IbltVector, b: IbltVector)
    requires
        a.wf(),
        b.params == a.params,
        forall|l: int| 0 <= l < 4 ==> (#[trigger] b.counters[l])@ == a.counters[l]@,
        forall|l: int| 0 <= l < 4 ==> (#[trigger] b.chunks[l]).len() == a.chunks[l].len(),
        forall|l: int, i: int|
            0 <= l < 4 && 0 <= i < a.chunks[l].len() ==> (#[trigger] b.chunks[l][i])@
                == a.chunks[l][i]@,
    ensures
        b.wf(),
        b.grid() == a.grid(),
{
    let p = a.params;
    assert forall|l: int| 0 <= l < 4 implies (#[trigger] b.chunks[l]).len() == p.cells(l)
        && b.counters[l].len() == p.cells(l) && residues(b.counters[l]@) by {
        assert(a.chunks[l].len() == p.cells(l));
        assert(b.counters[l]@ == a.counters[l]@);
    }
    assert forall|l: int, i: int| 0 <= l < 4 && 0 <= i < p.cells(l) implies (
    #[trigger] b.chunks[l][i]).len() == p.limbs() && residues(b.chunks[l][i]@) by {
        assert(a.chunks[l].len() == p.cells(l));
        assert(a.chunks[l][i].len() == p.limbs());
        assert(b.chunks[l][i]@ == a.chunks[l][i]@);
    }
    assert forall|l: int| 0 <= l < 4 implies b.grid()[l] =~= a.grid()[l] by {
        assert(a.chunks[l].len() == p.cells(l));
        assert(b.counters[l]@ == a.counters[l]@);
        assert forall|i: int| 0 <= i < p.cells(l) implies b.grid()[l][i] == a.grid()[l][i] by {
            assert(b.chunks[l][i]@ == a.chunks[l][i]@);
        }
    }
    assert(b.grid() =~= a.grid());
}

/// Every entry is a chunk.
pub open spec fn are_chunks(list: Seq<Seq<u8>>) -> bool {
    forall|k: int| 0 <= k < list.len() ==> (#[trigger] list[k]).len() == 48
}

/// Chunks as items.
pub open spec fn items_of(list: Seq<Seq<u8>>, p: IbltParams) -> Seq<Cell> {
    list.map(|_k: int, c: Seq<u8>| item(c, p))
}

/// Tables of the same parameters that list the same chunks, in whatever order
/// they were inserted or added, are equal.
pub proof fn law_order_does_not_matter(
    t: IbltVector,
    u: IbltVector,
    a: Seq<Seq<u8>>,
    b: Seq<Seq<u8>>,
)
    requires
        t.wf(),
        u.wf(),
        t.params == u.params,
        t.lists(a),
        u.lists(b),
        a.to_multiset() == b.to_multiset(),
    ensures
        t.grid() == u.grid(),
        forall|l: int| 0 <= l < 4 ==> #[trigger] t.counters[l]@ == u.counters[l]@,
        forall|l: int, i: int|
            0 <= l < 4 && 0 <= i < t.params.cells(l) ==> #[trigger] t.chunks[l][i]@
                == u.chunks[l][i]@,
{
    let p = t.params;
    let f = |c: Seq<u8>| item(c, p);
    peel::lemma_map_multiset(a, b, f);
    assert(a.map(|_k: int, c: Seq<u8>| item(c, p)) =~= a.map_values(f));
    assert(b.map(|_k: int, c: Seq<u8>| item(c, p)) =~= b.map_values(f));
    lemma_regular(t);
    lemma_regular(u);
    peel::law_order_does_not_matter(
        shape(p),
        t.grid(),
        u.grid(),
        width(p),
        a.map_values(f),
        b.map_values(f),
    );
    assert forall|l: int, i: int| 0 <= l < 4 && 0 <= i < p.cells(l) implies #[trigger] t.chunks[l][i]@
        == u.chunks[l][i]@ && t.counters[l]@[i] == u.counters[l]@[i] by {
        assert(t.grid()[l][i] == u.grid()[l][i]);
        let (x, y) = (t.cell(l, i), u.cell(l, i));
        assert(t.chunks[l][i].len() == p.limbs() && u.chunks[l][i].len() == p.limbs());
        assert(x[0] == y[0]);
        assert forall|c: int| 0 <= c < p.limbs() implies t.chunks[l][i]@[c] == u.chunks[l][i]@[c] by {
            assert(x[c + 1] == y[c + 1]);
        }
        assert(t.chunks[l][i]@ =~= u.chunks[l][i]@);
    }
    assert forall|l: int| 0 <= l < 4 implies #[trigger] t.counters[l]@ == u.counters[l]@ by {
        assert(t.chunks[l].len() == p.cells(l) && u.chunks[l].len() == p.cells(l));
        assert forall|i: int| 0 <= i < p.cells(l) implies t.counters[l]@[i] == u.counters[l]@[i] by {
            assert(t.chunks[l][i]@ == u.chunks[l][i]@);
        }
        assert(t.counters[l]@ =~= u.counters[l]@);
    }
}

/// A full run on a table that lists fewer than `Q` chunks shows only listed
/// chunks: what it shows and what it leaves are together exactly the list, and
/// it leaves no cell that counts one chunk.
pub proof fn law_recover_is_sound(
    t: IbltVector,
    list: Seq<Seq<u8>>,
    steps: Seq<(int, int)>,
    out: Seq<[u8; IBLT_CHUNK_BYTES]>,
) -> (rest: Seq<Seq<u8>>)
    requires
        t.wf(),
        t.params.base_bits <= 15,
        t.params.message_slots >= 3,
        are_chunks(list),
        list.len() < Q,
        t.lists(list),
        is_full_run(t.params, t.grid(), steps),
        lists_run(t.params, t.grid(), steps, out),
    ensures
        list.to_multiset() == out.map_values(
            |c: [u8; IBLT_CHUNK_BYTES]| c@,
        ).to_multiset().add(rest.to_multiset()),
        stuck(after(shape(t.params), t.grid(), steps)),
        is_clear(after(shape(t.params), t.grid(), steps)) ==> rest.len() == 0,
{
    let (p, s, w, g) = (t.params, shape(t.params), width(t.params), t.grid());
    lemma_limb_count(p.base_bits as int);
    let items = items_of(list, p);
    let left = law_peeling_is_sound(s, g, w, items, steps);
    peel::law_peeling_gets_stuck(s, g, w, items, steps);
    let f = |v: Cell| shown_chunk(p, v);
    let sh = shown(s, g, steps);
    peel::lemma_peeled_values(items, sh, left, f);
    assert(items.map_values(f) =~= list) by {
        assert forall|k: int| 0 <= k < list.len() implies items.map_values(f)[k] == list[k] by {
            lemma_shown_item(t, list[k]);
        }
    }
    let views = out.map_values(|c: [u8; IBLT_CHUNK_BYTES]| c@);
    assert(views =~= sh.map_values(f)) by {
        assert forall|k: int| 0 <= k < out.len() implies views[k] == sh.map_values(f)[k] by {
            assert(out[k]@ == shown_chunk(p, sh[k]));
        }
    }
    if is_clear(after(s, g, steps)) {
        lemma_after_len(s, g, steps);
        peel::law_clear_holds_nothing(s, after(s, g, steps), w, left);
    }
    left.map_values(f)
}

proof fn lemma_after_len(s: Shape, g: Grid, steps: Seq<(int, int)>)
    ensures
        after(s, g, steps).len() == g.len(),
    decreases steps.len(),
{
    if steps.len() > 0 {
        lemma_after_len(s, g, steps.drop_last());
    }
}

/// An item shows its chunk.
proof fn lemma_shown_item(t: IbltVector, chunk: Seq<u8>)
    requires
        t.wf(),
        t.params.base_bits <= 15,
        t.params.message_slots >= 3,
        chunk.len() == 48,
    ensures
        shown_chunk(t.params, item(chunk, t.params)) == chunk,
{
    let (p, b) = (t.params, t.params.base_bits as int);
    let x = item(chunk, p);
    lemma_limb_count(b);
    lemma_pow2_pos(b as nat);
    lemma_pow2_monotonic(b as nat, 15);
    lemma2_to64();
    let limbs = limbs_of(chunk, b);
    assert(x.skip(1) =~= limbs);
    let w = words(x.skip(1));
    assert forall|j: int| 0 <= j < w.len() implies #[trigger] w[j] == limbs[j] by {
        assert(unpacked_at(chunk.reverse(), b as nat, j as nat) < pow2(b as nat));
    }
    law_limbs_round_trip(chunk, p.base_bits, w);
}

/// Peeling a table that lists fewer than `Q` chunks never meets an empty cell,
/// so listing it never fails.
pub proof fn law_recover_succeeds(
    t: IbltVector,
    list: Seq<Seq<u8>>,
    steps: Seq<(int, int)>,
    l: int,
    i: int,
)
    requires
        t.wf(),
        t.params.base_bits <= 15,
        list.len() < Q,
        t.lists(list),
    ensures
        !run_breaks(t.params, t.grid(), steps, l, i),
{
    let (p, s, w, g) = (t.params, shape(t.params), width(t.params), t.grid());
    lemma_limb_count(p.base_bits as int);
    if run_breaks(p, g, steps, l, i) {
        let items = items_of(list, p);
        let left = law_peeling_is_sound(s, g, w, items, steps);
        let a = after(s, g, steps);
        lemma_after_len(s, g, steps);
        let j = peel::lemma_shows(s, a, w, left, l, i);
        assert(all_counted(p, a, a[l][i])) by {
            assert forall|k: int| 0 <= k < 4 implies a[k][#[trigger] (shape(p).place)(a[l][i])[k]][0]
                != 0 by {
                peel::lemma_counts_positive(s, a, w, left, j, k);
            }
        }
    }
}

// ---------------------------------------------------------------
// As polynomials
// ---------------------------------------------------------------

/// The limbs of the first `n` buckets of a level, in order.
pub open spec fn level_words(level: Seq<Vec<i32>>, n: nat) -> Seq<i32>
    decreases n,
{
    if n == 0 {
        Seq::empty()
    } else {
        level_words(level, (n - 1) as nat) + level[n - 1]@
    }
}

/// The limbs of the first `n` levels, in order.
pub open spec fn chunk_words(chunks: Seq<Vec<Vec<i32>>>, n: nat) -> Seq<i32>
    decreases n,
{
    if n == 0 {
        Seq::empty()
    } else {
        chunk_words(chunks, (n - 1) as nat) + level_words(chunks[n - 1]@, chunks[n - 1].len() as nat)
    }
}

/// The counts of the first `n` levels, in order.
pub open spec fn counter_words(counters: Seq<Vec<i32>>, n: nat) -> Seq<i32>
    decreases n,
{
    if n == 0 {
        Seq::empty()
    } else {
        counter_words(counters, (n - 1) as nat) + counters[n - 1]@
    }
}

impl IbltParams {
    /// Entries of a table.
    pub open spec fn total(&self) -> int {
        self.all_cells() * (self.limbs() + 1)
    }

    /// Polynomials that hold a table, at least one.
    pub open spec fn polys(&self) -> int {
        if self.total() == 0 {
            1
        } else {
            (self.total() + 2047) / 2048
        }
    }
}

impl IbltVector {
    /// All limbs in level and bucket order, then all counts.
    pub open spec fn flat(&self) -> Seq<i32> {
        chunk_words(self.chunks@, 4) + counter_words(self.counters@, 4)
    }
}

proof fn lemma_level_len(level: Seq<Vec<i32>>, n: nat, w: int)
    requires
        n <= level.len(),
        forall|i: int| 0 <= i < n ==> (#[trigger] level[i]).len() == w,
    ensures
        level_words(level, n).len() == n * w,
    decreases n,
{
    if n > 0 {
        lemma_level_len(level, (n - 1) as nat, w);
        assert((n - 1) * w + w == n * w) by (nonlinear_arith);
    } else {
        assert(0 * w == 0);
    }
}

proof fn lemma_flat_len(t: IbltVector)
    requires
        t.wf(),
    ensures
        t.flat().len() == t.params.total(),
        chunk_words(t.chunks@, 4).len() == t.params.all_cells() * t.params.limbs(),
{
    let p = t.params;
    let w = p.limbs();
    reveal_with_fuel(chunk_words, 5);
    reveal_with_fuel(counter_words, 5);
    assert forall|l: int| 0 <= l < 4 implies #[trigger] level_words(
        t.chunks[l]@,
        t.chunks[l].len() as nat,
    ).len() == p.cells(l) * w && t.counters[l].len() == p.cells(l) by {
        assert(t.chunks[l].len() == p.cells(l));
        assert forall|i: int| 0 <= i < t.chunks[l].len() implies (#[trigger] t.chunks[l]@[i]).len()
            == w by {
            assert(t.chunks[l][i].len() == w);
        }
        lemma_level_len(t.chunks[l]@, t.chunks[l].len() as nat, w);
    }
    let (a, b, c, d) = (p.cells(0), p.cells(1), p.cells(2), p.cells(3));
    assert(t.chunks[0].len() == a && t.chunks[1].len() == b && t.chunks[2].len() == c
        && t.chunks[3].len() == d);
    assert(level_words(t.chunks[0]@, t.chunks[0].len() as nat).len() == a * w);
    assert(level_words(t.chunks[1]@, t.chunks[1].len() as nat).len() == b * w);
    assert(level_words(t.chunks[2]@, t.chunks[2].len() as nat).len() == c * w);
    assert(level_words(t.chunks[3]@, t.chunks[3].len() as nat).len() == d * w);
    assert(a * w + b * w + c * w + d * w == (a + b + c + d) * w) by (nonlinear_arith);
    assert((a + b + c + d) * w + (a + b + c + d) == (a + b + c + d) * (w + 1)) by (nonlinear_arith);
}

/// `polys` hold `flat`, then zeros.
pub open spec fn holds_flat(flat: Seq<i32>, polys: Seq<HVCPoly>) -> bool {
    forall|q: int, i: int|
        0 <= q < polys.len() && 0 <= i < N ==> #[trigger] polys[q].coeffs[i] == (if q * N + i
            < flat.len() {
            flat[q * N + i]
        } else {
            0i32
        })
}

proof fn lemma_cells_fit(p: IbltParams)
    requires
        p.base_bits >= 1,
    ensures
        0 <= p.all_cells() <= p.total(),
{
    let (c, n) = (p.all_cells(), p.limbs() + 1);
    assert(c >= 0) by {
        reveal_with_fuel(power, 4);
        let s = p.message_slots as int;
        assert(p.cells(0) == (s * 1) / 1);
        assert(p.cells(1) == (s * 3) / 4);
        assert(p.cells(2) == (s * 9) / 16);
        assert(p.cells(3) == (s * 27) / 64);
    }
    assert(c <= c * n) by (nonlinear_arith)
        requires
            c >= 0,
            n >= 1,
    ;
}

impl IbltVector {
    /// Polynomials needed for a table.
    pub fn n_polys(params: &IbltParams) -> (r: usize)
        requires
            params.base_bits >= 1,
            params.total() + 2047 <= usize::MAX,
        ensures
            r == params.polys(),
    {
        let limbs: usize = params.limbs_per_chunk();
        proof {
            lemma_cells_fit(*params);
        }
        let cells: usize = params.total_buckets();
        assert(cells * (limbs + 1) == params.total());
        let total: usize = cells * (limbs + 1);
        if total == 0 {
            1
        } else {
            (total + 2047) / 2048
        }
    }

    /// The table as polynomials, padded with zeros.
    pub fn pack(&self) -> (r: Vec<HVCPoly>)
        requires
            self.wf(),
            self.params.total() + 2047 <= usize::MAX,
        ensures
            r.len() == self.params.polys(),
            holds_flat(self.flat(), r@),
    {
        let mut words: Vec<i32> = Vec::new();
        for l in 0..4usize
            invariant
                self.wf(),
                words@ == chunk_words(self.chunks@, l as nat),
        {
            let size: usize = self.chunks[l].len();
            let ghost start = words@;
            assert(start + Seq::<i32>::empty() =~= start);
            for i in 0..size
                invariant
                    self.wf(),
                    l < 4,
                    size == self.chunks[l as int].len(),
                    words@ == start + level_words(self.chunks[l as int]@, i as nat),
            {
                let ghost before = words@;
                words.extend_from_slice(self.chunks[l][i].as_slice());
                assert(words@ =~= before + self.chunks[l as int][i as int]@);
                assert(words@ =~= start + level_words(self.chunks[l as int]@, (i + 1) as nat));
            }
        }
        let ghost first = words@;
        assert(first + Seq::<i32>::empty() =~= first);
        for l in 0..4usize
            invariant
                self.wf(),
                words@ == first + counter_words(self.counters@, l as nat),
        {
            let ghost before = words@;
            words.extend_from_slice(self.counters[l].as_slice());
            assert(words@ =~= before + self.counters[l as int]@);
            assert(words@ =~= first + counter_words(self.counters@, (l + 1) as nat));
        }
        proof {
            lemma_flat_len(*self);
        }
        assert(words@ == self.flat());
        let n: usize = Self::n_polys(&self.params);
        let mut polys: Vec<HVCPoly> = Vec::with_capacity(n);
        for q in 0..n
            invariant
                words@ == self.flat(),
                words.len() + 2047 <= usize::MAX,
                n == self.params.polys(),
                words.len() == self.params.total(),
                polys.len() == q,
                holds_flat(self.flat(), polys@),
        {
            let mut coeffs: [i32; N] = [0i32; N];
            let base: usize = q * 2048;
            for i in 0..N
                invariant
                    words@ == self.flat(),
                    words.len() + 2047 <= usize::MAX,
                    base == q * 2048,
                    base <= words.len() || words.len() == 0,
                    words.len() == 0 ==> base == 0,
                    forall|k: int|
                        0 <= k < i ==> #[trigger] coeffs[k] == (if q * N + k < self.flat().len() {
                            self.flat()[q * N + k]
                        } else {
                            0i32
                        }),
                    forall|k: int| i <= k < N ==> #[trigger] coeffs[k] == 0,
            {
                if base + i < words.len() {
                    coeffs[i] = words[base + i];
                }
            }
            polys.push(HVCPoly::from_coeffs(coeffs));
        }
        polys
    }

    /// Reads a table back; coefficients are lifted to residues.
    pub fn unpack(params: &IbltParams, polys: &[HVCPoly]) -> (r: Self)
        requires
            params.base_bits >= 1,
            params.total() <= polys.len() * N,
            params.total() <= usize::MAX,
        ensures
            r.wf(),
            r.params == *params,
            forall|j: int|
                0 <= j < params.total() ==> #[trigger] r.flat()[j] == polys[j / 2048]@[j % 2048]
                    % (Q as int),
    {
        let limbs: usize = params.limbs_per_chunk();
        proof {
            lemma_cells_fit(*params);
        }
        let cells: usize = params.total_buckets();
        let ghost total = params.total();
        assert(cells * (limbs + 1) == total);
        let count: usize = cells * (limbs + 1);
        let mut words: Vec<i32> = Vec::with_capacity(count);
        for j in 0..count
            invariant
                count == params.total(),
                params.total() <= polys.len() * N,
                words.len() == j,
                forall|k: int|
                    0 <= k < j ==> #[trigger] words[k] == polys[k / 2048]@[k % 2048] % (Q as int)
                        && 0 <= words[k] < Q,
        {
            assert(j / 2048 < polys.len());
            let q: usize = j / 2048;
            let i: usize = j % 2048;
            assert(polys[q as int]@[i as int] == polys[q as int].coeffs[i as int]);
            let c: i64 = polys[q].coeffs[i] as i64;
            words.push(crate::negacyclic::rem_euclid_i64(c, Q as i64) as i32);
        }
        let mut at: usize = 0;
        let mut chunks: Vec<Vec<Vec<i32>>> = Vec::with_capacity(4);
        let mut sizes: Vec<usize> = Vec::with_capacity(4);
        assert(words@.take(0) =~= Seq::<i32>::empty());
        proof {
            let (a, b, c, d) = (params.cells(0), params.cells(1), params.cells(2), params.cells(3));
            let w = limbs as int;
            assert(a * w + b * w + c * w + d * w + (a + b + c + d) == (a + b + c + d) * (w + 1))
                by (nonlinear_arith);
            assert(0 <= a * w && 0 <= b * w && 0 <= c * w && 0 <= d * w) by (nonlinear_arith)
                requires
                    a >= 0,
                    b >= 0,
                    c >= 0,
                    d >= 0,
                    w >= 0,
            ;
        }
        for l in 0..4usize
            invariant
                limbs == params.limbs(),
                limbs >= 1,
                words.len() == params.total(),
                residues(words@),
                params.total() == params.all_cells() * (limbs + 1),
                at == spans(*params, limbs as int, l as int),
                spans(*params, limbs as int, 4) + params.all_cells() == params.total(),
                forall|k: int| 0 <= k < 4 ==> #[trigger] params.cells(k) >= 0,
                chunks.len() == l,
                forall|k: int| 0 <= k < l ==> (#[trigger] chunks[k]).len() == params.cells(k),
                forall|k: int, i: int|
                    0 <= k < l && 0 <= i < params.cells(k) ==> (#[trigger] chunks[k][i]).len()
                        == limbs && residues(chunks[k][i]@),
                words@.take(at as int) == chunk_words(chunks@, l as nat),
        {
            let size: usize = params.level_size(l);
            let ghost start = at as int;
            proof {
                lemma_spans(*params, limbs as int, l as int);
            }
            let mut level: Vec<Vec<i32>> = Vec::with_capacity(size);
            assert(words@.take(start) + Seq::<i32>::empty() =~= words@.take(start));
            assert(0 * (limbs as int) == 0);
            for i in 0..size
                invariant
                    limbs >= 1,
                    size == params.cells(l as int),
                    words.len() == params.total(),
                    residues(words@),
                    start >= 0,
                    start + size * limbs <= words.len(),
                    at == start + i * limbs,
                    level.len() == i,
                    forall|k: int|
                        0 <= k < i ==> (#[trigger] level[k]).len() == limbs && residues(level[k]@),
                    words@.take(at as int) == words@.take(start) + level_words(level@, i as nat),
            {
                assert(i * limbs + limbs <= size * limbs) by (nonlinear_arith)
                    requires
                        i < size,
                ;
                assert((i + 1) * limbs == i * limbs + limbs) by (nonlinear_arith);
                let mut bucket: Vec<i32> = Vec::with_capacity(limbs);
                for j in 0..limbs
                    invariant
                        at + limbs <= words.len(),
                        residues(words@),
                        bucket@ == words@.subrange(at as int, at + j),
                {
                    bucket.push(words[at + j]);
                    assert(bucket@ =~= words@.subrange(at as int, at + j + 1));
                }
                assert(residues(bucket@)) by {
                    assert forall|k: int| 0 <= k < bucket.len() implies 0 <= #[trigger] bucket@[k]
                        < Q by {
                        assert(0 <= words@[at + k] < Q);
                    }
                }
                let ghost was = level@;
                level.push(bucket);
                proof {
                    lemma_level_prefix(was, level@, i as nat);
                    assert(words@.take(at + limbs) =~= words@.take(at as int) + bucket@);
                    assert(words@.take(start) + (level_words(was, i as nat) + bucket@)
                        =~= words@.take(start) + level_words(was, i as nat) + bucket@);
                }
                at = at + limbs;
            }
            let ghost was = chunks@;
            chunks.push(level);
            proof {
                lemma_chunk_prefix(was, chunks@, l as nat);
                lemma_spans_step(*params, limbs as int, l as int);
            }
        }
        let mut counters: Vec<Vec<i32>> = Vec::with_capacity(4);
        let ghost first = at as int;
        assert(words@.take(first) + Seq::<i32>::empty() =~= words@.take(first));
        for l in 0..4usize
            invariant
                words.len() == params.total(),
                residues(words@),
                first >= 0,
                first + params.all_cells() == params.total(),
                at == first + counted(*params, l as int),
                forall|k: int| 0 <= k < 4 ==> #[trigger] params.cells(k) >= 0,
                counters.len() == l,
                forall|k: int|
                    0 <= k < l ==> (#[trigger] counters[k]).len() == params.cells(k) && residues(
                        counters[k]@,
                    ),
                words@.take(at as int) == words@.take(first) + counter_words(counters@, l as nat),
        {
            let size: usize = params.level_size(l);
            let mut level: Vec<i32> = Vec::with_capacity(size);
            proof {
                assert(params.cells(0) >= 0 && params.cells(1) >= 0 && params.cells(2) >= 0
                    && params.cells(3) >= 0);
            }
            for i in 0..size
                invariant
                    at + size <= words.len(),
                    residues(words@),
                    level@ == words@.subrange(at as int, at + i),
            {
                level.push(words[at + i]);
                assert(level@ =~= words@.subrange(at as int, at + i + 1));
            }
            assert(residues(level@)) by {
                assert forall|k: int| 0 <= k < level.len() implies 0 <= #[trigger] level@[k]
                    < Q by {
                    assert(0 <= words@[at + k] < Q);
                }
            }
            let ghost was = counters@;
            let ghost lv = level@;
            counters.push(level);
            proof {
                lemma_counter_prefix(was, counters@, l as nat);
                assert(words@.take(at + size) =~= words@.take(at as int) + lv);
                assert(words@.take(first) + (counter_words(was, l as nat) + lv) =~= words@.take(
                    first,
                ) + counter_words(was, l as nat) + lv);
            }
            at = at + size;
        }
        let r = IbltVector { params: *params, chunks: four(chunks), counters: four(counters) };
        proof {
            assert forall|l: int| 0 <= l < 4 implies (#[trigger] r.chunks[l]).len()
                == r.params.cells(l) && r.counters[l].len() == r.params.cells(l) && residues(
                r.counters[l]@,
            ) by {
                assert(chunks[l].len() == params.cells(l));
                assert(counters[l].len() == params.cells(l));
            }
            assert(words@.take(words.len() as int) =~= words@);
            assert(r.flat() == words@);
        }
        r
    }
}

/// Entries of the limbs of the first `n` levels.
spec fn spans(p: IbltParams, limbs: int, n: int) -> int {
    (if n > 0 {
        p.cells(0) * limbs
    } else {
        0
    }) + (if n > 1 {
        p.cells(1) * limbs
    } else {
        0
    }) + (if n > 2 {
        p.cells(2) * limbs
    } else {
        0
    }) + (if n > 3 {
        p.cells(3) * limbs
    } else {
        0
    })
}

/// Cells of the first `n` levels.
spec fn counted(p: IbltParams, n: int) -> int {
    (if n > 0 {
        p.cells(0)
    } else {
        0
    }) + (if n > 1 {
        p.cells(1)
    } else {
        0
    }) + (if n > 2 {
        p.cells(2)
    } else {
        0
    }) + (if n > 3 {
        p.cells(3)
    } else {
        0
    })
}

proof fn lemma_spans(p: IbltParams, limbs: int, n: int)
    requires
        0 <= n < 4,
        limbs >= 0,
        forall|k: int| 0 <= k < 4 ==> #[trigger] p.cells(k) >= 0,
    ensures
        0 <= spans(p, limbs, n),
        spans(p, limbs, n) + p.cells(n) * limbs <= spans(p, limbs, 4),
{
    let (a, b, c, d) = (p.cells(0), p.cells(1), p.cells(2), p.cells(3));
    assert(a >= 0 && b >= 0 && c >= 0 && d >= 0);
    assert(0 <= a * limbs && 0 <= b * limbs && 0 <= c * limbs && 0 <= d * limbs)
        by (nonlinear_arith)
        requires
            a >= 0,
            b >= 0,
            c >= 0,
            d >= 0,
            limbs >= 0,
    ;
}

proof fn lemma_spans_step(p: IbltParams, limbs: int, n: int)
    requires
        0 <= n < 4,
    ensures
        spans(p, limbs, n + 1) == spans(p, limbs, n) + p.cells(n) * limbs,
{
}

proof fn lemma_level_prefix(a: Seq<Vec<i32>>, b: Seq<Vec<i32>>, n: nat)
    requires
        n <= a.len(),
        n <= b.len(),
        forall|i: int| 0 <= i < n ==> #[trigger] a[i] == b[i],
    ensures
        level_words(a, n) == level_words(b, n),
    decreases n,
{
    if n > 0 {
        lemma_level_prefix(a, b, (n - 1) as nat);
        assert(a[n - 1] == b[n - 1]);
    }
}

proof fn lemma_chunk_prefix(a: Seq<Vec<Vec<i32>>>, b: Seq<Vec<Vec<i32>>>, n: nat)
    requires
        n <= a.len(),
        n <= b.len(),
        forall|i: int| 0 <= i < n ==> #[trigger] a[i] == b[i],
    ensures
        chunk_words(a, n) == chunk_words(b, n),
    decreases n,
{
    if n > 0 {
        lemma_chunk_prefix(a, b, (n - 1) as nat);
        assert(a[n - 1] == b[n - 1]);
    }
}

proof fn lemma_counter_prefix(a: Seq<Vec<i32>>, b: Seq<Vec<i32>>, n: nat)
    requires
        n <= a.len(),
        n <= b.len(),
        forall|i: int| 0 <= i < n ==> #[trigger] a[i] == b[i],
    ensures
        counter_words(a, n) == counter_words(b, n),
    decreases n,
{
    if n > 0 {
        lemma_counter_prefix(a, b, (n - 1) as nat);
        assert(a[n - 1] == b[n - 1]);
    }
}

/// Where entry `c` of cell `i` of level `l` stands among all entries.
pub open spec fn position(p: IbltParams, l: int, i: int, c: int) -> int {
    if c == 0 {
        p.all_cells() * p.limbs() + (if l > 0 {
            p.cells(0)
        } else {
            0
        }) + (if l > 1 {
            p.cells(1)
        } else {
            0
        }) + (if l > 2 {
            p.cells(2)
        } else {
            0
        }) + i
    } else {
        (if l > 0 {
            p.cells(0) * p.limbs()
        } else {
            0
        }) + (if l > 1 {
            p.cells(1) * p.limbs()
        } else {
            0
        }) + (if l > 2 {
            p.cells(2) * p.limbs()
        } else {
            0
        }) + i * p.limbs() + c - 1
    }
}

proof fn lemma_level_at(level: Seq<Vec<i32>>, n: nat, w: int, i: int, c: int)
    requires
        n <= level.len(),
        forall|k: int| 0 <= k < n ==> (#[trigger] level[k]).len() == w,
        0 <= i < n,
        0 <= c < w,
    ensures
        0 <= i * w + c < level_words(level, n).len(),
        level_words(level, n)[i * w + c] == level[i][c],
    decreases n,
{
    let m = (n - 1) as nat;
    lemma_level_len(level, n, w);
    lemma_level_len(level, m, w);
    assert(0 <= i * w && (i < m ==> i * w + w <= m * w) && m * w + w == n * w) by (nonlinear_arith)
        requires
            0 <= i,
            0 <= w,
            n == m + 1,
    ;
    if i < m {
        lemma_level_at(level, m, w, i, c);
    } else {
        assert(level[i].len() == w);
    }
}

/// The entries of a table are where [`position`] says.
proof fn lemma_position(t: IbltVector, l: int, i: int, c: int)
    requires
        t.wf(),
        0 <= l < 4,
        0 <= i < t.params.cells(l),
        0 <= c < width(t.params),
    ensures
        0 <= position(t.params, l, i, c) < t.params.total(),
        t.flat()[position(t.params, l, i, c)] == t.grid()[l][i][c],
{
    let p = t.params;
    let w = p.limbs();
    lemma_flat_len(t);
    reveal_with_fuel(chunk_words, 5);
    reveal_with_fuel(counter_words, 5);
    assert forall|k: int| 0 <= k < 4 implies #[trigger] level_words(
        t.chunks[k]@,
        t.chunks[k].len() as nat,
    ).len() == p.cells(k) * w && t.counters[k].len() == p.cells(k) by {
        assert(t.chunks[k].len() == p.cells(k));
        assert forall|j: int| 0 <= j < t.chunks[k].len() implies (#[trigger] t.chunks[k]@[j]).len()
            == w by {
            assert(t.chunks[k][j].len() == w);
        }
        lemma_level_len(t.chunks[k]@, t.chunks[k].len() as nat, w);
    }
    assert(t.chunks[0].len() == p.cells(0) && t.chunks[1].len() == p.cells(1) && t.chunks[2].len()
        == p.cells(2) && t.chunks[3].len() == p.cells(3));
    assert(level_words(t.chunks[0]@, t.chunks[0].len() as nat).len() == p.cells(0) * w);
    assert(level_words(t.chunks[1]@, t.chunks[1].len() as nat).len() == p.cells(1) * w);
    assert(level_words(t.chunks[2]@, t.chunks[2].len() as nat).len() == p.cells(2) * w);
    assert(level_words(t.chunks[3]@, t.chunks[3].len() as nat).len() == p.cells(3) * w);
    assert(t.chunks[l].len() == p.cells(l));
    assert(t.chunks[l][i].len() == w);
    assert(t.grid()[l][i] == t.cell(l, i));
    if c > 0 {
        assert forall|j: int| 0 <= j < t.chunks[l].len() implies (#[trigger] t.chunks[l]@[j]).len()
            == w by {
            assert(t.chunks[l][j].len() == w);
        }
        lemma_level_at(t.chunks[l]@, t.chunks[l].len() as nat, w, i, c - 1);
    }
}

/// Unpacking the entry-wise sum of two packed tables gives the sum of the
/// tables.
pub proof fn law_unpack_of_sum(
    a: IbltVector,
    b: IbltVector,
    pa: Seq<HVCPoly>,
    pb: Seq<HVCPoly>,
    total: Seq<HVCPoly>,
    back: IbltVector,
)
    requires
        a.wf(),
        b.wf(),
        back.wf(),
        a.params == b.params,
        back.params == a.params,
        holds_flat(a.flat(), pa),
        holds_flat(b.flat(), pb),
        pa.len() == a.params.polys(),
        pb.len() == pa.len(),
        total.len() == pa.len(),
        forall|q: int, i: int|
            0 <= q < total.len() && 0 <= i < N ==> crate::field::cong(
                #[trigger] total[q]@[i],
                pa[q]@[i] + pb[q]@[i],
                Q as int,
            ),
        forall|j: int|
            0 <= j < a.params.total() ==> #[trigger] back.flat()[j] == total[j / 2048]@[j % 2048]
                % (Q as int),
    ensures
        peel::is_union(
            shape(a.params),
            a.grid(),
            b.grid(),
            width(a.params),
            back.grid(),
        ),
{
    let p = a.params;
    let w = width(p);
    lemma_regular(a);
    lemma_regular(b);
    lemma_regular(back);
    let (g, h, t) = (a.grid(), b.grid(), back.grid());
    assert forall|l: int| 0 <= l < g.len() implies (#[trigger] t[l]).len() == g[l].len() by {
        assert(t[l].len() == p.cells(l) && g[l].len() == p.cells(l));
    }
    assert forall|l: int| 0 <= l < g.len() implies (#[trigger] h[l]).len() == g[l].len() by {
        assert(h[l].len() == p.cells(l) && g[l].len() == p.cells(l));
    }
    assert forall|l: int, i: int, c: int|
        0 <= l < g.len() && 0 <= i < g[l].len() && 0 <= c < w implies #[trigger] t[l][i][c] == kept(
        shape(p),
        g[l][i][c] + h[l][i][c],
    ) by {
        assert(g[l].len() == p.cells(l));
        lemma_position(a, l, i, c);
        lemma_position(b, l, i, c);
        lemma_position(back, l, i, c);
        lemma_flat_len(a);
        lemma_flat_len(b);
        let j = position(p, l, i, c);
        let (q, k) = (j / 2048, j % 2048);
        assert(0 <= q < p.polys());
        assert(pa[q].coeffs[k] == a.flat()[q * N + k]);
        assert(pb[q].coeffs[k] == b.flat()[q * N + k]);
        assert(crate::field::cong(total[q]@[k], pa[q]@[k] + pb[q]@[k], Q as int));
    }
}

/// Unpacking a packed table gives the table back.
pub proof fn law_pack_round_trip(t: IbltVector, polys: Seq<HVCPoly>, back: IbltVector)
    requires
        t.wf(),
        back.wf(),
        back.params == t.params,
        holds_flat(t.flat(), polys),
        polys.len() == t.params.polys(),
        forall|j: int|
            0 <= j < t.params.total() ==> #[trigger] back.flat()[j] == polys[j / 2048]@[j % 2048]
                % (Q as int),
    ensures
        back.grid() == t.grid(),
{
    let p = t.params;
    lemma_regular(t);
    lemma_regular(back);
    let (g, h) = (t.grid(), back.grid());
    assert forall|l: int| 0 <= l < 4 implies h[l] =~= g[l] by {
        assert(g[l].len() == p.cells(l) && h[l].len() == p.cells(l));
        assert forall|i: int| 0 <= i < p.cells(l) implies h[l][i] == g[l][i] by {
            assert(g[l][i].len() == width(p) && h[l][i].len() == width(p));
            assert forall|c: int| 0 <= c < width(p) implies h[l][i][c] == g[l][i][c] by {
                lemma_position(t, l, i, c);
                lemma_position(back, l, i, c);
                lemma_flat_len(t);
                let j = position(p, l, i, c);
                let (q, k) = (j / 2048, j % 2048);
                assert(0 <= q < p.polys());
                assert(polys[q].coeffs[k] == t.flat()[q * N + k]);
                assert(0 <= g[l][i][c] < Q) by {
                    assert(t.chunks[l].len() == p.cells(l));
                    assert(residues(t.counters[l]@));
                    assert(residues(t.chunks[l][i]@));
                    assert(g[l][i] == t.cell(l, i));
                    if c == 0 {
                        assert(0 <= t.counters[l]@[i] < Q);
                    } else {
                        assert(0 <= t.chunks[l][i]@[c - 1] < Q);
                    }
                }
                vstd::arithmetic::div_mod::lemma_small_mod(g[l][i][c] as nat, Q as nat);
            }
            assert(h[l][i] =~= g[l][i]);
        }
    }
    assert(h =~= g);
}

// ---------------------------------------------------------------
// Where chunks go
// ---------------------------------------------------------------

/// The first eight bytes of a digest as a number, most significant first.
pub open spec fn leading_word(d: Seq<u8>) -> int {
    d[7] + 0x100 * d[6] + 0x1_0000 * d[5] + 0x100_0000 * d[4] + 0x1_0000_0000 * d[3]
        + 0x100_0000_0000 * d[2] + 0x1_0000_0000_0000 * d[1] + 0x100_0000_0000_0000 * d[0]
}

/// A chunk's bucket in a level differs from the word that the level and the
/// chunk hash to by a multiple of the number of buckets, whatever that number
/// is: every bucket is the place of some words, and of as many as any other but
/// for one.
pub proof fn law_buckets_are_all_used(chunk: Seq<u8>, level: nat, cells: int)
    requires
        cells >= 1,
        level < 10,
        sha256_of(seq![(48 + level) as u8] + chunk).len() == 32,
    ensures
        0 <= index_of(chunk, level, cells) < cells,
        ({
            let w = leading_word(sha256_of(seq![(48 + level) as u8] + chunk));
            &&& crate::field::cong(index_of(chunk, level, cells), w, cells)
            &&& w < cells ==> index_of(chunk, level, cells) == w
        }),
{
    let d = sha256_of(seq![(48 + level) as u8] + chunk);
    assert(decimal_of(level) =~= seq![(48 + level) as u8]);
    let b = d.take(8).reverse();
    let w = leading_word(d);
    assert(le_value(b) == w) by {
        reveal_with_fuel(le_value, 9);
    }
    vstd::arithmetic::div_mod::lemma_mod_bound(w, cells);
    crate::field::lemma_cong_mod(w, cells);
    if w < cells {
        crate::field::lemma_small(w, cells);
    }
}

/// The words of a table: the limbs of every bucket of every level in order, then
/// the counts of every level.
pub proof fn law_words_in_order(t: IbltVector, level: int, bucket: int, limb: int)
    requires
        t.wf(),
        0 <= level < 4,
        0 <= bucket < t.params.cells(level),
        0 <= limb < t.params.limbs(),
    ensures
        ({
            let (p, before) = (
                t.params,
                (if level > 0 { t.params.cells(0) } else { 0 }) + (if level > 1 {
                    t.params.cells(1)
                } else {
                    0
                }) + (if level > 2 { t.params.cells(2) } else { 0 }),
            );
            &&& t.flat()[(before + bucket) * p.limbs() + limb] == t.chunks[level][bucket][limb]
            &&& t.flat()[p.all_cells() * p.limbs() + before + bucket] == t.counters[level][bucket]
        }),
{
    let (p, w) = (t.params, t.params.limbs());
    let c = t.chunks@;
    let k = t.counters@;
    assert forall|l: int| 0 <= l < 4 implies (#[trigger] c[l]).len() == p.cells(l) && k[l].len()
        == p.cells(l) && forall|i: int|
        0 <= i < c[l].len() ==> (#[trigger] c[l][i]).len() == w by {
        assert(t.chunks[l].len() == p.cells(l));
        assert forall|i: int| 0 <= i < c[l].len() implies (#[trigger] c[l][i]).len() == w by {
            assert(t.chunks[l][i].len() == w);
        }
    }
    reveal_with_fuel(chunk_words, 5);
    reveal_with_fuel(counter_words, 5);
    let (n0, n1, n2, n3) = (p.cells(0), p.cells(1), p.cells(2), p.cells(3));
    assert(c[0].len() == n0 && c[1].len() == n1 && c[2].len() == n2 && c[3].len() == n3);
    lemma_level_len(c[0]@, n0 as nat, w);
    lemma_level_len(c[1]@, n1 as nat, w);
    lemma_level_len(c[2]@, n2 as nat, w);
    lemma_level_len(c[3]@, n3 as nat, w);
    assert(c[level].len() == p.cells(level));
    lemma_level_word(c[level]@, p.cells(level) as nat, w, bucket, limb);
    assert((n0 + n1 + n2 + n3) * w == n0 * w + n1 * w + n2 * w + n3 * w) by (nonlinear_arith);
    assert((bucket) * w + limb < p.cells(level) * w) by (nonlinear_arith)
        requires
            bucket + 1 <= p.cells(level),
            0 <= limb < w,
    ;
    assert(bucket * w >= 0) by (nonlinear_arith)
        requires
            bucket >= 0,
            w >= 0,
    ;
    assert((n0 + bucket) * w == n0 * w + bucket * w) by (nonlinear_arith);
    assert((n0 + n1 + bucket) * w == n0 * w + n1 * w + bucket * w) by (nonlinear_arith);
    assert((n0 + n1 + n2 + bucket) * w == n0 * w + n1 * w + n2 * w + bucket * w)
        by (nonlinear_arith);
}

proof fn lemma_level_word(level: Seq<Vec<i32>>, n: nat, w: int, i: int, j: int)
    requires
        n <= level.len(),
        forall|k: int| 0 <= k < n ==> (#[trigger] level[k]).len() == w,
        0 <= i < n,
        0 <= j < w,
    ensures
        level_words(level, n).len() == n * w,
        level_words(level, n)[i * w + j] == level[i][j],
    decreases n,
{
    let m = (n - 1) as nat;
    lemma_level_len(level, n, w);
    lemma_level_len(level, m, w);
    assert(i * w >= 0) by (nonlinear_arith)
        requires
            i >= 0,
            w >= 0,
    ;
    if i < m {
        lemma_level_word(level, m, w, i, j);
        assert(i * w + j < m * w) by (nonlinear_arith)
            requires
                i + 1 <= m,
                0 <= j < w,
        ;
    }
}

/// Everything is listed whenever the chunks can be put in an order in which each
/// has, in some level, a bucket that no later one has: then every full run clears
/// the table and lists all of them.
pub proof fn law_peelable_tables_are_listed(
    t: IbltVector,
    list: Seq<Seq<u8>>,
    level: Seq<int>,
    steps: Seq<(int, int)>,
    out: Seq<[u8; IBLT_CHUNK_BYTES]>,
)
    requires
        t.wf(),
        t.params.base_bits <= 15,
        t.params.message_slots >= 3,
        are_chunks(list),
        list.len() < Q,
        t.lists(list),
        is_full_run(t.params, t.grid(), steps),
        lists_run(t.params, t.grid(), steps, out),
        level.len() == list.len(),
        forall|k: int| 0 <= k < level.len() ==> 0 <= #[trigger] level[k] < 4,
        forall|k: int, j: int|
            0 <= k < j < list.len() ==> index_of(
                #[trigger] list[j],
                level[k] as nat,
                t.params.cells(level[k]),
            ) != index_of(#[trigger] list[k], level[k] as nat, t.params.cells(level[k])),
    ensures
        is_clear(after(shape(t.params), t.grid(), steps)),
        out.map_values(|c: [u8; IBLT_CHUNK_BYTES]| c@).to_multiset() == list.to_multiset(),
{
    let (p, s, w, g) = (t.params, shape(t.params), width(t.params), t.grid());
    lemma_limb_count(p.base_bits as int);
    let items = items_of(list, p);
    let rest = law_recover_is_sound(t, list, steps, out);
    assert forall|k: int, j: int| 0 <= k < j < items.len() implies (s.place)(
        #[trigger] items[j],
    )[level[k]] != (s.place)(#[trigger] items[k])[level[k]] by {
        lemma_shown_item(t, list[j]);
        lemma_shown_item(t, list[k]);
        assert(0 <= level[k] < 4);
        assert(index_of(list[j], level[k] as nat, p.cells(level[k])) != index_of(
            list[k],
            level[k] as nat,
            p.cells(level[k]),
        ));
    }
    assert(g.len() == 4);
    peel::law_peelable_tables_clear(s, g, w, items, level, steps);
    broadcast use vstd::seq_lib::group_to_multiset_ensures;

    assert(rest.to_multiset() =~= vstd::multiset::Multiset::empty());
    assert(out.map_values(|c: [u8; IBLT_CHUNK_BYTES]| c@).to_multiset() =~= list.to_multiset());
}

/// Each level has three quarters of the buckets above it, rounded down once.
pub proof fn law_level_sizes(slots: int)
    ensures
        level_cells(slots, 0) == slots,
        level_cells(slots, 1) == (3 * slots) / 4,
        level_cells(slots, 2) == (9 * slots) / 16,
        level_cells(slots, 3) == (27 * slots) / 64,
{
    reveal_with_fuel(power, 4);
    assert(power(3, 0) == 1 && power(4, 0) == 1);
    assert(power(3, 1) == 3 && power(4, 1) == 4);
    assert(power(3, 2) == 9 && power(4, 2) == 16);
    assert(power(3, 3) == 27 && power(4, 3) == 64);
}

} // verus!
