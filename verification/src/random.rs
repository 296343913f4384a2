//! Randomness: the ChaCha20 generator and the draws the protocol makes from it.

use crate::bytes::{le_value, read_le};
use crate::negacyclic::N;
use rand::{Rng, RngCore, SeedableRng};
use rand_chacha::ChaCha20Rng;
use vstd::arithmetic::div_mod::lemma_fundamental_div_mod;
use vstd::prelude::*;

verus! {

/// The generator type, `rand_chacha::ChaCha20Rng`, carried as an opaque value.
#[verifier::external_type_specification]
#[verifier::external_body]
pub struct ExChaCha20Rng(ChaCha20Rng);

/// `rand::RngCore::next_u64` on the generator. Nothing is claimed of the draw.
#[verifier::external_body]
pub(crate) fn next_u64(rng: &mut ChaCha20Rng) -> (r: u64) {
    rng.next_u64()
}

/// `rand::Rng::gen` for a 256-bit seed. Nothing is claimed of the draw.
#[verifier::external_body]
pub(crate) fn draw_seed(rng: &mut ChaCha20Rng) -> (r: [u8; 32]) {
    rng.gen::<[u8; 32]>()
}

/// `rand::Rng::gen` for a `u128`. Nothing is claimed of the draw.
#[verifier::external_body]
pub(crate) fn draw_u128(rng: &mut ChaCha20Rng) -> (r: u128) {
    rng.gen::<u128>()
}

/// `rand::Rng::gen_range` over `low..high`, which panics on an empty range: the
/// draw lies in the range.
#[verifier::external_body]
pub(crate) fn gen_range_u64(rng: &mut ChaCha20Rng, low: u64, high: u64) -> (r: u64)
    requires
        low < high,
    ensures
        low <= r < high,
{
    rng.gen_range(low..high)
}

/// `rand::Rng::gen_range` over `low..=high`, which panics on an empty range: the
/// draw lies in the range.
#[verifier::external_body]
pub(crate) fn gen_range_i64(rng: &mut ChaCha20Rng, low: i64, high: i64) -> (r: i64)
    requires
        low <= high,
    ensures
        low <= r <= high,
{
    rng.gen_range(low..=high)
}

/// `rand::SeedableRng::from_seed` for the generator. Nothing is claimed of the
/// stream it starts.
#[verifier::external_body]
pub(crate) fn rng_from_seed(seed: &[u8; 32]) -> (r: ChaCha20Rng) {
    ChaCha20Rng::from_seed(*seed)
}

// ---------------------------------------------------------------
// Draws as steps of the generator
// ---------------------------------------------------------------

/// Calls `f` on the generator.
pub(crate) fn call<A, F: FnOnce(&mut ChaCha20Rng) -> A>(f: F, rng: &mut ChaCha20Rng) -> (r: A)
    requires
        forall|m: &mut ChaCha20Rng| #[trigger] call_requires(f, (m,)),
    ensures
        exists|m: &mut ChaCha20Rng| #[trigger]
            call_ensures(f, (m,), r) && *m == *old(rng) && *final(m) == *final(rng),
{
    f(rng)
}

/// Calls `f` on the generator and two bounds.
fn call_between<A, F: FnOnce(&mut ChaCha20Rng, A, A) -> A>(
    f: F,
    rng: &mut ChaCha20Rng,
    low: A,
    high: A,
) -> (r: A)
    requires
        forall|m: &mut ChaCha20Rng| #[trigger] call_requires(f, (m, low, high)),
    ensures
        exists|m: &mut ChaCha20Rng| #[trigger]
            call_ensures(f, (m, low, high), r) && *m == *old(rng) && *final(m) == *final(rng),
{
    f(rng, low, high)
}

/// Takes a step of the generator in place.
pub(crate) fn step<A, F: FnOnce(ChaCha20Rng) -> (A, ChaCha20Rng)>(
    f: F,
    rng: &mut ChaCha20Rng,
) -> (r: A)
    requires
        forall|g: ChaCha20Rng| #[trigger] call_requires(f, (g,)),
    ensures
        call_ensures(f, (*old(rng),), (r, *final(rng))),
{
    let mut g: ChaCha20Rng = rng_from_seed(&[0u8; 32]);
    core::mem::swap(&mut g, rng);
    let (a, h): (A, ChaCha20Rng) = f(g);
    *rng = h;
    a
}

/// Takes a step between two bounds in place.
fn step_between<A, F: FnOnce(ChaCha20Rng, A, A) -> (A, ChaCha20Rng)>(
    f: F,
    rng: &mut ChaCha20Rng,
    low: A,
    high: A,
) -> (r: A)
    requires
        forall|g: ChaCha20Rng| #[trigger] call_requires(f, (g, low, high)),
    ensures
        call_ensures(f, (*old(rng), low, high), (r, *final(rng))),
{
    let mut g: ChaCha20Rng = rng_from_seed(&[0u8; 32]);
    core::mem::swap(&mut g, rng);
    let (a, h): (A, ChaCha20Rng) = f(g, low, high);
    *rng = h;
    a
}

/// One `next_u64`, from generator to generator.
fn word_of(g: ChaCha20Rng) -> (r: (u64, ChaCha20Rng))
    ensures
        exists|m: &mut ChaCha20Rng| #[trigger]
            call_ensures(next_u64, (m,), r.0) && *m == g && *final(m) == r.1,
{
    let mut h: ChaCha20Rng = g;
    let w: u64 = call(next_u64, &mut h);
    assert(exists|m: &mut ChaCha20Rng| #[trigger]
        call_ensures(next_u64, (m,), w) && *m == g && *final(m) == h);
    let r: (u64, ChaCha20Rng) = (w, h);
    assert(r.0 == w && r.1 == h);
    r
}

/// One `draw_seed`, from generator to generator.
fn seed_of(g: ChaCha20Rng) -> (r: ([u8; 32], ChaCha20Rng))
    ensures
        exists|m: &mut ChaCha20Rng| #[trigger]
            call_ensures(draw_seed, (m,), r.0) && *m == g && *final(m) == r.1,
{
    let mut h: ChaCha20Rng = g;
    let w: [u8; 32] = call(draw_seed, &mut h);
    assert(exists|m: &mut ChaCha20Rng| #[trigger]
        call_ensures(draw_seed, (m,), w) && *m == g && *final(m) == h);
    let r: ([u8; 32], ChaCha20Rng) = (w, h);
    assert(r.0 == w && r.1 == h);
    r
}

/// One `draw_u128`, from generator to generator.
fn wide_of(g: ChaCha20Rng) -> (r: (u128, ChaCha20Rng))
    ensures
        exists|m: &mut ChaCha20Rng| #[trigger]
            call_ensures(draw_u128, (m,), r.0) && *m == g && *final(m) == r.1,
{
    let mut h: ChaCha20Rng = g;
    let w: u128 = call(draw_u128, &mut h);
    assert(exists|m: &mut ChaCha20Rng| #[trigger]
        call_ensures(draw_u128, (m,), w) && *m == g && *final(m) == h);
    let r: (u128, ChaCha20Rng) = (w, h);
    assert(r.0 == w && r.1 == h);
    r
}

/// One `gen_range_u64`, from generator to generator.
fn between_of(g: ChaCha20Rng, low: u64, high: u64) -> (r: (u64, ChaCha20Rng))
    requires
        low < high,
    ensures
        exists|m: &mut ChaCha20Rng| #[trigger]
            call_ensures(gen_range_u64, (m, low, high), r.0) && *m == g && *final(m) == r.1,
{
    let mut h: ChaCha20Rng = g;
    let w: u64 = call_between(gen_range_u64, &mut h, low, high);
    assert(exists|m: &mut ChaCha20Rng| #[trigger]
        call_ensures(gen_range_u64, (m, low, high), w) && *m == g && *final(m) == h);
    let r: (u64, ChaCha20Rng) = (w, h);
    assert(r.0 == w && r.1 == h);
    r
}

/// One `gen_range_i64`, from generator to generator.
fn signed_between_of(g: ChaCha20Rng, low: i64, high: i64) -> (r: (i64, ChaCha20Rng))
    requires
        low <= high,
    ensures
        exists|m: &mut ChaCha20Rng| #[trigger]
            call_ensures(gen_range_i64, (m, low, high), r.0) && *m == g && *final(m) == r.1,
{
    let mut h: ChaCha20Rng = g;
    let w: i64 = call_between(gen_range_i64, &mut h, low, high);
    assert(exists|m: &mut ChaCha20Rng| #[trigger]
        call_ensures(gen_range_i64, (m, low, high), w) && *m == g && *final(m) == h);
    let r: (i64, ChaCha20Rng) = (w, h);
    assert(r.0 == w && r.1 == h);
    r
}

/// The generator `g` gives the word `w` and goes on as `h`.
pub closed spec fn gives_word(g: ChaCha20Rng, w: u64, h: ChaCha20Rng) -> bool {
    call_ensures(word_of, (g,), (w, h))
}

/// The generator `g` gives a seed and goes on as `h`.
pub closed spec fn gives_seed(g: ChaCha20Rng, seed: [u8; 32], h: ChaCha20Rng) -> bool {
    call_ensures(seed_of, (g,), (seed, h))
}

/// The generator `g` gives a 128-bit word and goes on as `h`.
pub closed spec fn gives_wide(g: ChaCha20Rng, w: u128, h: ChaCha20Rng) -> bool {
    call_ensures(wide_of, (g,), (w, h))
}

/// The generator `g` gives `v` out of `low..high` and goes on as `h`.
pub closed spec fn gives_between(
    g: ChaCha20Rng,
    low: u64,
    high: u64,
    v: u64,
    h: ChaCha20Rng,
) -> bool {
    call_ensures(between_of, (g, low, high), (v, h))
}

/// The generator `g` gives `v` out of `low..=high` and goes on as `h`.
pub closed spec fn gives_signed(
    g: ChaCha20Rng,
    low: i64,
    high: i64,
    v: i64,
    h: ChaCha20Rng,
) -> bool {
    call_ensures(signed_between_of, (g, low, high), (v, h))
}

/// The seed starts the generator `g`.
pub closed spec fn starts(seed: [u8; 32], g: ChaCha20Rng) -> bool {
    call_ensures(rng_from_seed, (&seed,), g)
}

/// A word that the generator gives is one that its `next_u64` returns.
pub(crate) proof fn law_words_are_drawn(g: ChaCha20Rng, w: u64, h: ChaCha20Rng)
    requires
        gives_word(g, w, h),
    ensures
        exists|m: &mut ChaCha20Rng| #[trigger]
            call_ensures(next_u64, (m,), w) && *m == g && *final(m) == h,
{
}

/// A seed that the generator gives is one that it draws.
pub(crate) proof fn law_seeds_are_drawn(g: ChaCha20Rng, seed: [u8; 32], h: ChaCha20Rng)
    requires
        gives_seed(g, seed, h),
    ensures
        exists|m: &mut ChaCha20Rng| #[trigger]
            call_ensures(draw_seed, (m,), seed) && *m == g && *final(m) == h,
{
}

/// A 128-bit word that the generator gives is one that it draws.
pub(crate) proof fn law_wide_words_are_drawn(g: ChaCha20Rng, w: u128, h: ChaCha20Rng)
    requires
        gives_wide(g, w, h),
    ensures
        exists|m: &mut ChaCha20Rng| #[trigger]
            call_ensures(draw_u128, (m,), w) && *m == g && *final(m) == h,
{
}

/// What the generator gives out of a range is what `gen_range` returns, and lies
/// in the range.
pub(crate) proof fn law_ranges_are_drawn(
    g: ChaCha20Rng,
    low: u64,
    high: u64,
    v: u64,
    h: ChaCha20Rng,
)
    requires
        gives_between(g, low, high, v, h),
    ensures
        low <= v < high,
        exists|m: &mut ChaCha20Rng| #[trigger]
            call_ensures(gen_range_u64, (m, low, high), v) && *m == g && *final(m) == h,
{
}

/// The same of signed bounds, both of them included.
pub(crate) proof fn law_signed_ranges_are_drawn(
    g: ChaCha20Rng,
    low: i64,
    high: i64,
    v: i64,
    h: ChaCha20Rng,
)
    requires
        gives_signed(g, low, high, v, h),
    ensures
        low <= v <= high,
        exists|m: &mut ChaCha20Rng| #[trigger]
            call_ensures(gen_range_i64, (m, low, high), v) && *m == g && *final(m) == h,
{
}

/// What a seed starts is the generator of that seed.
pub(crate) proof fn law_seeds_start_generators(seed: [u8; 32], g: ChaCha20Rng)
    requires
        starts(seed, g),
    ensures
        call_ensures(rng_from_seed, (&seed,), g),
{
}

/// The next 128-bit word.
pub fn next_wide(rng: &mut ChaCha20Rng) -> (r: u128)
    ensures
        gives_wide(*old(rng), r, *final(rng)),
{
    step(wide_of, rng)
}

/// The next value out of `low..high`.
pub fn next_between(rng: &mut ChaCha20Rng, low: u64, high: u64) -> (r: u64)
    requires
        low < high,
    ensures
        gives_between(*old(rng), low, high, r, *final(rng)),
        low <= r < high,
{
    step_between(between_of, rng, low, high)
}

/// The next value out of `low..=high`.
pub fn next_signed(rng: &mut ChaCha20Rng, low: i64, high: i64) -> (r: i64)
    requires
        low <= high,
    ensures
        gives_signed(*old(rng), low, high, r, *final(rng)),
        low <= r <= high,
{
    step_between(signed_between_of, rng, low, high)
}

fn call_seed<F: FnOnce(&[u8; 32]) -> ChaCha20Rng>(f: F, seed: &[u8; 32]) -> (r: ChaCha20Rng)
    requires
        call_requires(f, (seed,)),
    ensures
        call_ensures(f, (seed,), r),
{
    f(seed)
}

/// The generator of a seed.
pub fn started(seed: &[u8; 32]) -> (r: ChaCha20Rng)
    ensures
        starts(*seed, r),
{
    call_seed(rng_from_seed, seed)
}

/// Going through the generators `gs`, each draw of `xs` is made from one to the
/// next.
pub open spec fn linked<A>(
    draws: spec_fn(ChaCha20Rng, A, ChaCha20Rng) -> bool,
    gs: Seq<ChaCha20Rng>,
    xs: Seq<A>,
) -> bool {
    &&& gs.len() == xs.len() + 1
    &&& forall|k: int| 0 <= k < xs.len() ==> draws(gs[k], #[trigger] xs[k], gs[k + 1])
}

/// From `g` on, the draws `xs` are made one after the other, and the generator
/// goes on as `h`.
pub open spec fn run<A>(
    draws: spec_fn(ChaCha20Rng, A, ChaCha20Rng) -> bool,
    g: ChaCha20Rng,
    xs: Seq<A>,
    h: ChaCha20Rng,
) -> bool {
    exists|gs: Seq<ChaCha20Rng>| #[trigger]
        linked(draws, gs, xs) && gs[0] == g && gs[xs.len() as int] == h
}

pub proof fn lemma_run_empty<A>(
    draws: spec_fn(ChaCha20Rng, A, ChaCha20Rng) -> bool,
    g: ChaCha20Rng,
)
    ensures
        run(draws, g, Seq::<A>::empty(), g),
{
    assert(linked(draws, seq![g], Seq::<A>::empty()));
}

pub proof fn lemma_run_push<A>(
    draws: spec_fn(ChaCha20Rng, A, ChaCha20Rng) -> bool,
    g: ChaCha20Rng,
    xs: Seq<A>,
    m: ChaCha20Rng,
    x: A,
    h: ChaCha20Rng,
)
    requires
        run(draws, g, xs, m),
        draws(m, x, h),
    ensures
        run(draws, g, xs.push(x), h),
{
    let gs = choose|gs: Seq<ChaCha20Rng>| #[trigger]
        linked(draws, gs, xs) && gs[0] == g && gs[xs.len() as int] == m;
    let (all, ys) = (gs.push(h), xs.push(x));
    assert forall|k: int| 0 <= k < ys.len() implies draws(all[k], #[trigger] ys[k], all[k + 1]) by {
        if k < xs.len() {
            assert(xs[k] == ys[k]);
        }
    }
    assert(linked(draws, all, ys));
}

/// Words that the generator gives.
pub open spec fn words() -> spec_fn(ChaCha20Rng, u64, ChaCha20Rng) -> bool {
    |g: ChaCha20Rng, w: u64, h: ChaCha20Rng| gives_word(g, w, h)
}

/// Seeds that the generator gives.
pub open spec fn seeds() -> spec_fn(ChaCha20Rng, [u8; 32], ChaCha20Rng) -> bool {
    |g: ChaCha20Rng, seed: [u8; 32], h: ChaCha20Rng| gives_seed(g, seed, h)
}

/// Values out of `low..=high` that the generator gives.
pub open spec fn signed_values(low: i64, high: i64) -> spec_fn(
    ChaCha20Rng,
    int,
    ChaCha20Rng,
) -> bool {
    |g: ChaCha20Rng, v: int, h: ChaCha20Rng|
        low <= v <= high && gives_signed(g, low, high, v as i64, h)
}

/// Words drawn one after the other are successive draws of the generator.
pub proof fn law_words_in_turn(g: ChaCha20Rng, ws: Seq<u64>, h: ChaCha20Rng)
    requires
        run(words(), g, ws, h),
    ensures
        exists|gs: Seq<ChaCha20Rng>|
            #![trigger gs.len()]
            gs.len() == ws.len() + 1 && gs[0] == g && gs.last() == h && (forall|k: int|
                0 <= k < ws.len() ==> gives_word(gs[k], #[trigger] ws[k], gs[k + 1])),
{
    let gs = choose|gs: Seq<ChaCha20Rng>| #[trigger]
        linked(words(), gs, ws) && gs[0] == g && gs[ws.len() as int] == h;
    assert(gs.len() == ws.len() + 1);
}

/// Seeds drawn one after the other are successive draws of the generator.
pub proof fn law_seeds_in_turn(g: ChaCha20Rng, all: Seq<[u8; 32]>, h: ChaCha20Rng)
    requires
        run(seeds(), g, all, h),
    ensures
        exists|gs: Seq<ChaCha20Rng>|
            #![trigger gs.len()]
            gs.len() == all.len() + 1 && gs[0] == g && gs.last() == h && (forall|k: int|
                0 <= k < all.len() ==> gives_seed(gs[k], #[trigger] all[k], gs[k + 1])),
{
    let gs = choose|gs: Seq<ChaCha20Rng>| #[trigger]
        linked(seeds(), gs, all) && gs[0] == g && gs[all.len() as int] == h;
    assert(gs.len() == all.len() + 1);
}

/// Values drawn out of a range one after the other are successive draws.
pub proof fn law_ranges_in_turn(
    g: ChaCha20Rng,
    low: i64,
    high: i64,
    vs: Seq<int>,
    h: ChaCha20Rng,
)
    requires
        run(signed_values(low, high), g, vs, h),
    ensures
        exists|gs: Seq<ChaCha20Rng>|
            #![trigger gs.len()]
            gs.len() == vs.len() + 1 && gs[0] == g && gs.last() == h && (forall|k: int|
                0 <= k < vs.len() ==> low <= #[trigger] vs[k] <= high && gives_signed(
                    gs[k],
                    low,
                    high,
                    vs[k] as i64,
                    gs[k + 1],
                )),
{
    let gs = choose|gs: Seq<ChaCha20Rng>| #[trigger]
        linked(signed_values(low, high), gs, vs) && gs[0] == g && gs[vs.len() as int] == h;
    assert(gs.len() == vs.len() + 1);
}

/// Draws `n` independent 256-bit seeds, serially and in order.
pub fn fork_seeds(rng: &mut ChaCha20Rng, n: usize) -> (r: Vec<[u8; 32]>)
    ensures
        r.len() == n,
        run(seeds(), *old(rng), r@, *final(rng)),
{
    let mut out: Vec<[u8; 32]> = Vec::with_capacity(n);
    proof {
        lemma_run_empty(seeds(), *rng);
        assert(out@ =~= Seq::<[u8; 32]>::empty());
    }
    for i in 0..n
        invariant
            out.len() == i,
            run(seeds(), *old(rng), out@, *rng),
    {
        let ghost m = *rng;
        let seed: [u8; 32] = step(seed_of, rng);
        proof {
            lemma_run_push(seeds(), *old(rng), out@, m, seed, *rng);
        }
        out.push(seed);
    }
    out
}

/// The largest multiple of `q` that is at most `2^64`.
pub open spec fn cutoff(q: int) -> int {
    (0x1_0000_0000_0000_0000int / q) * q
}

/// The residue that a drawn word gives: words at or above the cutoff are
/// rejected, so that every residue has the same number of words.
pub fn residue_of(word: u64, q: u64) -> (r: Option<u64>)
    requires
        q > 0,
    ensures
        r == (if word < cutoff(q as int) {
            Some((word % q) as u64)
        } else {
            None
        }),
{
    let qw: u128 = q as u128;
    proof {
        lemma_fundamental_div_mod(0x1_0000_0000_0000_0000, q as int);
        let (d, q0) = (0x1_0000_0000_0000_0000int / q as int, q as int);
        assert(d * q0 == q0 * d) by (nonlinear_arith);
        assert(0 <= q0 * d <= 0x1_0000_0000_0000_0000);
    }
    let threshold: u128 = (0x1_0000_0000_0000_0000u128 / qw) * qw;
    if (word as u128) < threshold {
        Some(word % q)
    } else {
        None
    }
}

/// 64-bit words the generator gives before it cycles: a 64-bit counter over
/// blocks of eight words.
pub const PERIOD: u128 = 0x8_0000_0000_0000_0000;

/// The words given from `g` on, up to the first one below the cutoff, leave the
/// residue `v` of that one, and the generator goes on as `h`. (After a whole
/// cycle of the generator without such a word the last one stands in.)
pub open spec fn is_uniform_draw(g: ChaCha20Rng, q: int, v: int, h: ChaCha20Rng) -> bool {
    exists|ws: Seq<u64>| #[trigger]
        run(words(), g, ws, h) && ws.len() >= 1 && (forall|k: int|
            0 <= k < ws.len() - 1 ==> #[trigger] ws[k] >= cutoff(q)) && (ws.last() < cutoff(q)
            || ws.len() > PERIOD) && v == ws.last() as int % q
}

/// A residue below `q`: that of the first word drawn which is not rejected.
/// The search goes once round the generator's cycle, which holds every word
/// there is to draw.
pub fn uniform_below(rng: &mut ChaCha20Rng, q: u64) -> (r: u64)
    requires
        q > 0,
    ensures
        r < q,
        is_uniform_draw(*old(rng), q as int, r as int, *final(rng)),
{
    let mut word: u64 = step(word_of, rng);
    let mut tries: u128 = PERIOD;
    let ghost mut ws: Seq<u64> = Seq::empty().push(word);
    proof {
        lemma_run_empty(words(), *old(rng));
        lemma_run_push(words(), *old(rng), Seq::empty(), *old(rng), word, *rng);
    }
    while tries > 0
        invariant
            q > 0,
            run(words(), *old(rng), ws, *rng),
            ws.len() + tries == PERIOD + 1,
            tries <= PERIOD,
            ws.last() == word,
            forall|k: int| 0 <= k < ws.len() - 1 ==> #[trigger] ws[k] >= cutoff(q as int),
        decreases tries,
    {
        if let Some(residue) = residue_of(word, q) {
            return residue;
        }
        let ghost m = *rng;
        word = step(word_of, rng);
        proof {
            lemma_run_push(words(), *old(rng), ws, m, word, *rng);
            ws = ws.push(word);
        }
        tries = tries - 1;
    }
    word % q
}

/// Every residue has equally many words: those below the cutoff come in whole
/// rounds of `q`, and fewer than `q` words are beyond it.
pub proof fn law_residues_are_alike(q: int, v: int, k: int)
    requires
        0 < q <= 0x1_0000_0000_0000_0000,
        0 <= v < q,
        0 <= k < 0x1_0000_0000_0000_0000int / q,
    ensures
        k * q + v < cutoff(q) <= 0x1_0000_0000_0000_0000,
        0x1_0000_0000_0000_0000 - cutoff(q) < q,
        (k * q + v) % q == v,
{
    let d = 0x1_0000_0000_0000_0000int / q;
    lemma_fundamental_div_mod(0x1_0000_0000_0000_0000, q);
    vstd::arithmetic::div_mod::lemma_mod_bound(0x1_0000_0000_0000_0000, q);
    assert(q * d == d * q) by (nonlinear_arith);
    assert(k * q + q <= d * q) by (nonlinear_arith)
        requires
            k + 1 <= d,
            q > 0,
    ;
    vstd::arithmetic::div_mod::lemma_mod_multiples_vanish(k, v, q);
    vstd::arithmetic::div_mod::lemma_small_mod(v as nat, q as nat);
    assert(q * k == k * q) by (nonlinear_arith);
}

/// Residues below `q` that the generator gives.
pub open spec fn uniform_values(q: int) -> spec_fn(ChaCha20Rng, int, ChaCha20Rng) -> bool {
    |g: ChaCha20Rng, v: int, h: ChaCha20Rng| is_uniform_draw(g, q, v, h)
}

/// Residues drawn one after the other are successive draws.
pub proof fn law_residues_in_turn(g: ChaCha20Rng, q: int, vs: Seq<int>, h: ChaCha20Rng)
    requires
        run(uniform_values(q), g, vs, h),
    ensures
        exists|gs: Seq<ChaCha20Rng>|
            #![trigger gs.len()]
            gs.len() == vs.len() + 1 && gs[0] == g && gs.last() == h && (forall|k: int|
                0 <= k < vs.len() ==> is_uniform_draw(gs[k], q, #[trigger] vs[k], gs[k + 1])),
{
    let gs = choose|gs: Seq<ChaCha20Rng>| #[trigger]
        linked(uniform_values(q), gs, vs) && gs[0] == g && gs[vs.len() as int] == h;
    assert(gs.len() == vs.len() + 1);
}

/// A draw is the residue of a word that the generator gives, the words before
/// it being among the fewer than `q` that would favour some residues.
pub proof fn law_draws_come_from_words(g: ChaCha20Rng, q: int, v: int, h: ChaCha20Rng)
    requires
        is_uniform_draw(g, q, v, h),
        0 < q <= u64::MAX,
    ensures
        0 <= v < q,
        exists|ws: Seq<u64>|
            #![trigger ws.last()]
            run(words(), g, ws, h) && ws.len() >= 1 && crate::field::cong(v, ws.last() as int, q)
                && (forall|k: int|
                0 <= k < ws.len() - 1 ==> (#[trigger] ws[k]) + q > 0x1_0000_0000_0000_0000),
{
    let ws = choose|ws: Seq<u64>| #[trigger]
        run(words(), g, ws, h) && ws.len() >= 1 && (forall|k: int|
            0 <= k < ws.len() - 1 ==> #[trigger] ws[k] >= cutoff(q)) && (ws.last() < cutoff(q)
            || ws.len() > PERIOD) && v == ws.last() as int % q;
    vstd::arithmetic::div_mod::lemma_mod_bound(ws.last() as int, q);
    crate::field::lemma_cong_mod(ws.last() as int, q);
    lemma_fundamental_div_mod(0x1_0000_0000_0000_0000, q);
    vstd::arithmetic::div_mod::lemma_mod_bound(0x1_0000_0000_0000_0000, q);
    let d = 0x1_0000_0000_0000_0000int / q;
    assert(q * d == d * q) by (nonlinear_arith);
    assert(ws.last() as int % q == v);
}

/// The next `N` residues below `q`, in order.
pub fn uniform_residues(rng: &mut ChaCha20Rng, q: u64) -> (r: [u64; N])
    requires
        q > 0,
    ensures
        forall|i: int| 0 <= i < N ==> #[trigger] r@[i] < q,
        run(
            uniform_values(q as int),
            *old(rng),
            Seq::new(N as nat, |i: int| r@[i] as int),
            *final(rng),
        ),
{
    let mut out: [u64; N] = [0u64; N];
    let ghost mut vs: Seq<int> = Seq::empty();
    proof {
        lemma_run_empty(uniform_values(q as int), *rng);
    }
    for i in 0..N
        invariant
            q > 0,
            vs.len() == i,
            forall|j: int| 0 <= j < i ==> #[trigger] out@[j] < q,
            forall|j: int| 0 <= j < i ==> vs[j] == #[trigger] out@[j],
            run(uniform_values(q as int), *old(rng), vs, *rng),
    {
        let ghost m = *rng;
        let v: u64 = uniform_below(rng, q);
        out[i] = v;
        proof {
            lemma_run_push(uniform_values(q as int), *old(rng), vs, m, v as int, *rng);
            vs = vs.push(v as int);
        }
    }
    assert(vs =~= Seq::new(N as nat, |i: int| out@[i] as int));
    out
}

/// The residues that centered coefficients stand for, `half` above them.
pub open spec fn lifted(c: Seq<int>, half: int) -> Seq<int> {
    Seq::new(N as nat, |i: int| c[i] + half)
}

/// Elements whose coefficients the generator gives, each `half` above its place.
pub open spec fn elements(q: int, half: int) -> spec_fn(
    ChaCha20Rng,
    Seq<int>,
    ChaCha20Rng,
) -> bool {
    |g: ChaCha20Rng, c: Seq<int>, h: ChaCha20Rng| run(uniform_values(q), g, lifted(c, half), h)
}

/// Elements drawn one after the other are successive draws, and each of them
/// takes its coefficients one after the other.
pub proof fn law_elements_in_turn(
    g: ChaCha20Rng,
    q: int,
    half: int,
    s: Seq<Seq<int>>,
    h: ChaCha20Rng,
)
    requires
        run(elements(q, half), g, s, h),
    ensures
        exists|gs: Seq<ChaCha20Rng>|
            #![trigger gs.len()]
            gs.len() == s.len() + 1 && gs[0] == g && gs.last() == h && (forall|k: int|
                0 <= k < s.len() ==> run(
                    uniform_values(q),
                    gs[k],
                    lifted(#[trigger] s[k], half),
                    gs[k + 1],
                )),
        forall|k: int, i: int|
            0 <= k < s.len() && 0 <= i < N ==> #[trigger] lifted(s[k], half)[i] == s[k][i] + half,
{
    let gs = choose|gs: Seq<ChaCha20Rng>| #[trigger]
        linked(elements(q, half), gs, s) && gs[0] == g && gs[s.len() as int] == h;
    assert(gs.len() == s.len() + 1);
}

// ---------------------------------------------------------------
// The stream of a seed
// ---------------------------------------------------------------

/// `n` bytes of a seed's stream, from 32-bit word `at` of it.
pub uninterp spec fn chacha_bytes(seed: Seq<u8>, at: nat, n: nat) -> Seq<u8>;

/// `rand_chacha::ChaCha20Rng`: `from_seed`, then `set_word_pos`, then
/// `fill_bytes`. The generator's output is a function of the seed and the
/// position alone.
#[verifier::external_body]
fn seeded_bytes(seed: &[u8; 32], at: u128, n: usize) -> (r: Vec<u8>)
    ensures
        r.len() == n,
        r@ == chacha_bytes(seed@, at as nat, n as nat),
{
    let mut rng = ChaCha20Rng::from_seed(*seed);
    rng.set_word_pos(at);
    let mut out = vec![0u8; n];
    rng.fill_bytes(&mut out);
    out
}

/// 64-bit words in a page of the stream.
pub const PAGE_WORDS: usize = 512;

/// 64-bit word `i` of a seed's stream, read in pages.
pub open spec fn stream_word(seed: Seq<u8>, i: nat) -> nat {
    let k = (i % 512) as int;
    le_value(chacha_bytes(seed, (i / 512) * 1024, 4096).subrange(8 * k, 8 * k + 8))
}

/// The place after `at`; the stream cycles.
pub open spec fn place_next(at: nat) -> nat {
    (at + 1) % (PERIOD as nat)
}

/// The first residue that the words from `at` give, and the place after it:
/// words past the cutoff are skipped, however many there are in `tries`.
pub open spec fn pick(seed: Seq<u8>, q: int, at: nat, tries: nat) -> (int, nat)
    decreases tries,
{
    let w = stream_word(seed, at);
    if tries == 0 || w < cutoff(q) {
        (w as int % q, place_next(at))
    } else {
        pick(seed, q, place_next(at), (tries - 1) as nat)
    }
}

/// The place in the stream after `n` residues drawn from `at`.
pub open spec fn place_after(seed: Seq<u8>, q: int, at: nat, n: nat) -> nat
    decreases n,
{
    if n == 0 {
        at
    } else {
        pick(seed, q, place_after(seed, q, at, (n - 1) as nat), PERIOD as nat).1
    }
}

/// Residue `j` of those drawn from `at`. A draw looks through the whole cycle.
pub open spec fn draw_at(seed: Seq<u8>, q: int, at: nat, j: nat) -> int {
    pick(seed, q, place_after(seed, q, at, j), PERIOD as nat).0
}

/// Word `n` places after `at`.
pub open spec fn word_from(seed: Seq<u8>, at: nat, n: nat) -> nat {
    stream_word(seed, (at + n) % (PERIOD as nat))
}

proof fn lemma_pick(seed: Seq<u8>, q: int, at: nat, tries: nat, n: nat)
    requires
        at < PERIOD,
        n <= tries,
        word_from(seed, at, n) < cutoff(q),
        forall|m: nat| m < n ==> #[trigger] word_from(seed, at, m) >= cutoff(q),
    ensures
        pick(seed, q, at, tries) == (
            word_from(seed, at, n) as int % q,
            (at + n + 1) as nat % (PERIOD as nat),
        ),
    decreases n,
{
    vstd::arithmetic::div_mod::lemma_small_mod(at, PERIOD as nat);
    if n > 0 {
        assert(word_from(seed, at, 0) >= cutoff(q));
        let next = place_next(at);
        assert forall|m: nat| word_from(seed, next, m) == #[trigger] word_from(seed, at, m + 1) by {
            vstd::arithmetic::div_mod::lemma_add_mod_noop(
                (at + 1) as int,
                m as int,
                PERIOD as int,
            );
            vstd::arithmetic::div_mod::lemma_add_mod_noop(next as int, m as int, PERIOD as int);
            vstd::arithmetic::div_mod::lemma_mod_twice((at + 1) as int, PERIOD as int);
        }
        let k = (n - 1) as nat;
        assert(word_from(seed, next, k) == word_from(seed, at, k + 1));
        assert forall|m: nat| m < k implies #[trigger] word_from(seed, next, m) >= cutoff(q) by {
            assert(word_from(seed, next, m) == word_from(seed, at, m + 1));
        }
        lemma_pick(seed, q, next, (tries - 1) as nat, k);
        vstd::arithmetic::div_mod::lemma_add_mod_noop((at + 1) as int, n as int, PERIOD as int);
        vstd::arithmetic::div_mod::lemma_add_mod_noop(next as int, n as int, PERIOD as int);
        vstd::arithmetic::div_mod::lemma_mod_twice((at + 1) as int, PERIOD as int);
    }
}

/// Rejected words do not count: a draw gives the residue of the first word
/// below the cutoff, however many come before it.
pub proof fn law_rejections_do_not_count(seed: Seq<u8>, q: int, at: nat, n: nat)
    requires
        at < PERIOD,
        n < PERIOD,
        word_from(seed, at, n) < cutoff(q),
        forall|m: nat| m < n ==> #[trigger] word_from(seed, at, m) >= cutoff(q),
    ensures
        draw_at(seed, q, at, 0) == word_from(seed, at, n) as int % q,
        place_after(seed, q, at, 1) == (at + n + 1) as nat % (PERIOD as nat),
{
    reveal_with_fuel(place_after, 2);
    lemma_pick(seed, q, at, PERIOD as nat, n);
}

/// A reader of a seed's stream.
pub struct Stream {
    pub seed: [u8; 32],
    pub at: u128,
    pub page: Vec<u8>,
    pub page_at: u128,
}

impl Stream {
    /// The page at hand is that of its place.
    pub open spec fn wf(&self) -> bool {
        &&& self.page@ == chacha_bytes(self.seed@, (self.page_at * 1024) as nat, 4096)
        &&& self.page.len() == 4096
        &&& self.at < PERIOD
    }

    /// Starts at the front of the stream.
    pub fn new(seed: [u8; 32]) -> (r: Self)
        ensures
            r.wf(),
            r.seed == seed,
            r.at == 0,
    {
        let page: Vec<u8> = seeded_bytes(&seed, 0, 8 * PAGE_WORDS);
        Stream { seed, at: 0, page, page_at: 0 }
    }

    /// The next word.
    fn word(&mut self) -> (r: u64)
        requires
            old(self).wf(),
        ensures
            final(self).wf(),
            final(self).seed == old(self).seed,
            final(self).at == place_next(old(self).at as nat),
            r == stream_word(old(self).seed@, old(self).at as nat),
    {
        let i: u128 = self.at / PAGE_WORDS as u128;
        if i != self.page_at {
            self.page = seeded_bytes(&self.seed, i * 2 * PAGE_WORDS as u128, 8 * PAGE_WORDS);
            self.page_at = i;
        }
        let k: usize = (self.at % PAGE_WORDS as u128) as usize;
        self.at = (self.at + 1) % PERIOD;
        read_le(&self.page, 8 * k, 8)
    }

    /// The next residue below `q`.
    pub fn below(&mut self, q: u64) -> (r: u64)
        requires
            old(self).wf(),
            q > 0,
        ensures
            final(self).wf(),
            final(self).seed == old(self).seed,
            (r as int, final(self).at as nat) == pick(
                old(self).seed@,
                q as int,
                old(self).at as nat,
                PERIOD as nat,
            ),
            r < q,
    {
        let mut tries: u128 = PERIOD;
        loop
            invariant
                self.wf(),
                self.seed == old(self).seed,
                q > 0,
                pick(self.seed@, q as int, self.at as nat, tries as nat) == pick(
                    old(self).seed@,
                    q as int,
                    old(self).at as nat,
                    PERIOD as nat,
                ),
            decreases tries,
        {
            let w: u64 = self.word();
            match residue_of(w, q) {
                Some(v) => {
                    return v;
                },
                None => {
                    if tries == 0 {
                        return w % q;
                    }
                },
            }
            tries = tries - 1;
        }
    }

    /// The next `N` residues below `q`, in order.
    pub fn residues(&mut self, q: u64) -> (r: [u64; N])
        requires
            old(self).wf(),
            q > 0,
        ensures
            final(self).wf(),
            final(self).seed == old(self).seed,
            final(self).at == place_after(
                old(self).seed@,
                q as int,
                old(self).at as nat,
                N as nat,
            ),
            forall|j: int|
                0 <= j < N ==> #[trigger] r[j] == draw_at(
                    old(self).seed@,
                    q as int,
                    old(self).at as nat,
                    j as nat,
                ) && r[j] < q,
    {
        let mut out: [u64; N] = [0u64; N];
        for i in 0..N
            invariant
                self.wf(),
                self.seed == old(self).seed,
                q > 0,
                self.at == place_after(self.seed@, q as int, old(self).at as nat, i as nat),
                forall|j: int|
                    0 <= j < i ==> #[trigger] out[j] == draw_at(
                        self.seed@,
                        q as int,
                        old(self).at as nat,
                        j as nat,
                    ) && out[j] < q,
        {
            out[i] = self.below(q);
        }
        out
    }
}

/// Drawing on from a later place goes on with the same residues.
pub proof fn lemma_draw_on(seed: Seq<u8>, q: int, at: nat, m: nat, n: nat)
    ensures
        place_after(seed, q, place_after(seed, q, at, m), n) == place_after(seed, q, at, m + n),
        draw_at(seed, q, place_after(seed, q, at, m), n) == draw_at(seed, q, at, m + n),
    decreases n,
{
    if n > 0 {
        lemma_draw_on(seed, q, at, m, (n - 1) as nat);
        assert((m + n - 1) as nat == m + (n - 1) as nat);
    }
}

/// Draws from a seed's stream follow on one another: the residues after the first
/// `m` are those drawn from the place where these end.
pub proof fn law_stream_draws_follow_on(seed: Seq<u8>, q: int, at: nat, m: nat, n: nat)
    ensures
        place_after(seed, q, at, m + n) == place_after(seed, q, place_after(seed, q, at, m), n),
        draw_at(seed, q, at, m + n) == draw_at(seed, q, place_after(seed, q, at, m), n),
    decreases n,
{
    if n > 0 {
        law_stream_draws_follow_on(seed, q, at, m, (n - 1) as nat);
        assert((m + n - 1) as nat == m + (n - 1) as nat);
    }
}

} // verus!
