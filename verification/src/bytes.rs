//! Little-endian integers in byte vectors.

use vstd::prelude::*;

verus! {

/// The `width` low bytes of `v`, least significant first.
pub open spec fn le_bytes(v: nat, width: nat) -> Seq<u8>
    decreases width,
{
    if width == 0 {
        Seq::empty()
    } else {
        seq![(v % 256) as u8] + le_bytes(v / 256, (width - 1) as nat)
    }
}

/// The integer whose little-endian bytes are `s`.
pub open spec fn le_value(s: Seq<u8>) -> nat
    decreases s.len(),
{
    if s.len() == 0 {
        0
    } else {
        s[0] as nat + 256 * le_value(s.drop_first())
    }
}

/// `256^width`.
pub open spec fn byte_span(width: nat) -> nat
    decreases width,
{
    if width == 0 {
        1
    } else {
        256 * byte_span((width - 1) as nat)
    }
}

pub proof fn lemma_le_len(v: nat, width: nat)
    ensures
        le_bytes(v, width).len() == width,
    decreases width,
{
    if width > 0 {
        lemma_le_len(v / 256, (width - 1) as nat);
    }
}

/// Reading back the bytes of a value that fits gives the value.
pub proof fn lemma_le_round_trip(v: nat, width: nat)
    requires
        v < byte_span(width),
    ensures
        le_value(le_bytes(v, width)) == v,
    decreases width,
{
    if width > 0 {
        let w = (width - 1) as nat;
        lemma_le_round_trip(v / 256, w);
        lemma_le_len(v / 256, w);
        assert(le_bytes(v, width).drop_first() =~= le_bytes(v / 256, w));
    }
}

/// Writing back the value of some bytes gives the bytes.
pub proof fn lemma_le_value(s: Seq<u8>)
    ensures
        le_bytes(le_value(s), s.len()) =~= s,
        le_value(s) < byte_span(s.len()),
    decreases s.len(),
{
    if s.len() > 0 {
        let t = s.drop_first();
        lemma_le_value(t);
        let v = le_value(s);
        assert(v % 256 == s[0] && v / 256 == le_value(t));
        assert(s =~= seq![s[0]] + t);
    }
}

/// Appends the `width` low bytes of `v`, least significant first.
pub fn push_le(out: &mut Vec<u8>, v: u64, width: usize)
    ensures
        final(out)@ == old(out)@ + le_bytes(v as nat, width as nat),
{
    let mut rest: u64 = v;
    for i in 0..width
        invariant
            out@ + le_bytes(rest as nat, (width - i) as nat) == old(out)@ + le_bytes(
                v as nat,
                width as nat,
            ),
    {
        let ghost before = out@;
        let b: u8 = (rest % 256) as u8;
        out.push(b);
        proof {
            let tail = le_bytes((rest / 256) as nat, (width - i - 1) as nat);
            assert(le_bytes(rest as nat, (width - i) as nat) == seq![b] + tail);
            assert(before + (seq![b] + tail) =~= before.push(b) + tail);
        }
        rest = rest / 256;
    }
    proof {
        assert(out@ + Seq::<u8>::empty() =~= out@);
    }
}

/// Appends the `width` low bytes of a wide `v`, least significant first.
pub fn push_le_wide(out: &mut Vec<u8>, v: u128, width: usize)
    ensures
        final(out)@ == old(out)@ + le_bytes(v as nat, width as nat),
{
    let mut rest: u128 = v;
    for i in 0..width
        invariant
            out@ + le_bytes(rest as nat, (width - i) as nat) == old(out)@ + le_bytes(
                v as nat,
                width as nat,
            ),
    {
        let ghost before = out@;
        let b: u8 = (rest % 256) as u8;
        out.push(b);
        proof {
            let tail = le_bytes((rest / 256) as nat, (width - i - 1) as nat);
            assert(le_bytes(rest as nat, (width - i) as nat) == seq![b] + tail);
            assert(before + (seq![b] + tail) =~= before.push(b) + tail);
        }
        rest = rest / 256;
    }
    proof {
        assert(out@ + Seq::<u8>::empty() =~= out@);
    }
}

/// Reads `width` little-endian bytes starting at `at`.
pub fn read_le(data: &[u8], at: usize, width: usize) -> (r: u64)
    requires
        at + width <= data.len(),
        width <= 8,
    ensures
        r == le_value(data@.subrange(at as int, at + width)),
{
    let mut v: u64 = 0;
    let mut i: usize = width;
    proof {
        assert(data@.subrange(at + width, at + width) =~= Seq::<u8>::empty());
        reveal_with_fuel(byte_span, 9);
    }
    while i > 0
        invariant
            i <= width <= 8,
            at + width <= data.len(),
            v == le_value(data@.subrange(at + i, at + width)),
            v < byte_span((width - i) as nat),
        decreases i,
    {
        i = i - 1;
        let b: u8 = data[at + i];
        proof {
            let s = data@.subrange(at + i, at + width);
            assert(s.drop_first() =~= data@.subrange(at + i + 1, at + width));
            lemma_span_bound((width - i - 1) as nat);
            reveal_with_fuel(byte_span, 2);
        }
        v = b as u64 + 256 * v;
    }
    v
}

proof fn lemma_span_bound(w: nat)
    requires
        w <= 7,
    ensures
        256 * byte_span(w) <= 0x1_0000_0000_0000_0000,
{
    reveal_with_fuel(byte_span, 9);
}

/// Appends a slice.
pub fn push_all(out: &mut Vec<u8>, data: &[u8])
    ensures
        final(out)@ == old(out)@ + data@,
{
    out.extend_from_slice(data);
}

/// Copies `data[from..to]`.
pub fn copy_range(data: &[u8], from: usize, to: usize) -> (r: Vec<u8>)
    requires
        from <= to <= data.len(),
    ensures
        r@ == data@.subrange(from as int, to as int),
{
    let mut out: Vec<u8> = Vec::with_capacity(to - from);
    for i in from..to
        invariant
            from <= to <= data.len(),
            out@ == data@.subrange(from as int, i as int),
    {
        out.push(data[i]);
    }
    out
}

} // verus!
