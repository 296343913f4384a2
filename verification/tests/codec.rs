use panetiere::codec::{
    allocate, beacon, decode, decode_ranges, decode_raw, encode, encode_at, encode_raw, CodecError,
    BYTES_PER_COEFF, BYTES_PER_POLY, HEADER_LEN,
};
use panetiere::{KahePoly, N};

#[test]
fn round_trip_empty() {
    let polys = encode(b"");
    assert_eq!(decode(&polys).unwrap(), b"");
}

#[test]
fn round_trip_short() {
    let msg = b"hello panetiere";
    let polys = encode(msg);
    assert_eq!(polys.len(), 1);
    assert_eq!(decode(&polys).unwrap(), msg);
}

#[test]
fn round_trip_exact_one_poly() {
    let msg = vec![0xABu8; BYTES_PER_POLY - HEADER_LEN];
    let polys = encode(&msg);
    assert_eq!(polys.len(), 1);
    assert_eq!(decode(&polys).unwrap(), msg);
}

#[test]
fn round_trip_multi_poly() {
    let msg: Vec<u8> = (0..BYTES_PER_POLY * 3 + 500).map(|i| (i * 37) as u8).collect();
    let polys = encode(&msg);
    assert!(polys.len() >= 4);
    assert_eq!(decode(&polys).unwrap(), msg);
}

#[test]
fn round_trip_odd_length() {
    let msg = b"odd-length-message-with-31-byte";
    assert_eq!(msg.len() % BYTES_PER_COEFF, 3);
    let polys = encode(msg);
    assert_eq!(decode(&polys).unwrap().as_slice(), msg);
}

#[test]
fn raw_round_trip() {
    let buf = vec![0xCDu8; BYTES_PER_POLY];
    let polys = encode_raw(&buf);
    assert_eq!(polys.len(), 1);
    assert_eq!(decode_raw(&polys).unwrap(), buf);
}

#[test]
fn raw_sum_of_disjoint_slots_decodes() {
    let mut buf_a = vec![0u8; BYTES_PER_POLY];
    let mut buf_b = vec![0u8; BYTES_PER_POLY];
    buf_a[0..4].copy_from_slice(b"AAAA");
    buf_b[100..104].copy_from_slice(b"BBBB");

    let pa = encode_raw(&buf_a);
    let pb = encode_raw(&buf_b);
    let summed: Vec<KahePoly> = pa.iter().zip(pb.iter()).map(|(x, y)| *x + *y).collect();
    let out = decode_raw(&summed).unwrap();
    assert_eq!(&out[0..4], b"AAAA");
    assert_eq!(&out[100..104], b"BBBB");
}

#[test]
fn decode_rejects_empty() {
    assert_eq!(decode(&[]), Err(CodecError::Empty));
}

#[test]
fn decode_rejects_oob_coeff() {
    let mut coeffs = [0i64; N];
    coeffs[0] = 1 << 33;
    let polys = vec![KahePoly::from_coeffs(coeffs)];
    match decode(&polys) {
        Err(CodecError::CoeffOutOfRange { .. }) => {}
        other => panic!("expected CoeffOutOfRange, got {:?}", other),
    }
}

#[test]
fn out_of_range_names_the_coefficient() {
    let mut coeffs = [0i64; N];
    coeffs[7] = -3;
    let polys = vec![KahePoly::from_coeffs(coeffs)];
    assert_eq!(decode_raw(&polys), Err(CodecError::CoeffOutOfRange { index: 7, value: -3 }));
}

#[test]
fn claimed_length_must_be_there() {
    let mut coeffs = [0i64; N];
    coeffs[0] = BYTES_PER_POLY as i64;
    let polys = vec![KahePoly::from_coeffs(coeffs)];
    assert_eq!(
        decode(&polys),
        Err(CodecError::LengthOverflow {
            claimed: BYTES_PER_POLY as u32,
            available: BYTES_PER_POLY - HEADER_LEN
        })
    );
}

#[test]
fn beacon_order_independent() {
    assert_eq!(beacon(&[7, 42, 1000]), beacon(&[1000, 7, 42, 42]));
}

#[test]
fn beacon_is_no_function_of_length_alone() {
    assert_ne!(beacon(&[7, 42, 1000]), beacon(&[7, 42, 1001]));
}

#[test]
fn allocate_packs_and_overflows() {
    let vector_bytes = 2 * BYTES_PER_POLY;
    let res = vec![(10u16, BYTES_PER_POLY), (20, BYTES_PER_POLY), (30, 16)];
    let offs = allocate(&res, 0, vector_bytes);
    assert_eq!(offs[0], Some(0));
    assert_eq!(offs[1], Some(BYTES_PER_POLY));
    assert_eq!(offs[2], None);
}

#[test]
fn allocate_drops_rand_tie() {
    let offs = allocate(&[(5u16, 16), (5, 16), (9, 16)], 0, BYTES_PER_POLY);
    assert_eq!(offs[0], None);
    assert_eq!(offs[1], None);
    assert!(offs[2].is_some());
}

#[test]
fn slot_sum_round_trips_per_reservation() {
    let vector_bytes = 2 * BYTES_PER_POLY;
    let res = vec![(10u16, 5usize), (20, 7)];
    let b = beacon(&[10, 20]);
    let offs = allocate(&res, b, vector_bytes);
    let (o0, o1) = (offs[0].unwrap(), offs[1].unwrap());

    let pa = encode_at(o0, vector_bytes, b"AAAAA");
    let pb = encode_at(o1, vector_bytes, b"BBBBBBB");
    let summed: Vec<KahePoly> = pa.iter().zip(pb.iter()).map(|(x, y)| *x + *y).collect();

    let out = decode_ranges(&summed, &[(o0, 5), (o1, 7)]).unwrap();
    assert_eq!(out[0], b"AAAAA");
    assert_eq!(out[1], b"BBBBBBB");
}

#[test]
fn a_round_of_slots_reads_back() {
    let vector_bytes = BYTES_PER_POLY;
    let texts: [&[u8]; 3] = [b"first", b"the second", b""];
    let res: Vec<(u16, usize)> =
        [300u16, 100, 200].iter().zip(texts).map(|(&r, t)| (r, t.len())).collect();
    let offs = allocate(&res, 150, vector_bytes);
    let at: Vec<usize> = offs.iter().map(|o| o.unwrap()).collect();
    let mut sum = vec![KahePoly::default(); 1];
    for (&o, text) in at.iter().zip(texts) {
        sum[0] = sum[0] + encode_at(o, vector_bytes, text)[0];
    }
    let ranges: Vec<(usize, usize)> = at.iter().zip(texts).map(|(&o, t)| (o, t.len())).collect();
    assert_eq!(decode_ranges(&sum, &ranges).unwrap(), texts.to_vec());
}

#[test]
fn shifting_the_ring_keeps_the_slots() {
    let res = [(10u16, 16usize), (500, 32), (65_000, 8), (10, 4)];
    let moved: Vec<(u16, usize)> =
        res.iter().map(|&(r, len)| (r.wrapping_add(1000), len)).collect();
    assert_eq!(allocate(&res, 40_000, 4096), allocate(&moved, 41_000, 4096));
    assert_eq!(allocate(&res, 65_000, 4096), allocate(&moved, 464, 4096));
}

#[test]
fn listing_in_another_order_keeps_the_slots() {
    let res = [(10u16, 16usize), (500, 32), (65_000, 8), (7, 4096)];
    let offs = allocate(&res, 600, 4096);
    let turned: Vec<(u16, usize)> = res.iter().rev().copied().collect();
    let back: Vec<Option<usize>> = allocate(&turned, 600, 4096).into_iter().rev().collect();
    assert_eq!(offs, back);
    assert_eq!(offs, vec![Some(8), Some(24), Some(0), None]);
}
