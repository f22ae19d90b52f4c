use chromaprint::fingerprint::encoder::{packed_int3_len, packed_int5_len};
use chromaprint::fingerprint::{decode, Encoder};

#[test]
fn encoder_test() {
    // input, expected
    let data: &[(&[u32], &[u8])] = &[
        // OneItemOneBit
        (&[1], &[0, 0, 0, 1, 1]),
        // OneItemThreeBits
        (&[7], &[0, 0, 0, 1, 73, 0]),
        // OneItemOneBitExcept
        (&[1 << 6], &[0, 0, 0, 1, 7, 0]),
        // OneItemOneBitExcept2
        (&[1 << 8], &[0, 0, 0, 1, 7, 2]),
        // TwoItems
        (&[1, 0], &[0, 0, 0, 2, 65, 0]),
        // TwoItemsNoChange
        (&[1, 1], &[0, 0, 0, 2, 1, 0]),
    ];
    let mut c = Encoder::new();
    let act = &mut Vec::new();

    for (inp, exp) in data {
        const VERSION: u8 = 123;

        act.clear();
        c.encode(inp, VERSION, act);

        let mut exp = exp.to_vec();
        exp[0] = VERSION;

        assert_eq!(act, &exp);
    }
}

#[test]
fn encode_two_items_with_version() {
    let mut out = Vec::new();
    Encoder::new().encode(&[1, 0], 123, &mut out);
    assert_eq!(out, vec![123, 0, 0, 2, 65, 0]);
}

#[test]
fn encode_exception_with_version() {
    let mut out = Vec::new();
    Encoder::new().encode(&[1 << 8], 123, &mut out);
    assert_eq!(out, vec![123, 0, 0, 1, 7, 2]);
}

#[test]
fn encode_empty() {
    let mut out = vec![9u8];
    Encoder::new().encode(&[], 5, &mut out);
    assert_eq!(out, vec![9, 5, 0, 0, 0]);
}

#[test]
fn encode_count_is_big_endian() {
    let inp = vec![0u32; 0x10203];
    let mut out = Vec::new();
    Encoder::new().encode(&inp, 1, &mut out);
    assert_eq!(&out[..4], &[1, 1, 2, 3]);
    // one terminator per value, 3 bits each
    assert_eq!(out.len(), 4 + (0x10203 * 3 + 7) / 8);
}

#[test]
fn encode_full_groups_of_eight() {
    // 0xffff_ffff: 32 gaps of 1 and a terminator, 33 normals
    let mut out = Vec::new();
    Encoder::new().encode(&[0xffff_ffff], 0, &mut out);
    assert_eq!(out.len(), 4 + (33 * 3 + 7) / 8);
    assert_eq!(&out[4..7], &[0b01_001_001, 0b1_001_001_0, 0b001_001_00]);
}

#[test]
fn encode_highest_bit_exception() {
    // a single bit 32: gap 32, normal 7, exception 25
    let mut out = Vec::new();
    Encoder::new().encode(&[1 << 31], 0, &mut out);
    assert_eq!(out, vec![0, 0, 0, 1, 7, 25]);
}


fn round_trip(s: &[u32], v: u8) {
    let mut out = Vec::new();
    Encoder::new().encode(s, v, &mut out);
    assert_eq!(decode(&out), Some((v, s.to_vec())));
}

#[test]
fn decode_recovers_encoder_examples() {
    assert_eq!(decode(&[123, 0, 0, 2, 65, 0]), Some((123, vec![1, 0])));
    assert_eq!(decode(&[123, 0, 0, 1, 7, 2]), Some((123, vec![1 << 8])));
    assert_eq!(decode(&[0, 0, 0, 1, 73, 0]), Some((0, vec![7])));
}

#[test]
fn decode_round_trips() {
    round_trip(&[], 0);
    round_trip(&[0], 1);
    round_trip(&[1 << 31, 0xffff_ffff, 0, 0x8000_0001, 0x1234_5678], 200);
    let long: Vec<u32> = (0..1000u32).map(|i| i.wrapping_mul(0x9e37_79b9) ^ (i << 7)).collect();
    round_trip(&long, 42);
}

#[test]
fn decode_rejects_bad_input() {
    // too short for a header
    assert_eq!(decode(&[1, 0, 0]), None);
    // count says one value, no symbols follow
    assert_eq!(decode(&[1, 0, 0, 1]), None);
    // a trailing byte too many
    assert_eq!(decode(&[123, 0, 0, 2, 65, 0, 0]), None);
    // the exception byte is missing
    assert_eq!(decode(&[123, 0, 0, 1, 7]), None);
    // a gap that runs past bit 32
    assert_eq!(decode(&[0, 0, 0, 1, 7, 31]), None);
}

#[test]
fn packed_lengths() {
    assert_eq!(packed_int3_len(0), 0);
    assert_eq!(packed_int3_len(1), 1);
    assert_eq!(packed_int3_len(3), 2);
    assert_eq!(packed_int3_len(8), 3);
    assert_eq!(packed_int5_len(1), 1);
    assert_eq!(packed_int5_len(2), 2);
    assert_eq!(packed_int5_len(7), 5);
    assert_eq!(packed_int5_len(8), 5);
}
