use crate::fingerprint::encoder::{
    group3, group5, pack3_b0, pack3_b1, pack3_b2, pack5_b0, pack5_b1, pack5_b2, pack5_b3, pack5_b4,
    pad8, packed3, packed5, packed_len,
};
use vstd::prelude::*;

verus! {

/// Symbol `t` (0 to 7) of a group of 3-bit symbols whose bytes start `b`.
pub open spec fn unpack3_group(b: Seq<u8>, t: int) -> u8 {
    if t == 0 {
        b[0] & 7
    } else if t == 1 {
        (b[0] >> 3u8) & 7
    } else if t == 2 {
        ((b[0] >> 6u8) & 3) | ((b[1] & 1) << 2u8)
    } else if t == 3 {
        (b[1] >> 1u8) & 7
    } else if t == 4 {
        (b[1] >> 4u8) & 7
    } else if t == 5 {
        ((b[1] >> 7u8) & 1) | ((b[2] & 3) << 1u8)
    } else if t == 6 {
        (b[2] >> 2u8) & 7
    } else {
        (b[2] >> 5u8) & 7
    }
}

/// Symbol `t` (0 to 7) of a group of 5-bit symbols whose bytes start `b`.
pub open spec fn unpack5_group(b: Seq<u8>, t: int) -> u8 {
    if t == 0 {
        b[0] & 0x1f
    } else if t == 1 {
        ((b[0] >> 5u8) & 7) | ((b[1] & 3) << 3u8)
    } else if t == 2 {
        (b[1] >> 2u8) & 0x1f
    } else if t == 3 {
        ((b[1] >> 7u8) & 1) | ((b[2] & 0xf) << 1u8)
    } else if t == 4 {
        ((b[2] >> 4u8) & 0xf) | ((b[3] & 1) << 4u8)
    } else if t == 5 {
        (b[3] >> 1u8) & 0x1f
    } else if t == 6 {
        ((b[3] >> 6u8) & 3) | ((b[4] & 7) << 2u8)
    } else {
        (b[4] >> 3u8) & 0x1f
    }
}

/// The last byte of its group that symbol `t` reaches, for 3 and 5 bits.
pub open spec fn need3(t: int) -> int {
    (3 * t + 2) / 8
}

pub open spec fn need5(t: int) -> int {
    (5 * t + 4) / 8
}

/// Symbol `i` of the 3-bit symbols packed in `r`.
pub open spec fn symbol3(r: Seq<u8>, i: int) -> u8 {
    unpack3_group(r.skip(3 * (i / 8)), i % 8)
}

/// Symbol `i` of the 5-bit symbols packed in `r`.
pub open spec fn symbol5(r: Seq<u8>, i: int) -> u8 {
    unpack5_group(r.skip(5 * (i / 8)), i % 8)
}

pub open spec fn all_below(s: Seq<u8>, bound: u8) -> bool {
    forall|k: int| 0 <= k < s.len() ==> #[trigger] s[k] < bound
}

proof fn lemma_group3_bits(s0: u8, s1: u8, s2: u8, s3: u8, s4: u8, s5: u8, s6: u8, s7: u8)
    by (bit_vector)
    requires
        s0 < 8, s1 < 8, s2 < 8, s3 < 8, s4 < 8, s5 < 8, s6 < 8, s7 < 8,
    ensures
        pack3_b0(s0, s1, s2) & 7 == s0,
        (pack3_b0(s0, s1, s2) >> 3u8) & 7 == s1,
        ((pack3_b0(s0, s1, s2) >> 6u8) & 3) | ((pack3_b1(s2, s3, s4, s5) & 1) << 2u8) == s2,
        (pack3_b1(s2, s3, s4, s5) >> 1u8) & 7 == s3,
        (pack3_b1(s2, s3, s4, s5) >> 4u8) & 7 == s4,
        ((pack3_b1(s2, s3, s4, s5) >> 7u8) & 1) | ((pack3_b2(s5, s6, s7) & 3) << 1u8) == s5,
        (pack3_b2(s5, s6, s7) >> 2u8) & 7 == s6,
        (pack3_b2(s5, s6, s7) >> 5u8) & 7 == s7,
{
}

proof fn lemma_group5_bits(s0: u8, s1: u8, s2: u8, s3: u8, s4: u8, s5: u8, s6: u8, s7: u8)
    by (bit_vector)
    requires
        s0 < 32, s1 < 32, s2 < 32, s3 < 32, s4 < 32, s5 < 32, s6 < 32, s7 < 32,
    ensures
        pack5_b0(s0, s1) & 0x1f == s0,
        ((pack5_b0(s0, s1) >> 5u8) & 7) | ((pack5_b1(s1, s2, s3) & 3) << 3u8) == s1,
        (pack5_b1(s1, s2, s3) >> 2u8) & 0x1f == s2,
        ((pack5_b1(s1, s2, s3) >> 7u8) & 1) | ((pack5_b2(s3, s4) & 0xf) << 1u8) == s3,
        ((pack5_b2(s3, s4) >> 4u8) & 0xf) | ((pack5_b3(s4, s5, s6) & 1) << 4u8) == s4,
        (pack5_b3(s4, s5, s6) >> 1u8) & 0x1f == s5,
        ((pack5_b3(s4, s5, s6) >> 6u8) & 3) | ((pack5_b4(s6, s7) & 7) << 2u8) == s6,
        (pack5_b4(s6, s7) >> 3u8) & 0x1f == s7,
{
}

/// Unpacking a packed group of eight 3-bit symbols gives them back.
proof fn lemma_group3_inverse(s: Seq<u8>, b: Seq<u8>, t: int)
    requires
        s.len() == 8,
        all_below(s, 8),
        0 <= t < 8,
        b.len() > need3(t),
        forall|k: int| 0 <= k <= need3(t) ==> #[trigger] b[k] == group3(s)[k],
    ensures
        unpack3_group(b, t) == s[t],
{
    assert(s[0] < 8 && s[1] < 8 && s[2] < 8 && s[3] < 8 && s[4] < 8 && s[5] < 8 && s[6] < 8 && s[7] < 8);
    lemma_group3_bits(s[0], s[1], s[2], s[3], s[4], s[5], s[6], s[7]);
    assert(b[0] == group3(s)[0]);
    if t >= 2 {
        assert(b[1] == group3(s)[1]);
    }
    if t >= 5 {
        assert(b[2] == group3(s)[2]);
    }
}

/// Unpacking a packed group of eight 5-bit symbols gives them back.
proof fn lemma_group5_inverse(s: Seq<u8>, b: Seq<u8>, t: int)
    requires
        s.len() == 8,
        all_below(s, 32),
        0 <= t < 8,
        b.len() > need5(t),
        forall|k: int| 0 <= k <= need5(t) ==> #[trigger] b[k] == group5(s)[k],
    ensures
        unpack5_group(b, t) == s[t],
{
    assert(s[0] < 32 && s[1] < 32 && s[2] < 32 && s[3] < 32 && s[4] < 32 && s[5] < 32 && s[6] < 32 && s[7] < 32);
    lemma_group5_bits(s[0], s[1], s[2], s[3], s[4], s[5], s[6], s[7]);
    assert(b[0] == group5(s)[0]);
    if t >= 1 {
        assert(b[1] == group5(s)[1]);
    }
    if t >= 3 {
        assert(b[2] == group5(s)[2]);
    }
    if t >= 4 {
        assert(b[3] == group5(s)[3]);
    }
    if t >= 6 {
        assert(b[4] == group5(s)[4]);
    }
}

/// `packed3` takes `packed_len(n, 3)` bytes.
pub proof fn lemma_packed3_len(s: Seq<u8>)
    ensures
        packed3(s).len() == packed_len(s.len(), 3),
    decreases s.len(),
{
    if s.len() >= 8 {
        lemma_packed3_len(s.skip(8));
    }
}

/// `packed5` takes `packed_len(n, 5)` bytes.
pub proof fn lemma_packed5_len(s: Seq<u8>)
    ensures
        packed5(s).len() == packed_len(s.len(), 5),
    decreases s.len(),
{
    if s.len() >= 8 {
        lemma_packed5_len(s.skip(8));
    }
}

/// Each symbol of `s` can be read back from `packed3(s)`, whatever follows it,
/// from bytes inside `packed3(s)`.
pub proof fn lemma_symbol3(s: Seq<u8>, rest: Seq<u8>, i: int)
    requires
        all_below(s, 8),
        0 <= i < s.len(),
    ensures
        3 * (i / 8) + need3(i % 8) < packed3(s).len(),
        symbol3(packed3(s) + rest, i) == s[i],
    decreases s.len(),
{
    let r = packed3(s) + rest;
    if i >= 8 {
        let tail = s.skip(8);
        assert(all_below(tail, 8));
        lemma_symbol3(tail, rest, i - 8);
        assert(r.skip(3) =~= packed3(tail) + rest);
        assert((i - 8) / 8 == i / 8 - 1);
        assert((i - 8) % 8 == i % 8);
        assert(r.skip(3 * (i / 8)) =~= (packed3(tail) + rest).skip(3 * ((i - 8) / 8)));
    } else {
        let t = i;
        let g = if s.len() >= 8 { s.take(8) } else { pad8(s) };
        assert(all_below(g, 8));
        let m = if s.len() >= 8 { 3 } else { packed_len(s.len(), 3) as int };
        assert(need3(t) < m);
        assert(forall|k: int| 0 <= k < m ==> #[trigger] r[k] == group3(g)[k]);
        assert(r.skip(0) =~= r);
        lemma_group3_inverse(g, r, t);
        lemma_packed3_len(s);
    }
}

/// Each symbol of `s` can be read back from `packed5(s)`, whatever follows it.
pub proof fn lemma_symbol5(s: Seq<u8>, rest: Seq<u8>, i: int)
    requires
        all_below(s, 32),
        0 <= i < s.len(),
    ensures
        5 * (i / 8) + need5(i % 8) < packed5(s).len(),
        symbol5(packed5(s) + rest, i) == s[i],
    decreases s.len(),
{
    let r = packed5(s) + rest;
    if i >= 8 {
        let tail = s.skip(8);
        assert(all_below(tail, 32));
        lemma_symbol5(tail, rest, i - 8);
        assert(r.skip(5) =~= packed5(tail) + rest);
        assert((i - 8) / 8 == i / 8 - 1);
        assert((i - 8) % 8 == i % 8);
        assert(r.skip(5 * (i / 8)) =~= (packed5(tail) + rest).skip(5 * ((i - 8) / 8)));
    } else {
        let t = i;
        let g = if s.len() >= 8 { s.take(8) } else { pad8(s) };
        assert(all_below(g, 32));
        let m = if s.len() >= 8 { 5 } else { packed_len(s.len(), 5) as int };
        assert(need5(t) < m);
        assert(forall|k: int| 0 <= k < m ==> #[trigger] r[k] == group5(g)[k]);
        assert(r.skip(0) =~= r);
        lemma_group5_inverse(g, r, t);
        lemma_packed5_len(s);
    }
}

/// Reads symbol `i` of the 3-bit symbols packed in `bytes[base..]`; none where
/// the bytes that it needs are missing.
pub fn read3(bytes: &[u8], base: usize, i: usize) -> (r: Option<u8>)
    requires
        base <= bytes@.len(),
    ensures
        r matches Some(v) ==> v == symbol3(bytes@.skip(base as int), i as int),
        r is None <==> base + 3 * (i as int / 8) + need3(i as int % 8) >= bytes@.len(),
{
    let g = i / 8;
    let t = i % 8;
    let len = bytes.len();
    if g > (len - base) / 3 {
        return None;
    }
    let at = base + 3 * g;
    let need: usize = (3 * t + 2) / 8;
    if need >= len - at {
        return None;
    }
    let ghost b = bytes@.skip(base as int).skip(3 * g);
    assert(b[0] == bytes@[at as int]);
    let b0 = bytes[at];
    let v = if t == 0 {
        b0 & 7
    } else if t == 1 {
        (b0 >> 3u8) & 7
    } else if t == 2 {
        assert(b[1] == bytes@[at + 1]);
        ((b0 >> 6u8) & 3) | ((bytes[at + 1] & 1) << 2u8)
    } else if t == 3 {
        assert(b[1] == bytes@[at + 1]);
        (bytes[at + 1] >> 1u8) & 7
    } else if t == 4 {
        assert(b[1] == bytes@[at + 1]);
        (bytes[at + 1] >> 4u8) & 7
    } else if t == 5 {
        assert(b[1] == bytes@[at + 1]);
        assert(b[2] == bytes@[at + 2]);
        ((bytes[at + 1] >> 7u8) & 1) | ((bytes[at + 2] & 3) << 1u8)
    } else if t == 6 {
        assert(b[2] == bytes@[at + 2]);
        (bytes[at + 2] >> 2u8) & 7
    } else {
        assert(b[2] == bytes@[at + 2]);
        (bytes[at + 2] >> 5u8) & 7
    };
    Some(v)
}

/// Reads symbol `i` of the 5-bit symbols packed in `bytes[base..]`; none where
/// the bytes that it needs are missing.
pub fn read5(bytes: &[u8], base: usize, i: usize) -> (r: Option<u8>)
    requires
        base <= bytes@.len(),
    ensures
        r matches Some(v) ==> v == symbol5(bytes@.skip(base as int), i as int),
        r is None <==> base + 5 * (i as int / 8) + need5(i as int % 8) >= bytes@.len(),
{
    let g = i / 8;
    let t = i % 8;
    let len = bytes.len();
    if g > (len - base) / 5 {
        return None;
    }
    let at = base + 5 * g;
    let need: usize = (5 * t + 4) / 8;
    if need >= len - at {
        return None;
    }
    let ghost b = bytes@.skip(base as int).skip(5 * g);
    assert(b[0] == bytes@[at as int]);
    let b0 = bytes[at];
    let v = if t == 0 {
        b0 & 0x1f
    } else if t == 1 {
        assert(b[1] == bytes@[at + 1]);
        ((b0 >> 5u8) & 7) | ((bytes[at + 1] & 3) << 3u8)
    } else if t == 2 {
        assert(b[1] == bytes@[at + 1]);
        (bytes[at + 1] >> 2u8) & 0x1f
    } else if t == 3 {
        assert(b[1] == bytes@[at + 1]);
        assert(b[2] == bytes@[at + 2]);
        ((bytes[at + 1] >> 7u8) & 1) | ((bytes[at + 2] & 0xf) << 1u8)
    } else if t == 4 {
        assert(b[2] == bytes@[at + 2]);
        assert(b[3] == bytes@[at + 3]);
        ((bytes[at + 2] >> 4u8) & 0xf) | ((bytes[at + 3] & 1) << 4u8)
    } else if t == 5 {
        assert(b[3] == bytes@[at + 3]);
        (bytes[at + 3] >> 1u8) & 0x1f
    } else if t == 6 {
        assert(b[3] == bytes@[at + 3]);
        assert(b[4] == bytes@[at + 4]);
        ((bytes[at + 3] >> 6u8) & 3) | ((bytes[at + 4] & 7) << 2u8)
    } else {
        assert(b[4] == bytes@[at + 4]);
        (bytes[at + 4] >> 3u8) & 0x1f
    };
    Some(v)
}

} // verus!
