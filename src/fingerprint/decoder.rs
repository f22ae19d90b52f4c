use crate::fingerprint::encoder::{
    deltas, encoded, exceptions, header, normals, normals_from, packed3, packed5, packed_len,
    stream_exceptions, stream_normals, value_exceptions, value_normals, Encoder,
};
use crate::fingerprint::encoder::{
    delta, exceptions_from, lemma_log2_half, log2_floor, packed_int3_len,
};
use crate::fingerprint::gaps::{first_gap, lemma_first_symbol, lemma_normals_range, lemma_streams_below};
use crate::fingerprint::unpack::{
    all_below, need3, need5, symbol3, symbol5, lemma_packed3_len, lemma_packed5_len, lemma_symbol3, lemma_symbol5, read3, read5,
};
use vstd::arithmetic::power2::{lemma2_to64, lemma_pow2_unfold, pow2};
use vstd::prelude::*;

verus! {

/// `b` is the encoding of `s` under the version in its first byte.
pub open spec fn encodes(b: Seq<u8>, s: Seq<u32>) -> bool {
    &&& b.len() >= 4
    &&& s.len() < 0x100_0000
    &&& b == encoded(s, b[0])
}

/// Every sequence of fewer than 2^24 subfingerprints, under any version, has an
/// encoding that starts with that version; by `decode`'s contract, decoding it
/// gives back the version and the sequence.
pub proof fn lemma_round_trip(s: Seq<u32>, v: u8)
    requires
        s.len() < 0x100_0000,
    ensures
        encoded(s, v)[0] == v,
        encodes(encoded(s, v), s),
{
    assert(encoded(s, v)[0] == header(s.len(), v)[0]);
}

/// What every encoding is made of.
proof fn lemma_encoding_parts(b: Seq<u8>, s: Seq<u32>)
    requires
        encodes(b, s),
    ensures
        b.skip(4) == packed3(normals(s)) + packed5(exceptions(s)),
        b.len() == 4 + packed_len(normals(s).len(), 3) + packed_len(exceptions(s).len(), 5),
        s.len() == b[1] as int * 0x10000 + b[2] as int * 0x100 + b[3] as int,
        crate::fingerprint::unpack::all_below(normals(s), 8),
        crate::fingerprint::unpack::all_below(exceptions(s), 32),
{
    let h = header(s.len(), b[0]);
    assert(b.skip(4) =~= packed3(normals(s)) + packed5(exceptions(s)));
    lemma_packed3_len(normals(s));
    lemma_packed5_len(exceptions(s));
    lemma_streams_below(deltas(s));
    let n = s.len() as int;
    assert(b[1] == h[1] && b[2] == h[2] && b[3] == h[3]);
    assert(n == (n / 0x10000 % 256) * 0x10000 + (n / 0x100 % 256) * 0x100 + n % 256);
}

/// Index of the first normal symbol after the values `d.skip(k)` end, when
/// `normals(s).skip(i)` starts with them.
proof fn lemma_skip_value(s: Seq<u32>, k: int, i: int)
    requires
        0 <= k < s.len(),
        0 <= i <= normals(s).len(),
        normals(s).skip(i) == stream_normals(deltas(s).skip(k)),
    ensures
        normals(s).skip(i) == value_normals(deltas(s)[k]) + stream_normals(deltas(s).skip(k + 1)),
        i + value_normals(deltas(s)[k]).len() <= normals(s).len(),
{
    let d = deltas(s).skip(k);
    assert(d.skip(1) =~= deltas(s).skip(k + 1));
    assert(d[0] == deltas(s)[k]);
    assert(normals(s).skip(i).len() == normals(s).len() - i);
}

/// Halving the weight of the bits still to read.
proof fn lemma_mod_double(x: int, w: int)
    requires
        x >= 0,
        w > 0,
    ensures
        x % (2 * w) == x % w + w * ((x / w) % 2),
        x / (2 * w) == (x / w) / 2,
{
    vstd::arithmetic::div_mod::lemma_fundamental_div_mod(x, w);
    let q = x / w;
    let r = x % w;
    let q2 = q / 2;
    let e = q % 2;
    assert(x == (2 * w) * q2 + (w * e + r)) by (nonlinear_arith)
        requires
            x == w * q + r,
            q == 2 * q2 + e,
    ;
    assert(0 <= w * e + r < 2 * w) by (nonlinear_arith)
        requires
            0 <= e <= 1,
            0 <= r < w,
    ;
    vstd::arithmetic::div_mod::lemma_fundamental_div_mod_converse(x, 2 * w, q2, w * e + r);
}

/// Undoing the XOR with the previous subfingerprint.
proof fn lemma_undelta(s: Seq<u32>, k: int)
    requires
        0 < k < s.len(),
    ensures
        delta(s, k) ^ s[k - 1] == s[k],
{
    let a = s[k];
    let b = s[k - 1];
    assert((a ^ b) ^ b == a) by (bit_vector);
}

/// Whether two byte strings are equal.
fn same_bytes(a: &[u8], b: &[u8]) -> (r: bool)
    ensures
        r == (a@ == b@),
{
    if a.len() != b.len() {
        return false;
    }
    let mut i: usize = 0;
    while i < a.len()
        invariant
            a@.len() == b@.len(),
            i <= a@.len(),
            forall|k: int| 0 <= k < i ==> a@[k] == b@[k],
        decreases a@.len() - i,
    {
        if a[i] != b[i] {
            return false;
        }
        i += 1;
    }
    assert(a@ =~= b@);
    true
}

/// Decodes what `Encoder::encode` made: the version and the subfingerprints.
/// Bytes that are not such an encoding give none.
pub fn decode(bytes: &[u8]) -> (r: Option<(u8, Vec<u32>)>)
    requires
        bytes@.len() < usize::MAX / 64,
    ensures
        r matches Some((v, s)) ==> bytes@ == encoded(s@, v),
        forall|s: Seq<u32>| #[trigger] encodes(bytes@, s) ==> (r matches Some((v, t)) && v == bytes@[0]
            && t@ == s),
{
    let len = bytes.len();
    if len < 4 {
        return None;
    }
    let version = bytes[0];
    let n: usize = bytes[1] as usize * 0x10000 + bytes[2] as usize * 0x100 + bytes[3] as usize;
    proof {
        assert forall|s2: Seq<u32>| #[trigger] encodes(bytes@, s2) implies s2.len() == n by {
            lemma_encoding_parts(bytes@, s2);
        }
    }
    // First pass: where the normal symbols end.
    let mut i: usize = 0;
    let mut k: usize = 0;
    proof {
        assert forall|s2: Seq<u32>| #[trigger] encodes(bytes@, s2) implies normals(s2).skip(0)
            == stream_normals(deltas(s2).skip(0)) by {
            assert(normals(s2).skip(0) =~= normals(s2));
            assert(deltas(s2).skip(0) =~= deltas(s2));
        }
    }
    while k < n
        invariant
            len == bytes@.len() < usize::MAX / 64,
            len >= 4,
            k <= n,
            i <= 8 * len,
            forall|s2: Seq<u32>| #[trigger] encodes(bytes@, s2) ==> s2.len() == n && i <= normals(s2).len()
                && normals(s2).skip(i as int) == stream_normals(deltas(s2).skip(k as int)),
        decreases n - k,
    {
        let ghost i0 = i;
        proof {
            assert forall|s2: Seq<u32>| #[trigger] encodes(bytes@, s2) implies normals(s2).skip(i0 as int)
                == value_normals(deltas(s2)[k as int]) + stream_normals(deltas(s2).skip(k + 1)) && i0
                + value_normals(deltas(s2)[k as int]).len() <= normals(s2).len() by {
                lemma_skip_value(s2, k as int, i0 as int);
            }
        }
        loop
            invariant_except_break
                forall|s2: Seq<u32>| #[trigger] encodes(bytes@, s2) ==> i - i0 <= normals_from(
                    deltas(s2)[k as int],
                    1,
                    0,
                ).len(),
            invariant
                len == bytes@.len() < usize::MAX / 64,
                len >= 4,
                k < n,
                i0 <= i <= 8 * len,
                forall|s2: Seq<u32>| #[trigger] encodes(bytes@, s2) ==> s2.len() == n && normals(s2).skip(
                    i0 as int,
                ) == value_normals(deltas(s2)[k as int]) + stream_normals(deltas(s2).skip(k + 1)) && i0
                    + value_normals(deltas(s2)[k as int]).len() <= normals(s2).len(),
            ensures
                i0 <= i <= 8 * len,
                forall|s2: Seq<u32>| #[trigger] encodes(bytes@, s2) ==> s2.len() == n && i == i0
                    + value_normals(deltas(s2)[k as int]).len() && normals(s2).skip(i0 as int)
                    == value_normals(deltas(s2)[k as int]) + stream_normals(deltas(s2).skip(k + 1)),
            decreases 8 * len - i,
        {
            let sym = read3(bytes, 4, i);
            proof {
                assert forall|s2: Seq<u32>| #[trigger] encodes(bytes@, s2) implies sym == Some(
                    normals(s2)[i as int],
                ) by {
                    lemma_encoding_parts(bytes@, s2);
                    lemma_symbol3(normals(s2), packed5(exceptions(s2)), i as int);
                }
            }
            match sym {
                None => {
                    return None;
                },
                Some(v) => {
                    proof {
                        assert forall|s2: Seq<u32>| #[trigger] encodes(bytes@, s2) implies (v == 0)
                            == (i - i0 == normals_from(deltas(s2)[k as int], 1, 0).len()) by {
                            let x = deltas(s2)[k as int];
                            let nf = normals_from(x, 1, 0);
                            lemma_normals_range(x, 1, 0);
                            assert(normals(s2)[i as int] == normals(s2).skip(i0 as int)[i - i0]);
                            if i - i0 < nf.len() {
                                assert(value_normals(x)[i - i0] == nf[i - i0]);
                            }
                        }
                    }
                    assert(i < 8 * len) by {
                        assert(4 + 3 * (i as int / 8) < len);
                    }
                    i += 1;
                    if v == 0 {
                        break;
                    }
                },
            }
        }
        proof {
            assert forall|s2: Seq<u32>| #[trigger] encodes(bytes@, s2) implies normals(s2).skip(i as int)
                == stream_normals(deltas(s2).skip(k + 1)) by {
                let x = deltas(s2)[k as int];
                let t = normals(s2).skip(i0 as int);
                assert(normals(s2).skip(i as int) =~= t.skip(value_normals(x).len() as int));
                assert(t.skip(value_normals(x).len() as int) =~= stream_normals(deltas(s2).skip(k + 1)));
                assert(i <= normals(s2).len());
            }
        }
        k += 1;
    }
    // Second pass: the values, bit by bit, with their exceptions.
    let nb = i;
    proof {
        assert forall|s2: Seq<u32>| #[trigger] encodes(bytes@, s2) implies nb == normals(s2).len() by {
            assert(deltas(s2).skip(n as int) =~= Seq::<u32>::empty());
            assert(normals(s2).skip(nb as int).len() == 0);
        }
    }
    let base5 = 4 + packed_int3_len(nb);
    if base5 > len {
        proof {
            assert forall|s2: Seq<u32>| #[trigger] encodes(bytes@, s2) implies false by {
                lemma_encoding_parts(bytes@, s2);
            }
        }
        return None;
    }
    proof {
        assert forall|s2: Seq<u32>| #[trigger] encodes(bytes@, s2) implies streams_frame(
            bytes@,
            base5 as int,
            normals(s2),
            exceptions(s2),
        ) && normals(s2).skip(0) == stream_normals(deltas(s2).skip(0)) && exceptions(s2).skip(0)
            == stream_exceptions(deltas(s2).skip(0)) && Seq::<u32>::empty() == s2.take(0) by {
            lemma_encoding_parts(bytes@, s2);
            lemma_packed3_len(normals(s2));
            assert(normals(s2).skip(0) =~= normals(s2));
            assert(exceptions(s2).skip(0) =~= exceptions(s2));
            assert(deltas(s2).skip(0) =~= deltas(s2));
            assert(s2.take(0) =~= Seq::<u32>::empty());
        }
    }
    let mut values: Vec<u32> = Vec::new();
    let mut i: usize = 0;
    let mut j: usize = 0;
    let mut k: usize = 0;
    let mut prev: u32 = 0;
    while k < n
        invariant
            len == bytes@.len() < usize::MAX / 64,
            len >= 4,
            4 <= base5 <= len,
            n < 0x100_0000,
            k <= n,
            i <= 8 * len,
            j <= 8 * len,
            values@.len() == k,
            forall|s2: Seq<u32>| #[trigger] encodes(bytes@, s2) ==> {
                &&& s2.len() == n
                &&& streams_frame(bytes@, base5 as int, normals(s2), exceptions(s2))
                &&& i <= normals(s2).len()
                &&& j <= exceptions(s2).len()
                &&& normals(s2).skip(i as int) == stream_normals(deltas(s2).skip(k as int))
                &&& exceptions(s2).skip(j as int) == stream_exceptions(deltas(s2).skip(k as int))
                &&& values@ == s2.take(k as int)
                &&& (k > 0 ==> prev == s2[k - 1])
            },
        decreases n - k,
    {
        proof {
            assert forall|s2: Seq<u32>| #[trigger] encodes(bytes@, s2) implies value_frame(
                bytes@,
                base5 as int,
                i as int,
                j as int,
                normals(s2),
                exceptions(s2),
                deltas(s2)[k as int],
                stream_normals(deltas(s2).skip(k + 1)),
                stream_exceptions(deltas(s2).skip(k + 1)),
            ) by {
                let d = deltas(s2).skip(k as int);
                assert(d.skip(1) =~= deltas(s2).skip(k + 1));
                assert(d[0] == deltas(s2)[k as int]);
            }
        }
        let got = decode_value(bytes, base5, i, j);
        let (x, i2, j2) = match got {
            None => {
                proof {
                    assert forall|s2: Seq<u32>| #[trigger] encodes(bytes@, s2) implies false by {
                        assert(value_frame(
                            bytes@,
                            base5 as int,
                            i as int,
                            j as int,
                            normals(s2),
                            exceptions(s2),
                            deltas(s2)[k as int],
                            stream_normals(deltas(s2).skip(k + 1)),
                            stream_exceptions(deltas(s2).skip(k + 1)),
                        ));
                    }
                }
                return None;
            },
            Some(t) => t,
        };
        let sv = if k == 0 {
            x
        } else {
            x ^ prev
        };
        proof {
            assert forall|s2: Seq<u32>| #[trigger] encodes(bytes@, s2) implies sv == s2[k as int] && i2
                <= normals(s2).len() && j2 <= exceptions(s2).len() && normals(s2).skip(i2 as int)
                == stream_normals(deltas(s2).skip(k + 1)) && exceptions(s2).skip(j2 as int)
                == stream_exceptions(deltas(s2).skip(k + 1)) by {
                assert(value_frame(
                    bytes@,
                    base5 as int,
                    i as int,
                    j as int,
                    normals(s2),
                    exceptions(s2),
                    deltas(s2)[k as int],
                    stream_normals(deltas(s2).skip(k + 1)),
                    stream_exceptions(deltas(s2).skip(k + 1)),
                ));
                if k > 0 {
                    lemma_undelta(s2, k as int);
                }
                lemma_encoding_parts(bytes@, s2);
                assert(normals(s2).len() <= 8 * len);
                assert(exceptions(s2).len() <= 8 * len);
                assert(deltas(s2)[k as int] == delta(s2, k as int));
                assert(normals(s2).skip(i as int).len() == normals(s2).len() - i);
                assert(exceptions(s2).skip(j as int).len() == exceptions(s2).len() - j);
            }
        }
        values.push(sv);
        prev = sv;
        i = i2;
        j = j2;
        proof {
            assert forall|s2: Seq<u32>| #[trigger] encodes(bytes@, s2) implies values@ == s2.take(k + 1) by {
                assert(values@ =~= s2.take(k + 1));
            }
        }
        k += 1;
    }
    let mut re: Vec<u8> = Vec::new();
    let mut encoder = Encoder::new();
    encoder.encode(values.as_slice(), version, &mut re);
    if same_bytes(re.as_slice(), bytes) {
        Some((version, values))
    } else {
        proof {
            assert forall|s2: Seq<u32>| #[trigger] encodes(bytes@, s2) implies false by {
                assert(values@ =~= s2);
                assert(re@ =~= encoded(s2, version));
            }
        }
        None
    }
}

/// `2^(bit - 1)` for `bit` up to 33 fits in 33 bits, and up to 32 in 32 bits.
proof fn lemma_pow2_bound(bit: u32)
    requires
        1 <= bit <= 33,
    ensures
        pow2((bit - 1) as nat) <= 0x1_0000_0000,
        bit <= 32 ==> pow2((bit - 1) as nat) <= 0x8000_0000,
{
    lemma2_to64();
    if bit < 32 {
        vstd::arithmetic::power2::lemma_pow2_strictly_increases((bit - 1) as nat, 31);
    }
    if bit < 33 {
        vstd::arithmetic::power2::lemma_pow2_strictly_increases((bit - 1) as nat, 32);
    }
}

/// The bytes `b` hold, after the header, the normal symbols `nn` and then the
/// exception symbols `ee`, the latter from `base5` on.
pub open spec fn streams_frame(b: Seq<u8>, base5: int, nn: Seq<u8>, ee: Seq<u8>) -> bool {
    &&& b.len() >= 4
    &&& b.skip(4) == packed3(nn) + packed5(ee)
    &&& base5 == 4 + packed3(nn).len()
    &&& all_below(nn, 8)
    &&& all_below(ee, 32)
}

/// Value `x` is next in both streams, from normal symbol `i` and exception symbol `j`.
pub open spec fn value_frame(
    b: Seq<u8>,
    base5: int,
    i: int,
    j: int,
    nn: Seq<u8>,
    ee: Seq<u8>,
    x: u32,
    tn: Seq<u8>,
    te: Seq<u8>,
) -> bool {
    &&& streams_frame(b, base5, nn, ee)
    &&& 0 <= i <= nn.len()
    &&& 0 <= j <= ee.len()
    &&& nn.skip(i) == value_normals(x) + tn
    &&& ee.skip(j) == value_exceptions(x) + te
}

/// Midway through value `x`: its bits below `weight` are `acc`, and the symbols
/// of the rest come next.
pub open spec fn bits_frame(
    b: Seq<u8>,
    base5: int,
    i: int,
    j: int,
    nn: Seq<u8>,
    ee: Seq<u8>,
    x: u32,
    tn: Seq<u8>,
    te: Seq<u8>,
    acc: int,
    weight: int,
    bit: int,
    last: int,
) -> bool {
    let y = (x as int / weight) as u32;
    &&& streams_frame(b, base5, nn, ee)
    &&& 0 <= i <= nn.len()
    &&& 0 <= j <= ee.len()
    &&& weight > 0
    &&& 0 <= last < bit
    &&& nn.skip(i) == normals_from(y, bit, last) + seq![0u8] + tn
    &&& ee.skip(j) == exceptions_from(y, bit, last) + te
    &&& acc == x as int % weight
    &&& (y != 0 ==> bit + log2_floor(y) <= 32)
}

/// What the next symbols say, midway through a value.
proof fn lemma_next_symbols(
    b: Seq<u8>,
    base5: int,
    i: int,
    j: int,
    nn: Seq<u8>,
    ee: Seq<u8>,
    x: u32,
    tn: Seq<u8>,
    te: Seq<u8>,
    acc: int,
    weight: int,
    bit: int,
    last: int,
)
    requires
        bits_frame(b, base5, i, j, nn, ee, x, tn, te, acc, weight, bit, last),
    ensures
        ({
            let y = (x as int / weight) as u32;
            let fg = first_gap(y, bit, last);
            &&& i < nn.len()
            &&& 4 + 3 * (i / 8) + need3(i % 8) < b.len()
            &&& symbol3(b.skip(4), i) == nn[i]
            &&& (nn[i] == 0) == (y == 0)
            &&& (y != 0 ==> bit <= 32 && nn[i] == (if fg >= 7 { 7u8 } else { fg as u8 }))
            &&& (y != 0 ==> bit - last <= fg <= 32 && (fg == bit - last) == (y % 2 == 1))
            &&& (y != 0 && fg >= 7 ==> j < ee.len() && base5 + 5 * (j / 8) + need5(j % 8) < b.len()
                && symbol5(b.skip(base5), j) == ee[j] && ee[j] == (fg - 7) as u8)
        }),
{
    let y = (x as int / weight) as u32;
    let t = nn.skip(i);
    assert(t.len() > 0);
    assert(nn[i] == t[0]);
    lemma_symbol3(nn, packed5(ee), i);
    lemma_packed3_len(nn);
    lemma_packed5_len(ee);
    assert(b.skip(4).skip(3 * (i / 8)) =~= b.skip(4 + 3 * (i / 8)));
    if y != 0 {
        lemma_first_symbol(y, bit, last);
        let fg = first_gap(y, bit, last);
        if fg >= 7 {
            let u = ee.skip(j);
            assert(u[0] == exceptions_from(y, bit, last)[0]);
            assert(u.len() > 0);
            assert(ee[j] == u[0]);
            assert(b.skip(base5) =~= b.skip(4).skip(packed3(nn).len() as int));
            assert(b.skip(4).skip(packed3(nn).len() as int) =~= packed5(ee) + Seq::<u8>::empty());
            lemma_symbol5(ee, Seq::<u8>::empty(), j);
        }
    }
}

/// After the bit at `bit` is read, the frame moves on by one bit.
proof fn lemma_bit_step(
    b: Seq<u8>,
    base5: int,
    i: int,
    j: int,
    nn: Seq<u8>,
    ee: Seq<u8>,
    x: u32,
    tn: Seq<u8>,
    te: Seq<u8>,
    acc: int,
    weight: int,
    bit: int,
    last: int,
)
    requires
        bits_frame(b, base5, i, j, nn, ee, x, tn, te, acc, weight, bit, last),
        (x as int / weight) as u32 != 0,
    ensures
        ({
            let y = (x as int / weight) as u32;
            let g = bit - last;
            if y % 2 == 1 {
                bits_frame(
                    b,
                    base5,
                    i + 1,
                    if g >= 7 { j + 1 } else { j },
                    nn,
                    ee,
                    x,
                    tn,
                    te,
                    acc + weight,
                    2 * weight,
                    bit + 1,
                    bit,
                )
            } else {
                bits_frame(b, base5, i, j, nn, ee, x, tn, te, acc, 2 * weight, bit + 1, last)
            }
        }),
{
    let y = (x as int / weight) as u32;
    let y2 = (x as int / (2 * weight)) as u32;
    lemma_mod_double(x as int, weight);
    assert(x as int / weight <= x as int) by {
        vstd::arithmetic::div_mod::lemma_div_is_ordered_by_denominator(x as int, 1, weight);
    }
    assert(y2 == y / 2);
    lemma_log2_half(y);
    let g = bit - last;
    if y % 2 == 1 {
        assert(normals_from(y, bit, last) == seq![if g >= 7 { 7u8 } else { g as u8 }] + normals_from(y2, bit + 1, bit));
        assert(nn.skip(i + 1) =~= nn.skip(i).skip(1));
        assert(nn.skip(i).skip(1) =~= normals_from(y2, bit + 1, bit) + seq![0u8] + tn);
        if g >= 7 {
            assert(exceptions_from(y, bit, last) == seq![(g - 7) as u8] + exceptions_from(y2, bit + 1, bit));
            assert(ee.skip(j + 1) =~= ee.skip(j).skip(1));
            assert(ee.skip(j).skip(1) =~= exceptions_from(y2, bit + 1, bit) + te);
        } else {
            assert(exceptions_from(y, bit, last) =~= exceptions_from(y2, bit + 1, bit));
        }
        assert(i + 1 <= nn.len()) by {
            assert(nn.skip(i).len() > 0);
        }
        if g >= 7 {
            assert(j + 1 <= ee.len()) by {
                assert(ee.skip(j).len() > 0);
            }
        }
    } else {
        assert(normals_from(y, bit, last) == normals_from(y2, bit + 1, last));
        assert(exceptions_from(y, bit, last) == exceptions_from(y2, bit + 1, last));
    }
}

/// Reads one value from normal symbol `i` and exception symbol `j` on; gives it
/// and where the next value starts in each stream.
fn decode_value(bytes: &[u8], base5: usize, i: usize, j: usize) -> (r: Option<(u32, usize, usize)>)
    requires
        4 <= base5 <= bytes@.len() < usize::MAX / 64,
        i <= 8 * bytes@.len(),
        j <= 8 * bytes@.len(),
    ensures
        r matches Some((_, i2, j2)) ==> i2 <= 8 * bytes@.len() && j2 <= 8 * bytes@.len(),
        forall|nn: Seq<u8>, ee: Seq<u8>, x: u32, tn: Seq<u8>, te: Seq<u8>|
            #[trigger] value_frame(bytes@, base5 as int, i as int, j as int, nn, ee, x, tn, te) ==> r
                == Some((x, (i + value_normals(x).len()) as usize, (j + value_exceptions(x).len()) as usize))
                && nn.skip(i + value_normals(x).len()) == tn && ee.skip(j + value_exceptions(x).len()) == te,
{
    let len = bytes.len();
    let mut acc: u64 = 0;
    let mut weight: u64 = 1;
    let mut bit: u32 = 1;
    let mut last: u32 = 0;
    let mut ii: usize = i;
    let mut jj: usize = j;
    proof {
        lemma2_to64();
        assert forall|nn: Seq<u8>, ee: Seq<u8>, x: u32, tn: Seq<u8>, te: Seq<u8>|
            #[trigger] value_frame(bytes@, base5 as int, i as int, j as int, nn, ee, x, tn, te) implies bits_frame(
            bytes@,
            base5 as int,
            i as int,
            j as int,
            nn,
            ee,
            x,
            tn,
            te,
            0,
            1,
            1,
            0,
        ) by {
            assert(value_normals(x) =~= normals_from(x, 1, 0) + seq![0u8]);
            assert(nn.skip(i as int) =~= normals_from(x, 1, 0) + seq![0u8] + tn);
            assert(x as int / 1 == x as int);
            if x != 0 {
                lemma_log2_half(x);
            }
        }
    }
    loop
        invariant
            len == bytes@.len() < usize::MAX / 64,
            4 <= base5 <= len,
            ii <= 8 * len,
            jj <= 8 * len,
            0 <= last < bit <= 33,
            weight == pow2((bit - 1) as nat),
            acc < weight,
            forall|nn: Seq<u8>, ee: Seq<u8>, x: u32, tn: Seq<u8>, te: Seq<u8>|
                #[trigger] value_frame(bytes@, base5 as int, i as int, j as int, nn, ee, x, tn, te)
                    ==> bits_frame(
                    bytes@,
                    base5 as int,
                    ii as int,
                    jj as int,
                    nn,
                    ee,
                    x,
                    tn,
                    te,
                    acc as int,
                    weight as int,
                    bit as int,
                    last as int,
                ),
        decreases 34 - bit,
    {
        let sym = read3(bytes, 4, ii);
        proof {
            assert forall|nn: Seq<u8>, ee: Seq<u8>, x: u32, tn: Seq<u8>, te: Seq<u8>|
                #[trigger] value_frame(bytes@, base5 as int, i as int, j as int, nn, ee, x, tn, te)
                    implies sym == Some(nn[ii as int]) by {
                lemma_next_symbols(bytes@, base5 as int, ii as int, jj as int, nn, ee, x, tn, te, acc as int, weight as int, bit as int, last as int);
            }
        }
        let v = match sym {
            None => {
                return None;
            },
            Some(v) => v,
        };
        assert(ii < 8 * len) by {
            assert(4 + 3 * (ii as int / 8) < len);
        }
        if v == 0 {
            proof {
                lemma_pow2_bound(bit);
                assert forall|nn: Seq<u8>, ee: Seq<u8>, x: u32, tn: Seq<u8>, te: Seq<u8>|
                    #[trigger] value_frame(bytes@, base5 as int, i as int, j as int, nn, ee, x, tn, te)
                        implies acc == x && ii + 1 == i + value_normals(x).len() && jj == j
                    + value_exceptions(x).len() && nn.skip(ii + 1) == tn && ee.skip(jj as int) == te by {
                    lemma_next_symbols(bytes@, base5 as int, ii as int, jj as int, nn, ee, x, tn, te, acc as int, weight as int, bit as int, last as int);
                    lemma_value_done(bytes@, base5 as int, i as int, j as int, ii as int, jj as int, nn, ee, x, tn, te, acc as int, weight as int, bit as int, last as int);
                }
            }
            return Some((acc as u32, ii + 1, jj));
        }
        if bit > 32 {
            proof {
                assert forall|nn: Seq<u8>, ee: Seq<u8>, x: u32, tn: Seq<u8>, te: Seq<u8>|
                    #[trigger] value_frame(bytes@, base5 as int, i as int, j as int, nn, ee, x, tn, te)
                        implies false by {
                    lemma_next_symbols(bytes@, base5 as int, ii as int, jj as int, nn, ee, x, tn, te, acc as int, weight as int, bit as int, last as int);
                }
            }
            return None;
        }
        let gap: u32 = if v == 7 {
            let e = read5(bytes, base5, jj);
            match e {
                None => {
                    proof {
                        assert forall|nn: Seq<u8>, ee: Seq<u8>, x: u32, tn: Seq<u8>, te: Seq<u8>|
                            #[trigger] value_frame(bytes@, base5 as int, i as int, j as int, nn, ee, x, tn, te)
                                implies false by {
                            lemma_next_symbols(bytes@, base5 as int, ii as int, jj as int, nn, ee, x, tn, te, acc as int, weight as int, bit as int, last as int);
                        }
                    }
                    return None;
                },
                Some(e) => {
                    assert(jj < 8 * len) by {
                        assert(base5 + 5 * (jj as int / 8) < len);
                    }
                    proof {
                        assert forall|nn: Seq<u8>, ee: Seq<u8>, x: u32, tn: Seq<u8>, te: Seq<u8>|
                            #[trigger] value_frame(bytes@, base5 as int, i as int, j as int, nn, ee, x, tn, te)
                                implies 7 + e as int == first_gap((x as int / weight as int) as u32, bit as int, last as int) by {
                            lemma_next_symbols(bytes@, base5 as int, ii as int, jj as int, nn, ee, x, tn, te, acc as int, weight as int, bit as int, last as int);
                        }
                    }
                    7 + e as u32
                },
            }
        } else {
            v as u32
        };
        proof {
            lemma_pow2_bound(bit);
            lemma_pow2_unfold(bit as nat);
            assert forall|nn: Seq<u8>, ee: Seq<u8>, x: u32, tn: Seq<u8>, te: Seq<u8>|
                #[trigger] value_frame(bytes@, base5 as int, i as int, j as int, nn, ee, x, tn, te)
                    implies {
                let y = (x as int / weight as int) as u32;
                &&& gap == first_gap(y, bit as int, last as int)
                &&& (gap == bit - last) == (y % 2 == 1)
                &&& (v == 7) == (first_gap(y, bit as int, last as int) >= 7)
                &&& y != 0
            } by {
                lemma_next_symbols(bytes@, base5 as int, ii as int, jj as int, nn, ee, x, tn, te, acc as int, weight as int, bit as int, last as int);
            }
        }
        let ghost old_acc = acc;
        let ghost old_weight = weight;
        let ghost old_bit = bit;
        let ghost old_last = last;
        let ghost old_ii = ii;
        let ghost old_jj = jj;
        if bit - last == gap {
            acc = acc + weight;
            last = bit;
            ii += 1;
            if v == 7 {
                jj += 1;
            }
        }
        weight = weight * 2;
        bit = bit + 1;
        proof {
            assert forall|nn: Seq<u8>, ee: Seq<u8>, x: u32, tn: Seq<u8>, te: Seq<u8>|
                #[trigger] value_frame(bytes@, base5 as int, i as int, j as int, nn, ee, x, tn, te)
                    implies bits_frame(
                bytes@,
                base5 as int,
                ii as int,
                jj as int,
                nn,
                ee,
                x,
                tn,
                te,
                acc as int,
                weight as int,
                bit as int,
                last as int,
            ) by {
                lemma_bit_step(bytes@, base5 as int, old_ii as int, old_jj as int, nn, ee, x, tn, te, old_acc as int, old_weight as int, old_bit as int, old_last as int);
            }
        }
    }
}

/// A value ends where its normal symbols give a 0.
proof fn lemma_value_done(
    b: Seq<u8>,
    base5: int,
    i: int,
    j: int,
    ii: int,
    jj: int,
    nn: Seq<u8>,
    ee: Seq<u8>,
    x: u32,
    tn: Seq<u8>,
    te: Seq<u8>,
    acc: int,
    weight: int,
    bit: int,
    last: int,
)
    requires
        value_frame(b, base5, i, j, nn, ee, x, tn, te),
        bits_frame(b, base5, ii, jj, nn, ee, x, tn, te, acc, weight, bit, last),
        (x as int / weight) as u32 == 0,
    ensures
        acc == x,
        ii + 1 == i + value_normals(x).len(),
        jj == j + value_exceptions(x).len(),
        nn.skip(ii + 1) == tn,
        ee.skip(jj) == te,
{
    assert(normals_from(0u32, bit, last) =~= Seq::<u8>::empty());
    assert(exceptions_from(0u32, bit, last) =~= Seq::<u8>::empty());
    vstd::arithmetic::div_mod::lemma_fundamental_div_mod(x as int, weight);
    assert(x as int / weight == 0);
    assert(nn.skip(ii + 1) =~= nn.skip(ii).skip(1));
    assert(nn.skip(ii).skip(1) =~= tn);
    // both decompositions of the stream agree on where the value ends
    assert(nn.skip(ii + 1).len() == nn.len() - ii - 1);
    assert(nn.skip(i).len() == nn.len() - i);
    assert(ee.skip(jj).len() == ee.len() - jj);
    assert(ee.skip(j).len() == ee.len() - j);
}

} // verus!
