use vstd::prelude::*;

verus! {

/// The largest symbol of the normal stream; larger gaps continue in the exception stream.
pub const MAX_NORMAL_VALUE: u8 = 7;

/// Normal symbols for the set bits of `x`, where the low bit of `x` is bit number `bit`
/// and the last set bit seen was number `last`.
pub open spec fn normals_from(x: u32, bit: int, last: int) -> Seq<u8>
    decreases x,
{
    if x == 0 {
        Seq::empty()
    } else if x % 2 == 1 {
        let g = bit - last;
        seq![if g >= 7 { 7u8 } else { g as u8 }] + normals_from(x / 2, bit + 1, bit)
    } else {
        normals_from(x / 2, bit + 1, last)
    }
}

/// Exception symbols for the set bits of `x`, numbered as in `normals_from`.
pub open spec fn exceptions_from(x: u32, bit: int, last: int) -> Seq<u8>
    decreases x,
{
    if x == 0 {
        Seq::empty()
    } else if x % 2 == 1 {
        let g = bit - last;
        (if g >= 7 { seq![(g - 7) as u8] } else { Seq::empty() }) + exceptions_from(x / 2, bit + 1, bit)
    } else {
        exceptions_from(x / 2, bit + 1, last)
    }
}

/// Normal symbols of one value: the capped gaps between its set bits, then a 0.
pub open spec fn value_normals(x: u32) -> Seq<u8> {
    normals_from(x, 1, 0).push(0)
}

/// Exception symbols of one value: the excess of each gap of 7 or more.
pub open spec fn value_exceptions(x: u32) -> Seq<u8> {
    exceptions_from(x, 1, 0)
}

/// The value that stands for `s[i]`: the first as is, the others XOR their predecessor.
pub open spec fn delta(s: Seq<u32>, i: int) -> u32 {
    if i == 0 {
        s[0]
    } else {
        s[i] ^ s[i - 1]
    }
}

/// The values that stand for the subfingerprints `s`.
pub open spec fn deltas(s: Seq<u32>) -> Seq<u32> {
    Seq::new(s.len(), |i: int| delta(s, i))
}

/// The normal symbols of the values `d`, one value after the other.
pub open spec fn stream_normals(d: Seq<u32>) -> Seq<u8>
    decreases d.len(),
{
    if d.len() == 0 {
        Seq::empty()
    } else {
        value_normals(d[0]) + stream_normals(d.skip(1))
    }
}

/// The exception symbols of the values `d`, one value after the other.
pub open spec fn stream_exceptions(d: Seq<u32>) -> Seq<u8>
    decreases d.len(),
{
    if d.len() == 0 {
        Seq::empty()
    } else {
        value_exceptions(d[0]) + stream_exceptions(d.skip(1))
    }
}

/// The normal stream of a sequence of subfingerprints.
pub open spec fn normals(s: Seq<u32>) -> Seq<u8> {
    stream_normals(deltas(s))
}

/// The exception stream of a sequence of subfingerprints.
pub open spec fn exceptions(s: Seq<u32>) -> Seq<u8> {
    stream_exceptions(deltas(s))
}

/// One more value extends both streams by its own symbols.
pub proof fn lemma_stream_push(d: Seq<u32>, x: u32)
    ensures
        stream_normals(d.push(x)) == stream_normals(d) + value_normals(x),
        stream_exceptions(d.push(x)) == stream_exceptions(d) + value_exceptions(x),
    decreases d.len(),
{
    if d.len() == 0 {
        let e = d.push(x).skip(1);
        assert(e =~= Seq::<u32>::empty());
        assert(stream_normals(e) == Seq::<u8>::empty());
        assert(stream_exceptions(e) == Seq::<u8>::empty());
        assert(d.push(x)[0] == x);
        assert(stream_normals(d) == Seq::<u8>::empty());
        assert(stream_exceptions(d) == Seq::<u8>::empty());
        assert(stream_normals(d.push(x)) =~= value_normals(x));
        assert(stream_exceptions(d.push(x)) =~= value_exceptions(x));
    } else {
        assert(d.push(x).skip(1) =~= d.skip(1).push(x));
        lemma_stream_push(d.skip(1), x);
        assert(stream_normals(d.push(x)) =~= stream_normals(d) + value_normals(x));
        assert(stream_exceptions(d.push(x)) =~= stream_exceptions(d) + value_exceptions(x));
    }
}

/// The values of a prefix are the prefix of the values.
pub proof fn lemma_deltas_take(s: Seq<u32>, i: int)
    requires
        0 <= i < s.len(),
    ensures
        deltas(s.take(i + 1)) == deltas(s.take(i)).push(delta(s, i)),
{
    assert(deltas(s.take(i + 1)) =~= deltas(s.take(i)).push(delta(s, i)));
}

/// The bytes of a group of eight 3-bit symbols, low bits first.
pub open spec fn pack3_b0(s0: u8, s1: u8, s2: u8) -> u8 {
    (s0 & 0x07) | ((s1 & 0x07) << 3u8) | ((s2 & 0x03) << 6u8)
}

pub open spec fn pack3_b1(s2: u8, s3: u8, s4: u8, s5: u8) -> u8 {
    ((s2 & 0x04) >> 2u8) | ((s3 & 0x07) << 1u8) | ((s4 & 0x07) << 4u8) | ((s5 & 0x01) << 7u8)
}

pub open spec fn pack3_b2(s5: u8, s6: u8, s7: u8) -> u8 {
    ((s5 & 0x06) >> 1u8) | ((s6 & 0x07) << 2u8) | ((s7 & 0x07) << 5u8)
}

/// Eight 3-bit symbols packed into three bytes.
pub open spec fn group3(s: Seq<u8>) -> Seq<u8> {
    seq![pack3_b0(s[0], s[1], s[2]), pack3_b1(s[2], s[3], s[4], s[5]), pack3_b2(s[5], s[6], s[7])]
}

/// The bytes of a group of eight 5-bit symbols, low bits first.
pub open spec fn pack5_b0(s0: u8, s1: u8) -> u8 {
    (s0 & 0x1f) | ((s1 & 0x07) << 5u8)
}

pub open spec fn pack5_b1(s1: u8, s2: u8, s3: u8) -> u8 {
    ((s1 & 0x18) >> 3u8) | ((s2 & 0x1f) << 2u8) | ((s3 & 0x01) << 7u8)
}

pub open spec fn pack5_b2(s3: u8, s4: u8) -> u8 {
    ((s3 & 0x1e) >> 1u8) | ((s4 & 0x0f) << 4u8)
}

pub open spec fn pack5_b3(s4: u8, s5: u8, s6: u8) -> u8 {
    ((s4 & 0x10) >> 4u8) | ((s5 & 0x1f) << 1u8) | ((s6 & 0x03) << 6u8)
}

pub open spec fn pack5_b4(s6: u8, s7: u8) -> u8 {
    ((s6 & 0x1c) >> 2u8) | ((s7 & 0x1f) << 3u8)
}

/// Eight 5-bit symbols packed into five bytes.
pub open spec fn group5(s: Seq<u8>) -> Seq<u8> {
    seq![
        pack5_b0(s[0], s[1]),
        pack5_b1(s[1], s[2], s[3]),
        pack5_b2(s[3], s[4]),
        pack5_b3(s[4], s[5], s[6]),
        pack5_b4(s[6], s[7]),
    ]
}

/// `s` filled up with zeros to eight symbols.
pub open spec fn pad8(s: Seq<u8>) -> Seq<u8> {
    s + Seq::new((8 - s.len()) as nat, |i: int| 0u8)
}

/// Number of bytes that `n` symbols of `w` bits take.
pub open spec fn packed_len(n: nat, w: nat) -> nat {
    (n * w + 7) / 8
}

/// `s` packed 3 bits per symbol; a last, shorter group is padded with zeros and
/// only the bytes that its symbols reach are kept.
pub open spec fn packed3(s: Seq<u8>) -> Seq<u8>
    decreases s.len(),
{
    if s.len() >= 8 {
        group3(s.take(8)) + packed3(s.skip(8))
    } else if s.len() == 0 {
        Seq::empty()
    } else {
        group3(pad8(s)).take(packed_len(s.len(), 3) as int)
    }
}

/// `s` packed 5 bits per symbol, as `packed3` does with 3.
pub open spec fn packed5(s: Seq<u8>) -> Seq<u8>
    decreases s.len(),
{
    if s.len() >= 8 {
        group5(s.take(8)) + packed5(s.skip(8))
    } else if s.len() == 0 {
        Seq::empty()
    } else {
        group5(pad8(s)).take(packed_len(s.len(), 5) as int)
    }
}

/// The four header bytes: the version, then the count as 24 bits, big-endian.
pub open spec fn header(n: nat, version: u8) -> Seq<u8> {
    seq![version, ((n / 0x10000) % 256) as u8, ((n / 0x100) % 256) as u8, (n % 256) as u8]
}

/// The encoded form of the subfingerprints `s` under `version`.
pub open spec fn encoded(s: Seq<u32>, version: u8) -> Seq<u8> {
    header(s.len(), version) + packed3(normals(s)) + packed5(exceptions(s))
}

/// Turns subfingerprint sequences into their compact byte form.
pub struct Encoder {
    normal_bits: Vec<u8>,
    exceptional_bits: Vec<u8>,
}

impl Encoder {
    pub fn new() -> (r: Self) {
        Encoder { normal_bits: Vec::new(), exceptional_bits: Vec::new() }
    }

    /// Appends `encoded(inp, version)` to `out`.
    pub fn encode(&mut self, inp: &[u32], version: u8, out: &mut Vec<u8>)
        requires
            inp@.len() < 0x100_0000,
        ensures
            final(out)@ == old(out)@ + encoded(inp@, version),
    {
        self.normal_bits.clear();
        self.exceptional_bits.clear();
        let len = inp.len();
        if len > 0 {
            self.process_subfingerprint(inp[0]);
            proof {
                lemma_deltas_take(inp@, 0);
                assert(deltas(inp@.take(0)) =~= Seq::<u32>::empty());
                lemma_stream_push(Seq::<u32>::empty(), delta(inp@, 0));
                assert(self.normal_bits@ =~= normals(inp@.take(1)));
                assert(self.exceptional_bits@ =~= exceptions(inp@.take(1)));
            }
            let mut i: usize = 1;
            while i < len
                invariant
                    1 <= i <= len,
                    len == inp@.len(),
                    self.normal_bits@ == normals(inp@.take(i as int)),
                    self.exceptional_bits@ == exceptions(inp@.take(i as int)),
                decreases len - i,
            {
                self.process_subfingerprint(inp[i] ^ inp[i - 1]);
                proof {
                    lemma_deltas_take(inp@, i as int);
                    lemma_stream_push(deltas(inp@.take(i as int)), delta(inp@, i as int));
                }
                i += 1;
            }
            assert(inp@.take(len as int) =~= inp@);
        } else {
            assert(deltas(inp@) =~= Seq::<u32>::empty());
            assert(self.normal_bits@ =~= normals(inp@));
            assert(self.exceptional_bits@ =~= exceptions(inp@));
        }
        out.push(version);
        out.push((len >> 16) as u8);
        out.push((len >> 8) as u8);
        out.push(len as u8);
        proof {
            assert((len >> 16) as u8 == ((len / 0x10000) % 256) as u8) by (bit_vector);
            assert((len >> 8) as u8 == ((len / 0x100) % 256) as u8) by (bit_vector);
            assert(len as u8 == (len % 256) as u8) by (bit_vector);
            assert(out@ =~= old(out)@ + header(len as nat, version));
        }
        pack_int3(self.normal_bits.as_slice(), out);
        pack_int5(self.exceptional_bits.as_slice(), out);
        assert(out@ =~= old(out)@ + encoded(inp@, version));
    }

    /// Appends the symbols of one value to the two streams.
    fn process_subfingerprint(&mut self, x: u32)
        ensures
            final(self).normal_bits@ == old(self).normal_bits@ + value_normals(x),
            final(self).exceptional_bits@ == old(self).exceptional_bits@ + value_exceptions(x),
    {
        proof {
            if x != 0 {
                lemma_log2_half(x);
            }
        }
        let mut v: u32 = x;
        let mut bit: u8 = 1;
        let mut last_bit: u8 = 0;
        while v != 0
            invariant
                last_bit < bit,
                v != 0 ==> bit as nat + log2_floor(v) <= 32,
                self.normal_bits@ + normals_from(v, bit as int, last_bit as int)
                    == old(self).normal_bits@ + normals_from(x, 1, 0),
                self.exceptional_bits@ + exceptions_from(v, bit as int, last_bit as int)
                    == old(self).exceptional_bits@ + exceptions_from(x, 1, 0),
            decreases v,
        {
            let ghost nb = self.normal_bits@;
            let ghost eb = self.exceptional_bits@;
            if v % 2 == 1 {
                let value = bit - last_bit;
                if value >= MAX_NORMAL_VALUE {
                    self.normal_bits.push(MAX_NORMAL_VALUE);
                    self.exceptional_bits.push(value - MAX_NORMAL_VALUE);
                } else {
                    self.normal_bits.push(value);
                }
                last_bit = bit;
                proof {
                    assert(self.normal_bits@ + normals_from(v / 2, bit + 1, bit as int) =~= nb + normals_from(v, bit as int, (bit - value) as int));
                    assert(self.exceptional_bits@ + exceptions_from(v / 2, bit + 1, bit as int) =~= eb + exceptions_from(v, bit as int, (bit - value) as int));
                }
            }
            proof {
                lemma_log2_half(v);
            }
            v = v / 2;
            bit = bit + 1;
        }
        self.normal_bits.push(0);
    }
}

/// Number of bytes that `len` symbols of 3 bits take.
pub fn packed_int3_len(len: usize) -> (r: usize)
    requires
        len <= usize::MAX / 8,
    ensures
        r == packed_len(len as nat, 3),
{
    (len * 3 + 7) / 8
}

/// Number of bytes that `len` symbols of 5 bits take.
pub fn packed_int5_len(len: usize) -> (r: usize)
    requires
        len <= usize::MAX / 8,
    ensures
        r == packed_len(len as nat, 5),
{
    (len * 5 + 7) / 8
}

/// Appends the first `m` bytes of `group3(s[at..at + 8])` to `out`.
fn push_group3(s: &[u8], at: usize, m: usize, out: &mut Vec<u8>)
    requires
        at + 8 <= s@.len(),
        m <= 3,
    ensures
        final(out)@ == old(out)@ + group3(s@.subrange(at as int, at + 8)).take(m as int),
{
    let ghost g = s@.subrange(at as int, at + 8);
    let b0 = (s[at] & 0x07) | ((s[at + 1] & 0x07) << 3u8) | ((s[at + 2] & 0x03) << 6u8);
    let b1 = ((s[at + 2] & 0x04) >> 2u8) | ((s[at + 3] & 0x07) << 1u8) | ((s[at + 4] & 0x07) << 4u8) | ((s[at + 5] & 0x01) << 7u8);
    let b2 = ((s[at + 5] & 0x06) >> 1u8) | ((s[at + 6] & 0x07) << 2u8) | ((s[at + 7] & 0x07) << 5u8);
    assert(group3(g) == seq![b0, b1, b2]);
    if m > 0 {
        out.push(b0);
    }
    if m > 1 {
        out.push(b1);
    }
    if m > 2 {
        out.push(b2);
    }
    assert(out@ =~= old(out)@ + group3(g).take(m as int));
}

/// Appends the first `m` bytes of `group5(s[at..at + 8])` to `out`.
fn push_group5(s: &[u8], at: usize, m: usize, out: &mut Vec<u8>)
    requires
        at + 8 <= s@.len(),
        m <= 5,
    ensures
        final(out)@ == old(out)@ + group5(s@.subrange(at as int, at + 8)).take(m as int),
{
    let ghost g = s@.subrange(at as int, at + 8);
    let b0 = (s[at] & 0x1f) | ((s[at + 1] & 0x07) << 5u8);
    let b1 = ((s[at + 1] & 0x18) >> 3u8) | ((s[at + 2] & 0x1f) << 2u8) | ((s[at + 3] & 0x01) << 7u8);
    let b2 = ((s[at + 3] & 0x1e) >> 1u8) | ((s[at + 4] & 0x0f) << 4u8);
    let b3 = ((s[at + 4] & 0x10) >> 4u8) | ((s[at + 5] & 0x1f) << 1u8) | ((s[at + 6] & 0x03) << 6u8);
    let b4 = ((s[at + 6] & 0x1c) >> 2u8) | ((s[at + 7] & 0x1f) << 3u8);
    assert(group5(g) == seq![b0, b1, b2, b3, b4]);
    if m > 0 {
        out.push(b0);
    }
    if m > 1 {
        out.push(b1);
    }
    if m > 2 {
        out.push(b2);
    }
    if m > 3 {
        out.push(b3);
    }
    if m > 4 {
        out.push(b4);
    }
    assert(out@ =~= old(out)@ + group5(g).take(m as int));
}

/// `s[at..]`, filled up with zeros to eight symbols.
fn padded_tail(s: &[u8], at: usize) -> (r: Vec<u8>)
    requires
        at <= s@.len() < at + 8,
    ensures
        r@ == pad8(s@.skip(at as int)),
{
    let mut r: Vec<u8> = Vec::with_capacity(8);
    let mut i: usize = at;
    while i < s.len()
        invariant
            at <= i <= s@.len() < at + 8,
            r@ == s@.subrange(at as int, i as int),
        decreases s@.len() - i,
    {
        r.push(s[i]);
        assert(r@ =~= s@.subrange(at as int, i + 1));
        i += 1;
    }
    let ghost k = r@.len();
    while r.len() < 8
        invariant
            k == s@.len() - at,
            k <= r@.len() <= 8,
            r@.subrange(0, k as int) == s@.skip(at as int),
            forall|j: int| k <= j < r@.len() ==> r@[j] == 0u8,
        decreases 8 - r@.len(),
    {
        r.push(0u8);
        assert(r@.subrange(0, k as int) =~= s@.skip(at as int));
    }
    assert(r@ =~= pad8(s@.skip(at as int)));
    r
}

/// Appends `packed3(inp)` to `out`.
fn pack_int3(inp: &[u8], out: &mut Vec<u8>)
    ensures
        final(out)@ == old(out)@ + packed3(inp@),
{
    let mut i: usize = 0;
    assert(inp@.skip(0) =~= inp@);
    while inp.len() - i >= 8
        invariant
            i <= inp@.len(),
            out@ + packed3(inp@.skip(i as int)) == old(out)@ + packed3(inp@),
        decreases inp@.len() - i,
    {
        proof {
            assert(inp@.skip(i as int).take(8) =~= inp@.subrange(i as int, i + 8));
            assert(inp@.skip(i as int).skip(8) =~= inp@.skip(i + 8));
        }
        push_group3(inp, i, 3, out);
        proof {
            assert(group3(inp@.subrange(i as int, i + 8)).take(3) =~= group3(inp@.subrange(i as int, i + 8)));
        }
        i += 8;
    }
    let r = inp.len() - i;
    if r > 0 {
        let tail = padded_tail(inp, i);
        push_group3(tail.as_slice(), 0, (r * 3 + 7) / 8, out);
        assert(tail@.subrange(0, 8) =~= tail@);
    } else {
        assert(inp@.skip(i as int) =~= Seq::<u8>::empty());
    }
    assert(out@ =~= old(out)@ + packed3(inp@));
}

/// Appends `packed5(inp)` to `out`.
fn pack_int5(inp: &[u8], out: &mut Vec<u8>)
    ensures
        final(out)@ == old(out)@ + packed5(inp@),
{
    let mut i: usize = 0;
    assert(inp@.skip(0) =~= inp@);
    while inp.len() - i >= 8
        invariant
            i <= inp@.len(),
            out@ + packed5(inp@.skip(i as int)) == old(out)@ + packed5(inp@),
        decreases inp@.len() - i,
    {
        proof {
            assert(inp@.skip(i as int).take(8) =~= inp@.subrange(i as int, i + 8));
            assert(inp@.skip(i as int).skip(8) =~= inp@.skip(i + 8));
        }
        push_group5(inp, i, 5, out);
        proof {
            assert(group5(inp@.subrange(i as int, i + 8)).take(5) =~= group5(inp@.subrange(i as int, i + 8)));
        }
        i += 8;
    }
    let r = inp.len() - i;
    if r > 0 {
        let tail = padded_tail(inp, i);
        push_group5(tail.as_slice(), 0, (r * 5 + 7) / 8, out);
        assert(tail@.subrange(0, 8) =~= tail@);
    } else {
        assert(inp@.skip(i as int) =~= Seq::<u8>::empty());
    }
    assert(out@ =~= old(out)@ + packed5(inp@));
}

/// Position of the highest set bit of `x`, counting from 0.
pub open spec fn log2_floor(x: u32) -> nat
    decreases x,
{
    if x <= 1 {
        0
    } else {
        1 + log2_floor(x / 2)
    }
}

pub proof fn lemma_log2_half(x: u32)
    requires
        x != 0,
    ensures
        x / 2 != 0 ==> log2_floor(x / 2) + 1 == log2_floor(x),
        log2_floor(x) <= 31,
{
    vstd::arithmetic::power2::lemma2_to64();
    lemma_log2_bound(x, 32);
}

proof fn lemma_log2_bound(x: u32, k: nat)
    requires
        x != 0,
        x < vstd::arithmetic::power2::pow2(k),
    ensures
        log2_floor(x) < k,
    decreases k,
{
    if k == 0 {
        vstd::arithmetic::power2::lemma2_to64();
    } else {
        vstd::arithmetic::power2::lemma_pow2_unfold(k);
        if x > 1 {
            lemma_log2_bound(x / 2, (k - 1) as nat);
        }
    }
}

} // verus!
