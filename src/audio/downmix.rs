use crate::pipeline::{beyond, chunks_of, prefix_of, Step};
use vstd::prelude::*;

verus! {

/// Sum of the samples of `s`.
pub open spec fn sample_sum(s: Seq<i16>) -> int
    decreases s.len(),
{
    if s.len() == 0 {
        0
    } else {
        sample_sum(s.drop_last()) + s.last() as int
    }
}

/// `x / 2`, rounded toward zero.
pub open spec fn half_toward_zero(x: int) -> int {
    if x >= 0 {
        x / 2
    } else {
        -((-x) / 2)
    }
}

/// The mono sample for one frame of `k` channels: the frame itself for one
/// channel, the halved sum (rounded toward zero) for two, and the floor of the
/// mean for more.
pub open spec fn mix_frame(frame: Seq<i16>, k: nat) -> int {
    if k == 1 {
        frame[0] as int
    } else if k == 2 {
        half_toward_zero(frame[0] + frame[1])
    } else {
        sample_sum(frame) / (k as int)
    }
}

/// The mono signal of the complete frames of `k` channels in `s`.
pub open spec fn downmixed(s: Seq<i16>, k: nat) -> Seq<i16>
    recommends
        k > 0,
{
    Seq::new(s.len() / k, |i: int| mix_frame(s.subrange(i * k, i * k + k), k) as i16)
}

/// The sum of `n` samples lies between `n` times the smallest and the largest sample value.
proof fn lemma_sum_bounds(s: Seq<i16>)
    ensures
        -32768 * s.len() <= sample_sum(s) <= 32767 * s.len(),
    decreases s.len(),
{
    if s.len() > 0 {
        lemma_sum_bounds(s.drop_last());
    }
}

/// A frame of one channel mixes to its sample; the mix of any frame is a sample value.
proof fn lemma_mix_in_range(frame: Seq<i16>, k: nat)
    requires
        k > 0,
        frame.len() == k,
    ensures
        i16::MIN <= mix_frame(frame, k) <= i16::MAX,
{
    if k > 2 {
        lemma_sum_bounds(frame);
        let s = sample_sum(frame);
        let ki = k as int;
        assert(-32768 * ki <= s <= 32767 * ki);
        vstd::arithmetic::div_mod::lemma_div_is_ordered(-32768 * ki, s, ki);
        vstd::arithmetic::div_mod::lemma_div_is_ordered(s, 32767 * ki, ki);
        vstd::arithmetic::div_mod::lemma_div_multiples_vanish(-32768, ki);
        vstd::arithmetic::div_mod::lemma_div_multiples_vanish(32767, ki);
    }
}

/// Mixes interleaved frames of several channels down to one channel.
pub struct Downmix {
    buf: Vec<i16>,
    input_channel_count: u32,
    calls: Ghost<Seq<Seq<i16>>>,
}

impl Downmix {
    pub closed spec fn channels(&self) -> nat {
        self.input_channel_count as nat
    }

    pub fn new(input_channel_count: u32) -> (r: Self)
        requires
            input_channel_count > 0,
        ensures
            r.inv(),
            r.channels() == input_channel_count,
            r.history() == Seq::<Seq<i16>>::empty(),
    {
        Downmix { buf: Vec::new(), input_channel_count, calls: Ghost(Seq::empty()) }
    }

    /// The sum of `input[lo..lo + n]`.
    fn frame_sum(input: &[i16], lo: usize, n: usize) -> (r: i64)
        requires
            lo + n <= input@.len(),
            n <= u32::MAX,
        ensures
            r == sample_sum(input@.subrange(lo as int, lo + n)),
    {
        let mut sum: i64 = 0;
        let mut j: usize = 0;
        let total = input.len();
        while j < n
            invariant
                j <= n,
                lo + n <= input@.len(),
                total == input@.len(),
                n <= u32::MAX,
                sum == sample_sum(input@.subrange(lo as int, lo + j)),
                -32768 * (j as int) <= sum as int <= 32767 * (j as int),
            decreases n - j,
        {
            proof {
                lemma_sum_bounds(input@.subrange(lo as int, lo + j));
                assert(input@.subrange(lo as int, lo + j + 1).drop_last() =~= input@.subrange(lo as int, lo + j));
            }
            assert(j < u32::MAX);
            let x = input[lo + j];
            assert(-32768 * (j as int) + (x as int) >= -32768 * (j as int + 1));
            sum = sum + x as i64;
            proof {
                lemma_sum_bounds(input@.subrange(lo as int, lo + j + 1));
            }
            j += 1;
        }
        sum
    }

    /// The mono sample of the frame `input[lo..lo + k]`.
    fn mix(&self, input: &[i16], lo: usize) -> (r: i16)
        requires
            self.inv(),
            lo + self.channels() <= input@.len(),
        ensures
            r == mix_frame(input@.subrange(lo as int, lo + self.channels()), self.channels()),
    {
        let ghost frame = input@.subrange(lo as int, lo + self.channels());
        proof {
            lemma_mix_in_range(frame, self.channels());
            lemma_sum_bounds(frame);
        }
        let k = self.input_channel_count;
        if k == 1 {
            input[lo]
        } else if k == 2 {
            let s: i32 = input[lo] as i32 + input[lo + 1] as i32;
            if s >= 0 {
                (s / 2) as i16
            } else {
                (-((-s) / 2)) as i16
            }
        } else {
            let s = Self::frame_sum(input, lo, k as usize);
            let kk = k as i64;
            if s >= 0 {
                (s / kk) as i16
            } else {
                let a = -s;
                let c = (a + kk - 1) / kk;
                proof {
                    let q = c as int;
                    let ki = kk as int;
                    vstd::arithmetic::div_mod::lemma_fundamental_div_mod(a + ki - 1, ki);
                    let rr = (a + ki - 1) % ki;
                    assert(a + ki - 1 == ki * q + rr);
                    assert(s as int == (-q) * ki + (ki - 1 - rr)) by (nonlinear_arith)
                        requires
                            a + ki - 1 == ki * q + rr,
                            s as int == -a,
                    ;
                    vstd::arithmetic::div_mod::lemma_fundamental_div_mod_converse(s as int, ki, -q, ki - 1 - rr);
                }
                (-c) as i16
            }
        }
    }
}

impl Step<i16, i16> for Downmix {
    closed spec fn inv(&self) -> bool {
        self.input_channel_count > 0
    }

    closed spec fn history(&self) -> Seq<Seq<i16>> {
        self.calls@
    }

    /// One mono chunk per call.
    open spec fn emitted(&self, calls: Seq<Seq<i16>>) -> Seq<Seq<i16>> {
        Seq::new(calls.len(), |i: int| downmixed(calls[i], self.channels()))
    }

    open spec fn emitted_at_end(&self, calls: Seq<Seq<i16>>) -> Seq<Seq<i16>> {
        Seq::empty()
    }

    /// Emits one chunk: the mono signal of the complete frames of `input`.
    fn process(&mut self, input: &[i16], out: &mut Vec<Vec<i16>>)
        ensures
            final(self).channels() == old(self).channels(),
            chunks_of(final(out)@) == chunks_of(old(out)@).push(
                downmixed(input@, old(self).channels()),
            ),
    {
        let k = self.input_channel_count as usize;
        let n = input.len() / k;
        let mut mono: Vec<i16> = Vec::with_capacity(n);
        let mut i: usize = 0;
        let ghost want = downmixed(input@, k as nat);
        while i < n
            invariant
                self.inv(),
                k == self.channels(),
                n as int == input@.len() as int / (k as int),
                input@.len() <= usize::MAX,
                want == downmixed(input@, k as nat),
                i <= n,
                mono@ == want.subrange(0, i as int),
            decreases n - i,
        {
            proof {
                vstd::arithmetic::mul::lemma_mul_inequality(i as int + 1, n as int, k as int);
                vstd::arithmetic::div_mod::lemma_fundamental_div_mod(input@.len() as int, k as int);
                assert((i as int + 1) * (k as int) == i as int * k as int + k as int) by (nonlinear_arith);
                assert(n as int * k as int <= input@.len()) by (nonlinear_arith)
                    requires
                        n as int * k as int + input@.len() as int % k as int == input@.len(),
                        input@.len() as int % k as int >= 0,
                ;
                assert(i as int * k as int + k as int <= input@.len());
            }
            let lo = i * k;
            let v = self.mix(input, lo);
            mono.push(v);
            proof {
                assert(mono@ =~= want.subrange(0, i + 1));
            }
            i += 1;
        }
        proof {
            assert(mono@ =~= want);
        }
        let ghost prev = out@;
        out.push(mono);
        proof {
            assert(chunks_of(out@) =~= chunks_of(old(out)@).push(want));
        }
        self.calls = Ghost(old(self).calls@.push(input@));
        proof {
            let e0 = old(self).emitted(old(self).calls@);
            let e1 = old(self).emitted(self.calls@);
            assert(e1.take(e0.len() as int) =~= e0);
            assert(beyond(e0, e1) =~= seq![want]);
        }
    }

    /// Holds nothing back: emits nothing.
    fn finish(&mut self, out: &mut Vec<Vec<i16>>)
        ensures
            final(out)@ == old(out)@,
    {
        assert(chunks_of(out@) =~= chunks_of(old(out)@) + Seq::<Seq<i16>>::empty());
    }
}

/// Downmixing keeps one sample per complete frame, and one channel passes through unchanged.
pub proof fn lemma_downmix_length(s: Seq<i16>, k: nat)
    requires
        k > 0,
    ensures
        downmixed(s, k).len() == s.len() / k,
        k == 1 ==> downmixed(s, k) == s,
{
    if k == 1 {
        assert forall|i: int| 0 <= i < s.len() implies #[trigger] downmixed(s, k)[i] == s[i] by {
            assert(s.subrange(i, i + 1)[0] == s[i]);
        }
        assert(downmixed(s, k) =~= s);
    }
}

} // verus!
