use crate::pipeline::{beyond, chunks_of, flatten, prefix_of, Step};
use vstd::prelude::*;

verus! {

/// A stage that regroups its input into chunks of exactly `capacity` items.
pub struct Buf<T> {
    buf: Vec<T>,
    cap: usize,
    calls: Ghost<Seq<Seq<T>>>,
}

/// The complete chunks of `n` items of `s`, in order.
pub open spec fn full_chunks<T>(s: Seq<T>, n: nat) -> Seq<Seq<T>>
    recommends
        n > 0,
{
    Seq::new(s.len() / n, |k: int| s.subrange(k * n, k * n + n))
}

/// What is left of `s` after its complete chunks of `n` items.
pub open spec fn chunk_rest<T>(s: Seq<T>, n: nat) -> Seq<T>
    recommends
        n > 0,
{
    s.subrange(((s.len() / n) * n) as int, s.len() as int)
}

/// The last chunk of a stream: what is left after its complete chunks, if anything.
pub open spec fn last_chunk<T>(s: Seq<T>, n: nat) -> Seq<Seq<T>> {
    if chunk_rest(s, n).len() > 0 {
        seq![chunk_rest(s, n)]
    } else {
        Seq::empty()
    }
}

/// One more call extends the flattened calls by its input.
pub proof fn lemma_flatten_push<T>(c: Seq<Seq<T>>, x: Seq<T>)
    ensures
        flatten(c.push(x)) == flatten(c) + x,
{
    assert(c.push(x).drop_last() =~= c);
}

/// Chunking a stream in two parts: the chunks of the first part, then those of
/// its rest followed by the second part.
pub proof fn lemma_chunks_concat<T>(f: Seq<T>, x: Seq<T>, n: nat)
    requires
        n > 0,
    ensures
        full_chunks(f + x, n) == full_chunks(f, n) + full_chunks(chunk_rest(f, n) + x, n),
        chunk_rest(f + x, n) == chunk_rest(chunk_rest(f, n) + x, n),
{
    let ni = n as int;
    let q = f.len() as int / ni;
    let r = chunk_rest(f, n);
    let m = r.len() + x.len();
    vstd::arithmetic::div_mod::lemma_fundamental_div_mod(f.len() as int, ni);
    vstd::arithmetic::div_mod::lemma_fundamental_div_mod(m as int, ni);
    vstd::arithmetic::div_mod::lemma_mod_pos_bound(m as int, ni);
    vstd::arithmetic::div_mod::lemma_mod_pos_bound(f.len() as int, ni);
    let qm = m as int / ni;
    assert(r =~= f.subrange(q * ni, f.len() as int));
    assert(q * ni >= 0) by (nonlinear_arith)
        requires
            q >= 0,
            ni > 0,
    ;
    assert((f + x).len() == ni * (q + qm) + (m as int % ni)) by (nonlinear_arith)
        requires
            f.len() == ni * q + f.len() as int % ni,
            r.len() == f.len() as int % ni,
            m == r.len() + x.len(),
            m == ni * qm + m as int % ni,
            (f + x).len() == f.len() + x.len(),
    ;
    vstd::arithmetic::div_mod::lemma_fundamental_div_mod_converse((f + x).len() as int, ni, q + qm, m as int % ni);
    let a = full_chunks(f + x, n);
    let b = full_chunks(f, n) + full_chunks(r + x, n);
    assert forall|k: int| 0 <= k < a.len() implies a[k] == b[k] by {
        if k < q {
            assert((k + 1) * ni <= q * ni) by (nonlinear_arith)
                requires
                    k < q,
                    ni > 0,
            ;
            assert(k * ni + ni == (k + 1) * ni) by (nonlinear_arith);
            assert(k * ni >= 0) by (nonlinear_arith)
                requires
                    k >= 0,
                    ni > 0,
            ;
            assert((f + x).subrange(k * ni, k * ni + ni) =~= f.subrange(k * ni, k * ni + ni));
        } else {
            let k2 = k - q;
            assert(k * ni == q * ni + k2 * ni) by (nonlinear_arith)
                requires
                    k2 == k - q,
            ;
            assert(k2 * ni >= 0) by (nonlinear_arith)
                requires
                    k2 >= 0,
                    ni > 0,
            ;
            assert((k2 + 1) * ni <= qm * ni) by (nonlinear_arith)
                requires
                    k2 < qm,
                    ni > 0,
            ;
            assert(qm * ni <= m) by (nonlinear_arith)
                requires
                    m == ni * qm + m as int % ni,
                    m as int % ni >= 0,
            ;
            assert(k2 * ni + ni == (k2 + 1) * ni) by (nonlinear_arith);
            assert forall|t: int| 0 <= t < ni implies #[trigger] (f + x)[k * ni + t] == (r + x)[k2 * ni + t] by {
                if k * ni + t < f.len() {
                    assert(r[k2 * ni + t] == f[q * ni + k2 * ni + t]);
                }
            }
            assert((f + x).subrange(k * ni, k * ni + ni) =~= (r + x).subrange(k2 * ni, k2 * ni + ni));
        }
    }
    assert(a =~= b);
    assert((q + qm) * ni == q * ni + qm * ni) by (nonlinear_arith);
    assert(qm * ni >= 0) by (nonlinear_arith)
        requires
            qm >= 0,
            ni > 0,
    ;
    assert(chunk_rest(f + x, n) =~= chunk_rest(r + x, n));
}

impl<T: Copy> Buf<T> {
    pub closed spec fn capacity_spec(&self) -> nat {
        self.cap as nat
    }

    /// Items held back until a chunk is complete.
    pub closed spec fn pending(&self) -> Seq<T> {
        self.buf@
    }

    pub fn with_capacity(capacity: usize) -> (r: Self)
        requires
            capacity > 0,
        ensures
            r.inv(),
            r.capacity_spec() == capacity,
            r.pending() == Seq::<T>::empty(),
            r.history() == Seq::<Seq<T>>::empty(),
            forall|c: Seq<Seq<T>>| #[trigger] r.emitted(c) == full_chunks(flatten(c), capacity as nat),
    {
        let r = Buf { buf: Vec::with_capacity(capacity), cap: capacity, calls: Ghost(Seq::empty()) };
        proof {
            assert(flatten(Seq::<Seq<T>>::empty()) =~= Seq::<T>::empty());
            vstd::arithmetic::div_mod::lemma_basic_div(0, capacity as int);
        }
        assert(r.buf@ =~= chunk_rest(flatten(Seq::<Seq<T>>::empty()), capacity as nat));
        r
    }

    pub fn capacity(&self) -> (r: usize)
        ensures
            r == self.capacity_spec(),
    {
        self.cap
    }

    /// The items held back, in order.
    pub fn buffered(&self) -> (r: Vec<T>)
        ensures
            r@ == self.pending(),
    {
        let mut r: Vec<T> = Vec::new();
        let mut i: usize = 0;
        while i < self.buf.len()
            invariant
                i <= self.buf@.len(),
                r@ == self.buf@.subrange(0, i as int),
            decreases self.buf@.len() - i,
        {
            r.push(self.buf[i]);
            i += 1;
        }
        r
    }
}

impl<T: Copy> Step<T, T> for Buf<T> {
    closed spec fn inv(&self) -> bool {
        &&& 0 < self.cap
        &&& self.buf@.len() < self.cap
        &&& self.buf@ == chunk_rest(flatten(self.calls@), self.cap as nat)
    }

    closed spec fn history(&self) -> Seq<Seq<T>> {
        self.calls@
    }

    /// The complete chunks of all the items.
    open spec fn emitted(&self, calls: Seq<Seq<T>>) -> Seq<Seq<T>> {
        full_chunks(flatten(calls), self.capacity_spec())
    }

    /// The items that do not fill a chunk, as one last chunk.
    open spec fn emitted_at_end(&self, calls: Seq<Seq<T>>) -> Seq<Seq<T>> {
        last_chunk(flatten(calls), self.capacity_spec())
    }

    fn process(&mut self, input: &[T], out: &mut Vec<Vec<T>>)
        ensures
            final(self).capacity_spec() == old(self).capacity_spec(),
            chunks_of(final(out)@) == chunks_of(old(out)@) + full_chunks(
                old(self).pending() + input@,
                old(self).capacity_spec(),
            ),
            final(self).pending() == chunk_rest(old(self).pending() + input@, old(self).capacity_spec()),
    {
        let ghost all = old(self).buf@ + input@;
        let ghost f = flatten(old(self).calls@);
        let ghost start = old(self).buf@.len();
        let ghost n0 = old(out)@.len();
        let ghost cap = self.cap as int;
        let ghost mut q: int = 0;
        let mut i: usize = 0;
        while i < input.len()
            invariant
                0 < self.cap,
                self.buf@.len() < self.cap,
                self.calls == old(self).calls,
                self.cap == cap,
                i <= input@.len(),
                all == old(self).buf@ + input@,
                start == old(self).buf@.len(),
                n0 == old(out)@.len(),
                q >= 0,
                q * cap >= 0,
                q * cap + self.buf@.len() == start + i,
                self.buf@ == all.subrange(q * cap, start + i),
                out@.len() == n0 + q,
                forall|j: int| 0 <= j < n0 ==> #[trigger] out@[j]@ == old(out)@[j]@,
                forall|k: int| 0 <= k < q ==> #[trigger] out@[n0 + k]@ == all.subrange(k * cap, k * cap + cap),
            decreases input@.len() - i,
        {
            self.buf.push(input[i]);
            proof {
                assert(all[start + i] == input@[i as int]);
                assert forall|j: int| 0 <= j < self.buf@.len() implies self.buf@[j] == all[q * cap + j] by {
                    if j + 1 < self.buf@.len() {
                        assert(self.buf@[j] == all.subrange(q * cap, start + i)[j]);
                    }
                }
                assert(self.buf@ =~= all.subrange(q * cap, start + i + 1));
            }
            i += 1;
            if self.buf.len() == self.cap {
                let mut full: Vec<T> = Vec::with_capacity(self.cap);
                std::mem::swap(&mut self.buf, &mut full);
                let ghost prev = out@;
                out.push(full);
                proof {
                    assert forall|k: int| 0 <= k < q implies #[trigger] out@[n0 + k]@ == all.subrange(k * cap, k * cap + cap) by {
                        assert(out@[n0 + k] == prev[n0 + k]);
                    }
                    assert forall|j: int| 0 <= j < n0 implies #[trigger] out@[j]@ == old(out)@[j]@ by {
                        assert(out@[j] == prev[j]);
                    }
                    assert((q + 1) * cap == q * cap + cap) by (nonlinear_arith);
                    assert(out@[n0 + q]@ == all.subrange(q * cap, q * cap + cap));
                    q = q + 1;
                }
            }
        }
        proof {
            vstd::arithmetic::div_mod::lemma_fundamental_div_mod_converse(all.len() as int, cap, q, self.buf@.len() as int);
            assert(self.buf@ =~= chunk_rest(all, cap as nat));
            let want = chunks_of(old(out)@) + full_chunks(all, cap as nat);
            assert forall|j: int| 0 <= j < out@.len() implies chunks_of(out@)[j] == want[j] by {
                if j >= n0 {
                    assert(out@[n0 + (j - n0)]@ == all.subrange((j - n0) * cap, (j - n0) * cap + cap));
                }
            }
            assert(chunks_of(out@) =~= want);
        }
        self.calls = Ghost(old(self).calls@.push(input@));
        proof {
            lemma_flatten_push(old(self).calls@, input@);
            lemma_chunks_concat(f, input@, cap as nat);
            let e0 = full_chunks(f, cap as nat);
            let e1 = full_chunks(f + input@, cap as nat);
            assert(e1.take(e0.len() as int) =~= e0);
            assert(beyond(e0, e1) =~= full_chunks(all, cap as nat));
        }
    }

    fn finish(&mut self, out: &mut Vec<Vec<T>>)
        ensures
            final(self).capacity_spec() == old(self).capacity_spec(),
            final(self).history() == old(self).history(),
            final(self).pending() == Seq::<T>::empty(),
            old(self).pending().len() == 0 ==> chunks_of(final(out)@) == chunks_of(old(out)@),
            old(self).pending().len() > 0 ==> chunks_of(final(out)@) == chunks_of(old(out)@).push(
                old(self).pending(),
            ),
    {
        if self.buf.len() > 0 {
            let mut full: Vec<T> = Vec::with_capacity(self.cap);
            std::mem::swap(&mut self.buf, &mut full);
            out.push(full);
            assert(chunks_of(out@) =~= chunks_of(old(out)@).push(old(self).buf@));
        }
        assert(chunks_of(out@) =~= chunks_of(old(out)@) + last_chunk(
            flatten(old(self).calls@),
            old(self).cap as nat,
        ));
    }
}

} // verus!
