use crate::pipeline::buf::lemma_flatten_push;
use crate::pipeline::{beyond, chunks_of, copy_range, flatten, prefix_of, Step};
use vstd::prelude::*;

verus! {

/// A stage that cuts its input into windows of `len` items, one every `step` items.
pub struct Windows<T> {
    len: usize,
    step: usize,
    buf: Vec<T>,
    calls: Ghost<Seq<Seq<T>>>,
}

/// How many windows of `len` items, one every `step` items, fit in `n` items.
pub open spec fn window_count(n: nat, len: nat, step: nat) -> nat
    recommends
        0 < step <= len,
{
    if n < len {
        0
    } else {
        ((n - len) as nat / step + 1) as nat
    }
}

/// The windows of `len` items of `s` that start at multiples of `step`.
pub open spec fn windows_of<T>(s: Seq<T>, len: nat, step: nat) -> Seq<Seq<T>>
    recommends
        0 < step <= len,
{
    Seq::new(window_count(s.len(), len, step), |k: int| s.subrange(k * step, k * step + len))
}

/// What of `s` the next window will start with.
pub open spec fn window_rest<T>(s: Seq<T>, len: nat, step: nat) -> Seq<T>
    recommends
        0 < step <= len,
{
    s.subrange((window_count(s.len(), len, step) * step) as int, s.len() as int)
}

/// The items after the last window start, as one last, shorter window, if any.
pub open spec fn last_window<T>(s: Seq<T>, len: nat, step: nat) -> Seq<Seq<T>> {
    if window_rest(s, len, step).len() > 0 {
        seq![window_rest(s, len, step)]
    } else {
        Seq::empty()
    }
}

/// Where the windows of `n` items end: the last starts before `n - len + step`.
proof fn lemma_window_count(n: nat, len: nat, step: nat)
    requires
        0 < step <= len,
    ensures
        window_count(n, len, step) * step <= n,
        n - window_count(n, len, step) * step < len,
        window_count(n, len, step) > 0 ==> (window_count(n, len, step) - 1) * step + len <= n,
{
    let c = window_count(n, len, step) as int;
    let si = step as int;
    if n >= len {
        vstd::arithmetic::div_mod::lemma_fundamental_div_mod(n - len, si);
        let q0 = (n - len) as int / si;
        assert(c == q0 + 1);
        assert(c * si == si * q0 + si) by (nonlinear_arith)
            requires
                c == q0 + 1,
        ;
        assert((c - 1) * si == si * q0) by (nonlinear_arith)
            requires
                c == q0 + 1,
        ;
    } else {
        assert(c == 0);
    }
}

/// Windowing a stream in two parts: the windows of the first part, then those of
/// what the first part leaves followed by the second part.
pub proof fn lemma_windows_concat<T>(f: Seq<T>, x: Seq<T>, len: nat, step: nat)
    requires
        0 < step <= len,
    ensures
        windows_of(f + x, len, step) == windows_of(f, len, step) + windows_of(
            window_rest(f, len, step) + x,
            len,
            step,
        ),
        window_rest(f + x, len, step) == window_rest(window_rest(f, len, step) + x, len, step),
{
    let si = step as int;
    let li = len as int;
    let c = window_count(f.len(), len, step) as int;
    let r = window_rest(f, len, step);
    let g = r + x;
    let nn = (f + x).len() as int;
    let m = g.len() as int;
    lemma_window_count(f.len(), len, step);
    assert(r =~= f.subrange(c * si, f.len() as int));
    assert(c * si >= 0) by (nonlinear_arith)
        requires
            c >= 0,
            si > 0,
    ;
    assert(m == nn - c * si);
    let cm = window_count(m as nat, len, step) as int;
    // the count of the whole is the count of the first part plus that of the rest
    if m < li {
        if c > 0 {
            assert(nn - li == (c - 1) * si + (m - li + si)) by (nonlinear_arith)
                requires
                    m == nn - c * si,
            ;
            vstd::arithmetic::div_mod::lemma_fundamental_div_mod_converse(nn - li, si, c - 1, m - li + si);
        }
        assert(window_count(nn as nat, len, step) == c + cm);
    } else {
        vstd::arithmetic::div_mod::lemma_fundamental_div_mod(m - li, si);
        vstd::arithmetic::div_mod::lemma_mod_pos_bound(m - li, si);
        let qq = (m - li) / si;
        assert(nn - li == (qq + c) * si + (m - li) % si) by (nonlinear_arith)
            requires
                m - li == si * qq + (m - li) % si,
                m == nn - c * si,
        ;
        vstd::arithmetic::div_mod::lemma_fundamental_div_mod_converse(nn - li, si, qq + c, (m - li) % si);
        assert(window_count(nn as nat, len, step) == c + cm);
    }
    let a = windows_of(f + x, len, step);
    let b = windows_of(f, len, step) + windows_of(g, len, step);
    assert forall|k: int| 0 <= k < a.len() implies a[k] == b[k] by {
        if k < c {
            assert(k * si + li <= (c - 1) * si + li) by (nonlinear_arith)
                requires
                    k < c,
                    si > 0,
            ;
            assert(k * si >= 0) by (nonlinear_arith)
                requires
                    k >= 0,
                    si > 0,
            ;
            assert((f + x).subrange(k * si, k * si + li) =~= f.subrange(k * si, k * si + li));
        } else {
            let k2 = k - c;
            assert(k * si == c * si + k2 * si) by (nonlinear_arith)
                requires
                    k2 == k - c,
            ;
            assert(k2 * si >= 0) by (nonlinear_arith)
                requires
                    k2 >= 0,
                    si > 0,
            ;
            lemma_window_count(m as nat, len, step);
            assert(k2 * si + li <= (cm - 1) * si + li) by (nonlinear_arith)
                requires
                    k2 < cm,
                    si > 0,
            ;
            assert forall|t: int| 0 <= t < li implies #[trigger] (f + x)[k * si + t] == g[k2 * si + t] by {
                if k * si + t < f.len() {
                    assert(r[k2 * si + t] == f[c * si + k2 * si + t]);
                }
            }
            assert((f + x).subrange(k * si, k * si + li) =~= g.subrange(k2 * si, k2 * si + li));
        }
    }
    assert(a =~= b);
    assert((c + cm) * si == c * si + cm * si) by (nonlinear_arith);
    lemma_window_count(m as nat, len, step);
    assert(window_rest(f + x, len, step) =~= window_rest(g, len, step));
}

impl<T: Copy> Windows<T> {
    pub closed spec fn len_spec(&self) -> nat {
        self.len as nat
    }

    pub closed spec fn step_spec(&self) -> nat {
        self.step as nat
    }

    /// Items held for the next window.
    pub closed spec fn pending(&self) -> Seq<T> {
        self.buf@
    }

    pub fn new(len: usize, step: usize) -> (r: Self)
        requires
            0 < step <= len,
            len <= usize::MAX / 2,
        ensures
            r.inv(),
            r.len_spec() == len,
            r.step_spec() == step,
            r.pending() == Seq::<T>::empty(),
            r.history() == Seq::<Seq<T>>::empty(),
            forall|c: Seq<Seq<T>>| #[trigger] r.emitted(c) == windows_of(flatten(c), len as nat, step as nat),
    {
        let r = Windows { len, step, buf: Vec::with_capacity(len * 2), calls: Ghost(Seq::empty()) };
        assert(r.buf@ =~= window_rest(flatten(Seq::<Seq<T>>::empty()), len as nat, step as nat));
        r
    }

    /// Number of items held for the next window.
    pub fn available(&self) -> (r: usize)
        ensures
            r == self.pending().len(),
    {
        self.buf.len()
    }
}

impl<T: Copy> Step<T, T> for Windows<T> {
    closed spec fn inv(&self) -> bool {
        &&& 0 < self.step <= self.len
        &&& self.buf@.len() < self.len
        &&& self.buf@ == window_rest(flatten(self.calls@), self.len as nat, self.step as nat)
    }

    closed spec fn history(&self) -> Seq<Seq<T>> {
        self.calls@
    }

    /// The windows of all the items.
    open spec fn emitted(&self, calls: Seq<Seq<T>>) -> Seq<Seq<T>> {
        windows_of(flatten(calls), self.len_spec(), self.step_spec())
    }

    /// The items after the last window start, as one last window.
    open spec fn emitted_at_end(&self, calls: Seq<Seq<T>>) -> Seq<Seq<T>> {
        last_window(flatten(calls), self.len_spec(), self.step_spec())
    }

    fn process(&mut self, input: &[T], out: &mut Vec<Vec<T>>)
        ensures
            final(self).len_spec() == old(self).len_spec(),
            final(self).step_spec() == old(self).step_spec(),
            chunks_of(final(out)@) == chunks_of(old(out)@) + windows_of(
                old(self).pending() + input@,
                old(self).len_spec(),
                old(self).step_spec(),
            ),
            final(self).pending() == window_rest(
                old(self).pending() + input@,
                old(self).len_spec(),
                old(self).step_spec(),
            ),
    {
        let ghost all = old(self).buf@ + input@;
        let ghost f = flatten(old(self).calls@);
        let ghost start = old(self).buf@.len();
        let ghost n0 = old(out)@.len();
        let ghost len = self.len as int;
        let ghost step = self.step as int;
        let ghost mut q: int = 0;
        let mut i: usize = 0;
        while i < input.len()
            invariant
                0 < self.step <= self.len,
                self.buf@.len() < self.len,
                self.calls == old(self).calls,
                self.len == len,
                self.step == step,
                i <= input@.len(),
                all == old(self).buf@ + input@,
                start == old(self).buf@.len(),
                n0 == old(out)@.len(),
                q >= 0,
                q * step >= 0,
                q * step + self.buf@.len() == start + i,
                q > 0 ==> (q - 1) * step + len <= start + i,
                self.buf@ == all.subrange(q * step, start + i),
                out@.len() == n0 + q,
                forall|j: int| 0 <= j < n0 ==> #[trigger] out@[j]@ == old(out)@[j]@,
                forall|k: int| 0 <= k < q ==> #[trigger] out@[n0 + k]@ == all.subrange(k * step, k * step + len),
            decreases input@.len() - i,
        {
            self.buf.push(input[i]);
            proof {
                assert(all[start + i] == input@[i as int]);
                assert forall|j: int| 0 <= j < self.buf@.len() implies self.buf@[j] == all[q * step + j] by {
                    if j + 1 < self.buf@.len() {
                        assert(self.buf@[j] == all.subrange(q * step, start + i)[j]);
                    }
                }
                assert(self.buf@ =~= all.subrange(q * step, start + i + 1));
            }
            i += 1;
            if self.buf.len() == self.len {
                let window = copy_range(self.buf.as_slice(), 0, self.len);
                let rest = copy_range(self.buf.as_slice(), self.step, self.len);
                self.buf = rest;
                let ghost prev = out@;
                out.push(window);
                proof {
                    assert forall|k: int| 0 <= k < q implies #[trigger] out@[n0 + k]@ == all.subrange(k * step, k * step + len) by {
                        assert(out@[n0 + k] == prev[n0 + k]);
                    }
                    assert forall|j: int| 0 <= j < n0 implies #[trigger] out@[j]@ == old(out)@[j]@ by {
                        assert(out@[j] == prev[j]);
                    }
                    assert((q + 1) * step == q * step + step) by (nonlinear_arith);
                    assert(out@[n0 + q]@ =~= all.subrange(q * step, q * step + len));
                    assert(self.buf@ =~= all.subrange((q + 1) * step, start + i));
                    q = q + 1;
                }
            }
        }
        proof {
            let n = all.len() as int;
            let r = self.buf@.len() as int;
            if q > 0 {
                assert((q - 1) * step == q * step - step) by (nonlinear_arith);
                vstd::arithmetic::div_mod::lemma_fundamental_div_mod_converse(
                    n - len,
                    step,
                    q - 1,
                    r - len + step,
                );
            }
            assert(window_count(all.len(), len as nat, step as nat) == q);
            assert(self.buf@ =~= window_rest(all, len as nat, step as nat));
            let want = chunks_of(old(out)@) + windows_of(all, len as nat, step as nat);
            assert forall|j: int| 0 <= j < out@.len() implies chunks_of(out@)[j] == want[j] by {
                if j >= n0 {
                    assert(out@[n0 + (j - n0)]@ == all.subrange((j - n0) * step, (j - n0) * step + len));
                }
            }
            assert(chunks_of(out@) =~= want);
        }
        self.calls = Ghost(old(self).calls@.push(input@));
        proof {
            lemma_flatten_push(old(self).calls@, input@);
            lemma_windows_concat(f, input@, len as nat, step as nat);
            let e0 = windows_of(f, len as nat, step as nat);
            let e1 = windows_of(f + input@, len as nat, step as nat);
            assert(e1.take(e0.len() as int) =~= e0);
            assert(beyond(e0, e1) =~= windows_of(all, len as nat, step as nat));
        }
    }

    /// Emits what is left as a last, shorter window.
    fn finish(&mut self, out: &mut Vec<Vec<T>>)
        ensures
            final(self).len_spec() == old(self).len_spec(),
            final(self).step_spec() == old(self).step_spec(),
            final(self).history() == old(self).history(),
            final(self).pending() == Seq::<T>::empty(),
            old(self).pending().len() == 0 ==> chunks_of(final(out)@) == chunks_of(old(out)@),
            old(self).pending().len() > 0 ==> chunks_of(final(out)@) == chunks_of(old(out)@).push(
                old(self).pending(),
            ),
    {
        if self.buf.len() > 0 {
            let mut rest: Vec<T> = Vec::new();
            std::mem::swap(&mut self.buf, &mut rest);
            out.push(rest);
            assert(chunks_of(out@) =~= chunks_of(old(out)@).push(old(self).buf@));
        }
        assert(chunks_of(out@) =~= chunks_of(old(out)@) + last_window(
            flatten(old(self).calls@),
            old(self).len as nat,
            old(self).step as nat,
        ));
    }
}

} // verus!
