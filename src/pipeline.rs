use std::marker::PhantomData;
use vstd::prelude::*;

pub mod buf;
pub mod drive;
pub mod windows;

pub use buf::Buf;
pub use windows::Windows;

verus! {

/// Deep view of a list of emitted chunks.
pub open spec fn chunks_of<T>(v: Seq<Vec<T>>) -> Seq<Seq<T>> {
    Seq::new(v.len(), |i: int| v[i]@)
}

/// All the items of `c`, chunk after chunk.
pub open spec fn flatten<T>(c: Seq<Seq<T>>) -> Seq<T>
    decreases c.len(),
{
    if c.len() == 0 {
        Seq::empty()
    } else {
        flatten(c.drop_last()) + c.last()
    }
}

/// `a` is a prefix of `b`.
pub open spec fn prefix_of<T>(a: Seq<T>, b: Seq<T>) -> bool {
    &&& a.len() <= b.len()
    &&& b.take(a.len() as int) == a
}

/// What `after` has beyond its prefix `before`.
pub open spec fn beyond<T>(before: Seq<T>, after: Seq<T>) -> Seq<T> {
    after.skip(before.len() as int)
}

/// Copies `v[lo..hi]` into a new vector.
pub fn copy_range<T: Copy>(v: &[T], lo: usize, hi: usize) -> (r: Vec<T>)
    requires
        lo <= hi <= v@.len(),
    ensures
        r@ == v@.subrange(lo as int, hi as int),
{
    let mut r: Vec<T> = Vec::with_capacity(hi - lo);
    let mut i: usize = lo;
    while i < hi
        invariant
            lo <= i <= hi <= v@.len(),
            r@ == v@.subrange(lo as int, i as int),
        decreases hi - i,
    {
        r.push(v[i]);
        proof {
            assert(r@ =~= v@.subrange(lo as int, i + 1));
        }
        i += 1;
    }
    r
}

/// A streaming stage: it consumes input and appends the chunks it produces to
/// `out`. Its behaviour is given by the chunks that it emits, in total, over a
/// sequence of calls of `process`.
pub trait Step<I, O> {
    /// The stage's internal invariant.
    open spec fn inv(&self) -> bool {
        true
    }

    /// The inputs of the calls of `process` so far.
    open spec fn history(&self) -> Seq<Seq<I>> {
        Seq::empty()
    }

    /// All the chunks that the stage emits over the calls `calls`.
    open spec fn emitted(&self, calls: Seq<Seq<I>>) -> Seq<Seq<O>> {
        Seq::empty()
    }

    /// The chunks that `finish` emits after the calls `calls`.
    open spec fn emitted_at_end(&self, calls: Seq<Seq<I>>) -> Seq<Seq<O>> {
        Seq::empty()
    }

    /// Consumes `input` and emits what the stage owes for it.
    fn process(&mut self, input: &[I], out: &mut Vec<Vec<O>>)
        requires
            old(self).inv(),
        ensures
            final(self).inv(),
            final(self).history() == old(self).history().push(input@),
            forall|c: Seq<Seq<I>>| #[trigger] final(self).emitted(c) == old(self).emitted(c),
            forall|c: Seq<Seq<I>>| #[trigger] final(self).emitted_at_end(c) == old(self).emitted_at_end(c),
            prefix_of(old(self).emitted(old(self).history()), old(self).emitted(final(self).history())),
            chunks_of(final(out)@) == chunks_of(old(out)@) + beyond(
                old(self).emitted(old(self).history()),
                old(self).emitted(final(self).history()),
            ),
    ;

    /// Ends the stream: emits what the stage still holds.
    fn finish(&mut self, out: &mut Vec<Vec<O>>)
        requires
            old(self).inv(),
        ensures
            chunks_of(final(out)@) == chunks_of(old(out)@) + old(self).emitted_at_end(
                old(self).history(),
            ),
    ;
}

/// Feeds every chunk that `first` emits into `second`.
pub fn then<I, O, U, S1: Step<I, O>, S2: Step<O, U>>(first: S1, second: S2) -> (r: Then<I, O, U, S1, S2>)
    requires
        first.inv(),
        second.inv(),
        second.history() == first.emitted(first.history()),
    ensures
        r.inv(),
        r.history() == first.history(),
        forall|c: Seq<Seq<I>>| #[trigger] r.emitted(c) == second.emitted(first.emitted(c)),
{
    Then::new(first, second)
}

/// Passes every chunk that `step` emits through `inplace`.
pub fn then_inplace<I, O: Copy, S1: Step<I, O>, S2: Inplace<O>>(step: S1, inplace: S2) -> (r: ThenInplace<I, O, S1, S2>)
    requires
        step.inv(),
    ensures
        r.inv(),
        r.history() == step.history(),
        forall|c: Seq<Seq<I>>| #[trigger] r.emitted(c) == applied_to_all(inplace, step.emitted(c)),
{
    ThenInplace::new(step, inplace)
}

/// Applies `first`, then `second`, to each chunk.
pub fn inplace_then<T, S1: Inplace<T>, S2: Inplace<T>>(first: S1, second: S2) -> (r: InplaceThenInplace<T, S1, S2>)
    ensures
        forall|v: Seq<T>| #[trigger] r.applied(v) == second.applied(first.applied(v)),
{
    InplaceThenInplace::new(first, second)
}

/// The chunks that `second` emits beyond `h` when it is fed the chunks `mid` one by one.
proof fn lemma_feed_step<O, U, S2: Step<O, U>>(s: S2, h: Seq<Seq<O>>, mid: Seq<Seq<O>>, k: int)
    requires
        0 <= k < mid.len(),
        prefix_of(s.emitted(h), s.emitted(h + mid.take(k))),
        prefix_of(s.emitted(h + mid.take(k)), s.emitted((h + mid.take(k)).push(mid[k]))),
    ensures
        (h + mid.take(k)).push(mid[k]) == h + mid.take(k + 1),
        prefix_of(s.emitted(h), s.emitted(h + mid.take(k + 1))),
        beyond(s.emitted(h), s.emitted(h + mid.take(k))) + beyond(
            s.emitted(h + mid.take(k)),
            s.emitted(h + mid.take(k + 1)),
        ) == beyond(s.emitted(h), s.emitted(h + mid.take(k + 1))),
{
    assert((h + mid.take(k)).push(mid[k]) =~= h + mid.take(k + 1));
    let a = s.emitted(h);
    let b = s.emitted(h + mid.take(k));
    let c = s.emitted(h + mid.take(k + 1));
    assert(c.take(a.len() as int) =~= c.take(b.len() as int).take(a.len() as int));
    assert(beyond(a, b) + beyond(b, c) =~= beyond(a, c));
}

/// Two stages in sequence: every chunk of the first is processed by the second.
pub struct Then<I, O, U, S1, S2> {
    first: S1,
    second: S2,
    _ty: PhantomData<(I, O, U)>,
}

impl<I, O, U, S1, S2> Then<I, O, U, S1, S2> where S1: Step<I, O>, S2: Step<O, U> {
    pub fn new(first: S1, second: S2) -> (r: Self)
        requires
            first.inv(),
            second.inv(),
            second.history() == first.emitted(first.history()),
        ensures
            r.inv(),
            r.history() == first.history(),
            forall|c: Seq<Seq<I>>| #[trigger] r.emitted(c) == second.emitted(first.emitted(c)),
    {
        Then { first, second, _ty: PhantomData }
    }

    /// Processes each of `chunks` with the second stage.
    fn feed(&mut self, chunks: &Vec<Vec<O>>, out: &mut Vec<Vec<U>>)
        requires
            old(self).second.inv(),
        ensures
            final(self).second.inv(),
            final(self).first == old(self).first,
            final(self).second.history() == old(self).second.history() + chunks_of(chunks@),
            forall|c: Seq<Seq<O>>| #[trigger] final(self).second.emitted(c) == old(self).second.emitted(c),
            forall|c: Seq<Seq<O>>| #[trigger] final(self).second.emitted_at_end(c)
                == old(self).second.emitted_at_end(c),
            prefix_of(
                old(self).second.emitted(old(self).second.history()),
                old(self).second.emitted(final(self).second.history()),
            ),
            chunks_of(final(out)@) == chunks_of(old(out)@) + beyond(
                old(self).second.emitted(old(self).second.history()),
                old(self).second.emitted(final(self).second.history()),
            ),
    {
        let ghost h = old(self).second.history();
        let ghost mid = chunks_of(chunks@);
        let ghost s0 = old(self).second;
        let mut i: usize = 0;
        proof {
            assert(h + mid.take(0) =~= h);
            assert(s0.emitted(h).take(s0.emitted(h).len() as int) =~= s0.emitted(h));
            assert(beyond(s0.emitted(h), s0.emitted(h)) =~= Seq::<Seq<U>>::empty());
            assert(chunks_of(out@) =~= chunks_of(old(out)@) + Seq::<Seq<U>>::empty());
        }
        while i < chunks.len()
            invariant
                self.second.inv(),
                self.first == old(self).first,
                i <= chunks@.len(),
                mid == chunks_of(chunks@),
                self.second.history() == h + mid.take(i as int),
                forall|c: Seq<Seq<O>>| #[trigger] self.second.emitted(c) == s0.emitted(c),
                forall|c: Seq<Seq<O>>| #[trigger] self.second.emitted_at_end(c) == s0.emitted_at_end(c),
                prefix_of(s0.emitted(h), s0.emitted(h + mid.take(i as int))),
                chunks_of(out@) == chunks_of(old(out)@) + beyond(s0.emitted(h), s0.emitted(h + mid.take(i as int))),
            decreases chunks@.len() - i,
        {
            let ghost before = chunks_of(out@);
            self.second.process(chunks[i].as_slice(), out);
            proof {
                assert(chunks@[i as int]@ == mid[i as int]);
                lemma_feed_step(s0, h, mid, i as int);
                assert(chunks_of(out@) =~= chunks_of(old(out)@) + beyond(s0.emitted(h), s0.emitted(h + mid.take(i + 1))));
            }
            i += 1;
        }
        assert(mid.take(chunks@.len() as int) =~= mid);
    }
}

impl<I, O, U, S1, S2> Step<I, U> for Then<I, O, U, S1, S2> where S1: Step<I, O>, S2: Step<O, U> {
    closed spec fn inv(&self) -> bool {
        &&& self.first.inv()
        &&& self.second.inv()
        &&& self.second.history() == self.first.emitted(self.first.history())
    }

    closed spec fn history(&self) -> Seq<Seq<I>> {
        self.first.history()
    }

    closed spec fn emitted(&self, calls: Seq<Seq<I>>) -> Seq<Seq<U>> {
        self.second.emitted(self.first.emitted(calls))
    }

    closed spec fn emitted_at_end(&self, calls: Seq<Seq<I>>) -> Seq<Seq<U>> {
        let h = self.first.emitted(calls);
        let m = h + self.first.emitted_at_end(calls);
        beyond(self.second.emitted(h), self.second.emitted(m)) + self.second.emitted_at_end(m)
    }

    fn process(&mut self, input: &[I], out: &mut Vec<Vec<U>>) {
        let mut mid: Vec<Vec<O>> = Vec::new();
        self.first.process(input, &mut mid);
        proof {
            assert(chunks_of(mid@) =~= beyond(
                old(self).first.emitted(old(self).first.history()),
                old(self).first.emitted(self.first.history()),
            ));
        }
        self.feed(&mid, out);
        proof {
            let e0 = old(self).first.emitted(old(self).first.history());
            let e1 = old(self).first.emitted(self.first.history());
            assert(e0 + beyond(e0, e1) =~= e1);
        }
    }

    fn finish(&mut self, out: &mut Vec<Vec<U>>) {
        let mut mid: Vec<Vec<O>> = Vec::new();
        self.first.finish(&mut mid);
        let ghost between = chunks_of(out@);
        self.feed(&mid, out);
        let ghost fed = chunks_of(out@);
        self.second.finish(out);
        proof {
            assert(chunks_of(mid@) =~= old(self).first.emitted_at_end(old(self).first.history()));
            assert(chunks_of(out@) =~= chunks_of(old(out)@) + old(self).emitted_at_end(old(self).history()));
        }
    }
}

/// Applies `inplace` to every chunk of `c`.
pub open spec fn applied_to_all<T, S: Inplace<T>>(inplace: S, c: Seq<Seq<T>>) -> Seq<Seq<T>> {
    Seq::new(c.len(), |i: int| inplace.applied(c[i]))
}

/// A transformation of a chunk in place.
pub trait Inplace<T> {
    /// What the transformation makes of a chunk.
    open spec fn applied(&self, v: Seq<T>) -> Seq<T> {
        v
    }

    fn process(&mut self, in_out: &mut Vec<T>)
        ensures
            final(in_out)@ == old(self).applied(old(in_out)@),
            forall|v: Seq<T>| #[trigger] final(self).applied(v) == old(self).applied(v),
    ;
}

/// A stage whose every chunk is then transformed in place.
pub struct ThenInplace<I, O, S1, S2> {
    step: S1,
    inplace: S2,
    buf: Vec<O>,
    _ty: PhantomData<(I, O)>,
}

impl<I, O: Copy, S1, S2> ThenInplace<I, O, S1, S2> where S1: Step<I, O>, S2: Inplace<O> {
    pub fn new(step: S1, inplace: S2) -> (r: Self)
        requires
            step.inv(),
        ensures
            r.inv(),
            r.history() == step.history(),
            forall|c: Seq<Seq<I>>| #[trigger] r.emitted(c) == applied_to_all(inplace, step.emitted(c)),
    {
        ThenInplace { step, inplace, buf: Vec::new(), _ty: PhantomData }
    }

    /// Copies `inp` to `buf`, transforms it there and emits the result.
    pub fn process0(inp: &[O], buf: &mut Vec<O>, inplace: &mut S2, out: &mut Vec<Vec<O>>)
        ensures
            chunks_of(final(out)@) == chunks_of(old(out)@).push(old(inplace).applied(inp@)),
            forall|v: Seq<O>| #[trigger] final(inplace).applied(v) == old(inplace).applied(v),
    {
        *buf = copy_range(inp, 0, inp.len());
        assert(buf@ =~= inp@);
        inplace.process(buf);
        let chunk = copy_range(buf.as_slice(), 0, buf.len());
        assert(chunk@ =~= buf@);
        let ghost prev = out@;
        out.push(chunk);
        assert(chunks_of(out@) =~= chunks_of(prev).push(old(inplace).applied(inp@)));
    }

    /// Transforms and emits each of `chunks`.
    fn feed(&mut self, chunks: &Vec<Vec<O>>, out: &mut Vec<Vec<O>>)
        ensures
            final(self).step == old(self).step,
            forall|v: Seq<O>| #[trigger] final(self).inplace.applied(v) == old(self).inplace.applied(v),
            chunks_of(final(out)@) == chunks_of(old(out)@) + applied_to_all(
                old(self).inplace,
                chunks_of(chunks@),
            ),
    {
        let ghost t0 = old(self).inplace;
        let mut i: usize = 0;
        while i < chunks.len()
            invariant
                self.step == old(self).step,
                i <= chunks@.len(),
                forall|v: Seq<O>| #[trigger] self.inplace.applied(v) == t0.applied(v),
                chunks_of(out@) == chunks_of(old(out)@) + applied_to_all(
                    t0,
                    chunks_of(chunks@).take(i as int),
                ),
            decreases chunks@.len() - i,
        {
            Self::process0(chunks[i].as_slice(), &mut self.buf, &mut self.inplace, out);
            assert(applied_to_all(t0, chunks_of(chunks@).take(i + 1)) =~= applied_to_all(
                t0,
                chunks_of(chunks@).take(i as int),
            ).push(t0.applied(chunks@[i as int]@)));
            i += 1;
        }
        assert(chunks_of(chunks@).take(chunks@.len() as int) =~= chunks_of(chunks@));
    }
}

impl<I, O: Copy, S1, S2> Step<I, O> for ThenInplace<I, O, S1, S2> where
    S1: Step<I, O>,
    S2: Inplace<O>,
 {
    closed spec fn inv(&self) -> bool {
        self.step.inv()
    }

    closed spec fn history(&self) -> Seq<Seq<I>> {
        self.step.history()
    }

    closed spec fn emitted(&self, calls: Seq<Seq<I>>) -> Seq<Seq<O>> {
        applied_to_all(self.inplace, self.step.emitted(calls))
    }

    closed spec fn emitted_at_end(&self, calls: Seq<Seq<I>>) -> Seq<Seq<O>> {
        applied_to_all(self.inplace, self.step.emitted_at_end(calls))
    }

    fn process(&mut self, input: &[I], out: &mut Vec<Vec<O>>) {
        let mut mid: Vec<Vec<O>> = Vec::new();
        self.step.process(input, &mut mid);
        self.feed(&mid, out);
        proof {
            let e0 = old(self).step.emitted(old(self).step.history());
            let e1 = old(self).step.emitted(self.step.history());
            assert(chunks_of(mid@) =~= beyond(e0, e1));
            let t = old(self).inplace;
            assert(prefix_of(applied_to_all(t, e0), applied_to_all(t, e1))) by {
                assert(applied_to_all(t, e1).take(e0.len() as int) =~= applied_to_all(t, e0));
            }
            assert(applied_to_all(t, beyond(e0, e1)) =~= beyond(applied_to_all(t, e0), applied_to_all(t, e1)));
            assert forall|c: Seq<Seq<I>>| #[trigger] self.emitted(c) == old(self).emitted(c) by {
                assert(applied_to_all(self.inplace, self.step.emitted(c)) =~= applied_to_all(
                    old(self).inplace,
                    old(self).step.emitted(c),
                ));
            }
            assert forall|c: Seq<Seq<I>>| #[trigger] self.emitted_at_end(c) == old(self).emitted_at_end(c) by {
                assert(applied_to_all(self.inplace, self.step.emitted_at_end(c)) =~= applied_to_all(
                    old(self).inplace,
                    old(self).step.emitted_at_end(c),
                ));
            }
        }
    }

    fn finish(&mut self, out: &mut Vec<Vec<O>>) {
        let mut mid: Vec<Vec<O>> = Vec::new();
        self.step.finish(&mut mid);
        self.feed(&mid, out);
        assert(chunks_of(mid@) =~= old(self).step.emitted_at_end(old(self).step.history()));
    }
}

/// Two in-place transformations, one after the other.
pub struct InplaceThenInplace<T, S1, S2> {
    first: S1,
    second: S2,
    _ty: PhantomData<T>,
}

impl<T, S1: Inplace<T>, S2: Inplace<T>> InplaceThenInplace<T, S1, S2> {
    pub fn new(first: S1, second: S2) -> (r: Self)
        ensures
            forall|v: Seq<T>| #[trigger] r.applied(v) == second.applied(first.applied(v)),
    {
        InplaceThenInplace { first, second, _ty: PhantomData }
    }
}

impl<T, S1, S2> Inplace<T> for InplaceThenInplace<T, S1, S2> where S1: Inplace<T>, S2: Inplace<T> {
    closed spec fn applied(&self, v: Seq<T>) -> Seq<T> {
        self.second.applied(self.first.applied(v))
    }

    fn process(&mut self, in_out: &mut Vec<T>) {
        self.first.process(in_out);
        self.second.process(in_out);
    }
}

} // verus!
