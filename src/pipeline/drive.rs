use crate::pipeline::{beyond, chunks_of, copy_range, flatten, prefix_of, Step};
use vstd::prelude::*;

verus! {

/// Appends a copy of `v` to `out` as one more chunk.
pub fn collect<T: Copy>(out: &mut Vec<Vec<T>>, v: &[T])
    ensures
        chunks_of(final(out)@) == chunks_of(old(out)@).push(v@),
{
    let chunk = copy_range(v, 0, v.len());
    assert(chunk@ =~= v@);
    out.push(chunk);
    assert(chunks_of(out@) =~= chunks_of(old(out)@).push(v@));
}

/// Appends the items of `v` to `out`.
pub fn collect_flat<T: Copy>(out: &mut Vec<T>, v: &[T])
    ensures
        final(out)@ == old(out)@ + v@,
{
    let mut i: usize = 0;
    while i < v.len()
        invariant
            i <= v@.len(),
            out@ == old(out)@ + v@.subrange(0, i as int),
        decreases v@.len() - i,
    {
        out.push(v[i]);
        proof {
            assert(out@ =~= old(out)@ + v@.subrange(0, i + 1));
        }
        i += 1;
    }
    assert(v@.subrange(0, v@.len() as int) =~= v@);
}

/// The items of all of `chunks`, in order.
fn flatten_chunks<T: Copy>(chunks: &Vec<Vec<T>>) -> (r: Vec<T>)
    ensures
        r@ == flatten(chunks_of(chunks@)),
{
    let mut r: Vec<T> = Vec::new();
    let mut i: usize = 0;
    while i < chunks.len()
        invariant
            i <= chunks@.len(),
            r@ == flatten(chunks_of(chunks@).subrange(0, i as int)),
        decreases chunks@.len() - i,
    {
        collect_flat(&mut r, chunks[i].as_slice());
        proof {
            let c = chunks_of(chunks@).subrange(0, i + 1);
            assert(c.drop_last() =~= chunks_of(chunks@).subrange(0, i as int));
        }
        i += 1;
    }
    assert(chunks_of(chunks@).subrange(0, chunks@.len() as int) =~= chunks_of(chunks@));
    r
}

/// Processes `input` and returns the chunks emitted.
pub fn process<I, O: Copy, S: Step<I, O>>(step: &mut S, input: &[I]) -> (r: Vec<Vec<O>>)
    requires
        old(step).inv(),
    ensures
        final(step).inv(),
        final(step).history() == old(step).history().push(input@),
        forall|c: Seq<Seq<I>>| #[trigger] final(step).emitted(c) == old(step).emitted(c),
        forall|c: Seq<Seq<I>>| #[trigger] final(step).emitted_at_end(c) == old(step).emitted_at_end(c),
        chunks_of(r@) == beyond(old(step).emitted(old(step).history()), old(step).emitted(final(step).history())),
{
    let mut out: Vec<Vec<O>> = Vec::new();
    step.process(input, &mut out);
    assert(chunks_of(out@) =~= beyond(old(step).emitted(old(step).history()), old(step).emitted(step.history())));
    out
}

/// Processes `input` and returns the items emitted, all chunks together.
pub fn process_flat<I, O: Copy, S: Step<I, O>>(step: &mut S, input: &[I]) -> (r: Vec<O>)
    requires
        old(step).inv(),
    ensures
        final(step).inv(),
        final(step).history() == old(step).history().push(input@),
        r@ == flatten(beyond(old(step).emitted(old(step).history()), old(step).emitted(final(step).history()))),
{
    let out = process(step, input);
    flatten_chunks(&out)
}

/// Ends the stream and returns the chunks emitted.
pub fn finish<I, O: Copy, S: Step<I, O>>(step: &mut S) -> (r: Vec<Vec<O>>)
    requires
        old(step).inv(),
    ensures
        chunks_of(r@) == old(step).emitted_at_end(old(step).history()),
{
    let mut out: Vec<Vec<O>> = Vec::new();
    step.finish(&mut out);
    assert(chunks_of(out@) =~= old(step).emitted_at_end(old(step).history()));
    out
}

/// Ends the stream and returns the items emitted, all chunks together.
pub fn finish_flat<I, O: Copy, S: Step<I, O>>(step: &mut S) -> (r: Vec<O>)
    requires
        old(step).inv(),
    ensures
        r@ == flatten(old(step).emitted_at_end(old(step).history())),
{
    let out = finish(step);
    flatten_chunks(&out)
}

/// Processes `input`, ends the stream, and returns every item emitted.
pub fn process_all_flat<I, O: Copy, S: Step<I, O>>(step: &mut S, input: &[I]) -> (r: Vec<O>)
    requires
        old(step).inv(),
    ensures
        r@ == flatten(
            beyond(old(step).emitted(old(step).history()), old(step).emitted(old(step).history().push(input@)))
                + old(step).emitted_at_end(old(step).history().push(input@)),
        ),
{
    let mut out: Vec<Vec<O>> = Vec::new();
    step.process(input, &mut out);
    step.finish(&mut out);
    assert(chunks_of(out@) =~= beyond(old(step).emitted(old(step).history()), old(step).emitted(old(step).history().push(input@)))
        + old(step).emitted_at_end(old(step).history().push(input@)));
    flatten_chunks(&out)
}

} // verus!
