use vstd::prelude::*;

verus! {

/// The position and direction after one move of a ping-pong walk over `len`
/// items: a move runs one step in direction `backward` (`rev` flips it), and at
/// either end it stays in place and turns around.
pub open spec fn go_spec(len: nat, pos: nat, reverse: bool, backward: bool) -> (nat, bool) {
    if !backward {
        if pos + 1 == len {
            (pos, !reverse)
        } else {
            ((pos + 1) as nat, reverse)
        }
    } else {
        if pos == 0 {
            (pos, !reverse)
        } else {
            ((pos - 1) as nat, reverse)
        }
    }
}

/// A cursor over a slice that reflects at both ends, repeating the end item.
pub struct PingPongIter<'a, T> {
    slice: &'a [T],
    pos: usize,
    reverse: bool,
}

impl<'a, T: Copy> PingPongIter<'a, T> {
    pub closed spec fn items(&self) -> Seq<T> {
        self.slice@
    }

    pub closed spec fn position(&self) -> nat {
        self.pos as nat
    }

    pub closed spec fn reversed(&self) -> bool {
        self.reverse
    }

    pub closed spec fn wf(&self) -> bool {
        self.pos < self.slice@.len()
    }

    pub fn new(slice: &'a [T]) -> (r: Self)
        requires
            slice@.len() > 0,
        ensures
            r.wf(),
            r.items() == slice@,
            r.position() == 0,
            !r.reversed(),
    {
        PingPongIter { slice, pos: 0, reverse: false }
    }

    /// The current item.
    pub fn get(&self) -> (r: T)
        requires
            self.wf(),
        ensures
            r == self.items()[self.position() as int],
    {
        self.slice[self.pos]
    }

    pub fn pos(&self) -> (r: usize)
        ensures
            r == self.position(),
    {
        self.pos
    }

    pub fn is_reverse(&self) -> (r: bool)
        ensures
            r == self.reversed(),
    {
        self.reverse
    }

    /// One move in the current direction.
    pub fn next(&mut self)
        requires
            old(self).wf(),
        ensures
            final(self).wf(),
            final(self).items() == old(self).items(),
            (final(self).position(), final(self).reversed()) == go_spec(
                old(self).items().len(),
                old(self).position(),
                old(self).reversed(),
                old(self).reversed(),
            ),
    {
        let r = self.reverse;
        self.go(r)
    }

    /// One move against the current direction.
    pub fn prev(&mut self)
        requires
            old(self).wf(),
        ensures
            final(self).wf(),
            final(self).items() == old(self).items(),
            (final(self).position(), final(self).reversed()) == go_spec(
                old(self).items().len(),
                old(self).position(),
                old(self).reversed(),
                !old(self).reversed(),
            ),
    {
        let r = !self.reverse;
        self.go(r)
    }

    /// One move forward (`reverse` false) or backward (`reverse` true).
    fn go(&mut self, reverse: bool)
        requires
            old(self).wf(),
        ensures
            final(self).wf(),
            final(self).items() == old(self).items(),
            (final(self).position(), final(self).reversed()) == go_spec(
                old(self).items().len(),
                old(self).position(),
                old(self).reversed(),
                reverse,
            ),
    {
        if !reverse {
            if self.pos == self.slice.len() - 1 {
                self.reverse = !self.reverse;
            } else {
                self.pos = self.pos + 1;
            }
        } else {
            if self.pos == 0 {
                self.reverse = !self.reverse;
            } else {
                self.pos = self.pos - 1;
            }
        }
    }
}

} // verus!
