use vstd::prelude::*;

verus! {

/// Two queues that trade places: events are pushed onto the active one,
/// and taking switches sides and hands out everything the old side held.
pub struct DoubleBuffer<T> {
    first: Vec<T>,
    second: Vec<T>,
    target: u8,
}

impl<T> DoubleBuffer<T> {
    /// The side that takes pushes is 0 or 1, and the other side is empty.
    pub closed spec fn wf(&self) -> bool {
        &&& self.target == 0 ==> self.second@.len() == 0
        &&& self.target == 1 ==> self.first@.len() == 0
        &&& self.target <= 1
    }

    /// The events pushed since the last take, oldest first.
    pub closed spec fn pending(&self) -> Seq<T> {
        if self.target == 0 {
            self.first@
        } else {
            self.second@
        }
    }

    /// Which side takes pushes.
    pub closed spec fn side(&self) -> u8 {
        self.target
    }

    /// Both sides empty, the first one active.
    pub fn new() -> (r: DoubleBuffer<T>)
        ensures
            r.wf(),
            r.pending() == Seq::<T>::empty(),
            r.side() == 0,
    {
        DoubleBuffer { first: Vec::new(), second: Vec::new(), target: 0 }
    }

    /// Queues an event on the active side.
    pub fn push(&mut self, event: T)
        requires
            old(self).wf(),
        ensures
            final(self).wf(),
            final(self).pending() == old(self).pending().push(event),
            final(self).side() == old(self).side(),
    {
        if self.target == 0 {
            self.first.push(event);
        } else {
            self.second.push(event);
        }
    }

    /// Whether events wait on the active side.
    pub fn has_pending(&self) -> (r: bool)
        requires
            self.wf(),
        ensures
            r == (self.pending().len() != 0),
    {
        if self.target == 0 {
            self.first.len() != 0
        } else {
            self.second.len() != 0
        }
    }

    /// Switches sides and hands out the events of the old side, which is
    /// left empty.
    pub fn take_pending(&mut self) -> (r: Vec<T>)
        requires
            old(self).wf(),
        ensures
            final(self).wf(),
            r@ == old(self).pending(),
            final(self).pending() == Seq::<T>::empty(),
            final(self).side() == 1 - old(self).side(),
    {
        let mut out: Vec<T> = Vec::new();
        if self.target == 0 {
            self.target = 1;
            std::mem::swap(&mut out, &mut self.first);
        } else {
            self.target = 0;
            std::mem::swap(&mut out, &mut self.second);
        }
        out
    }
}

} // verus!
