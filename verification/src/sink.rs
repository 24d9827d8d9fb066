//! Sinks for rANS encoder output. The encoder emits units from the end of
//! the message toward its start, so every sink keeps the last written unit
//! first in its encoded output.
use vstd::prelude::*;

verus! {

/// A sink that accepts rANS units.
pub trait Sink<Unit>: Sized {
    /// The encoded output so far (the last written unit first).
    spec fn written(&self) -> Seq<Unit>;

    /// Whether one more unit fits.
    spec fn has_room(&self) -> bool;

    /// Write one unit in front of the encoded output.
    fn write(&mut self, unit: Unit)
        requires
            old(self).has_room(),
        ensures
            final(self).written() == seq![unit] + old(self).written(),
    ;
}

/// A growable sink. Units are kept in the order they were written;
/// `encoded` returns them last-written first.
#[derive(Debug)]
pub struct VecSink<Unit> {
    units: Vec<Unit>,
}

impl<Unit: Copy> VecSink<Unit> {
    /// The encoded output so far: the written units, last written first.
    pub closed spec fn view_encoded(&self) -> Seq<Unit> {
        self.units@.reverse()
    }

    /// Create an empty sink; `initial_capacity` is a capacity hint
    /// (at least 64 units are reserved).
    pub fn new(initial_capacity: usize) -> (s: Self)
        ensures
            s.view_encoded() == Seq::<Unit>::empty(),
    {
        let capacity: usize = if initial_capacity > 64 {
            initial_capacity
        } else {
            64
        };
        let units: Vec<Unit> = Vec::with_capacity(capacity);
        proof {
            assert(units@.reverse() =~= Seq::<Unit>::empty());
        }
        Self { units }
    }

    /// Create an empty sink with exactly `capacity` units reserved.
    pub fn with_exact_capacity(capacity: usize) -> (s: Self)
        ensures
            s.view_encoded() == Seq::<Unit>::empty(),
    {
        let units: Vec<Unit> = Vec::with_capacity(capacity);
        proof {
            assert(units@.reverse() =~= Seq::<Unit>::empty());
        }
        Self { units }
    }

    /// The encoded output as units (last written first).
    pub fn encoded(&self) -> (out: Vec<Unit>)
        ensures
            out@ == self.view_encoded(),
    {
        let mut out: Vec<Unit> = Vec::with_capacity(self.units.len());
        let n: usize = self.units.len();
        let mut i: usize = n;
        while i > 0
            invariant
                i <= n,
                n == self.units@.len(),
                out@ == self.units@.subrange(i as int, n as int).reverse(),
            decreases i,
        {
            i -= 1;
            out.push(self.units[i]);
            proof {
                assert(self.units@.subrange(i as int, n as int).reverse() =~= self.units@.subrange(
                    i + 1,
                    n as int,
                ).reverse().push(self.units@[i as int]));
            }
        }
        proof {
            assert(self.units@.subrange(0, n as int) =~= self.units@);
        }
        out
    }

    /// Number of units written.
    pub fn len(&self) -> (n: usize)
        ensures
            n == self.view_encoded().len(),
    {
        self.units.len()
    }

    /// Whether no unit has been written.
    pub fn is_empty(&self) -> (b: bool)
        ensures
            b == (self.view_encoded().len() == 0),
    {
        self.units.len() == 0
    }

    /// Discard all written units.
    pub fn reset(&mut self)
        ensures
            final(self).view_encoded() == Seq::<Unit>::empty(),
    {
        self.units.clear();
        proof {
            assert(self.units@.reverse() =~= Seq::<Unit>::empty());
        }
    }
}

impl<Unit: Copy> Sink<Unit> for VecSink<Unit> {
    open spec fn written(&self) -> Seq<Unit> {
        self.view_encoded()
    }

    open spec fn has_room(&self) -> bool {
        true
    }

    fn write(&mut self, unit: Unit) {
        self.units.push(unit);
        proof {
            assert(self.units@.reverse() =~= seq![unit] + old(self).units@.reverse());
        }
    }
}

/// A fixed-size sink that fills a caller's buffer from its end.
pub struct SliceSink<'a, Unit> {
    buffer: &'a mut [Unit],
    pos: usize,
}

impl<'a, Unit: Copy> SliceSink<'a, Unit> {
    /// The encoded output so far: the filled tail of the buffer.
    pub closed spec fn view_encoded(&self) -> Seq<Unit> {
        self.buffer@.subrange(self.pos as int, self.buffer@.len() as int)
    }

    /// Number of units that can still be written.
    pub closed spec fn room(&self) -> nat {
        self.pos as nat
    }

    /// The sink's invariant: the write position lies inside the buffer.
    pub closed spec fn wf(&self) -> bool {
        self.pos <= self.buffer@.len()
    }

    /// Create a sink writing into `buffer` from its end.
    pub fn new(buffer: &'a mut [Unit]) -> (s: Self)
        ensures
            s.wf(),
            s.view_encoded() == Seq::<Unit>::empty(),
            s.room() == old(buffer)@.len(),
    {
        let pos: usize = buffer.len();
        Self { buffer, pos }
    }

    /// The encoded output (the written tail of the buffer).
    pub fn encoded(&self) -> (out: &[Unit])
        requires
            self.wf(),
        ensures
            out@ == self.view_encoded(),
    {
        vstd::slice::slice_subrange(self.buffer, self.pos, self.buffer.len())
    }

    /// Number of units written.
    pub fn len(&self) -> (n: usize)
        requires
            self.wf(),
        ensures
            n == self.view_encoded().len(),
    {
        self.buffer.len() - self.pos
    }

    /// Whether no unit has been written.
    pub fn is_empty(&self) -> (b: bool)
        requires
            self.wf(),
        ensures
            b == (self.view_encoded().len() == 0),
    {
        self.buffer.len() == self.pos
    }
}

impl<'a, Unit: Copy> Sink<Unit> for SliceSink<'a, Unit> {
    open spec fn written(&self) -> Seq<Unit> {
        self.view_encoded()
    }

    open spec fn has_room(&self) -> bool {
        self.wf() && self.room() > 0
    }

    fn write(&mut self, unit: Unit)
        ensures
            final(self).wf(),
            final(self).room() == old(self).room() - 1,
    {
        self.pos -= 1;
        self.buffer[self.pos] = unit;
        proof {
            assert(self.view_encoded() =~= seq![unit] + old(self).view_encoded());
        }
    }
}

} // verus!
