//! Sources of rANS units for the decoder.
use vstd::prelude::*;

verus! {

/// A source that hands rANS units to the decoder, one at a time.
pub trait Source<Unit>: Sized {
    /// The units that later reads will return, in order.
    spec fn pending(&self) -> Seq<Unit>;

    /// Read the next unit. Returns `true` if a unit was available.
    fn read(&mut self, unit: &mut Unit) -> (ok: bool)
        ensures
            ok == (old(self).pending().len() > 0),
            ok ==> *final(unit) == old(self).pending()[0] && final(self).pending()
                == old(self).pending().drop_first(),
            !ok ==> final(self).pending() == old(self).pending() && *final(unit) == *old(unit),
    ;

    /// Whether the source has been fully consumed.
    fn is_exhausted(&self) -> (b: bool)
        ensures
            b == (self.pending().len() == 0),
    ;
}

/// The read position after one read from `pos` over `len` units: one
/// further while units remain, unchanged once the source is exhausted.
pub open spec fn read_step(pos: nat, len: nat) -> nat {
    if pos < len {
        pos + 1
    } else {
        pos
    }
}

/// The read position after `k` reads from the start of `len` units.
pub open spec fn pos_after_reads(len: nat, k: nat) -> nat
    decreases k,
{
    if k == 0 {
        0
    } else {
        read_step(pos_after_reads(len, (k - 1) as nat), len)
    }
}

/// Reading a slice from the start: after `k` reads the position is
/// `min(k, len)` and the source is exhausted exactly when `k >= len`; so
/// read number `j` (from 0) succeeds exactly when `j < len`, and then,
/// starting at position `j`, hands out unit `j`.
pub proof fn lemma_reads_from_start(len: nat, k: nat)
    ensures
        pos_after_reads(len, k) == if k <= len {
            k
        } else {
            len
        },
        (pos_after_reads(len, k) >= len) == (k >= len),
        (pos_after_reads(len, k) < len) ==> pos_after_reads(len, k) == k,
    decreases k,
{
    if k > 0 {
        lemma_reads_from_start(len, (k - 1) as nat);
    }
}

/// A source that reads units from a slice, front to back.
#[derive(Debug, Clone)]
pub struct SliceSource<'a, Unit> {
    data: &'a [Unit],
    pos: usize,
}

impl<'a, Unit: Copy> SliceSource<'a, Unit> {
    /// All the units of the underlying slice.
    pub closed spec fn data(&self) -> Seq<Unit> {
        self.data@
    }

    /// The read position (may lie past the end after a `seek`).
    pub closed spec fn pos(&self) -> nat {
        self.pos as nat
    }

    /// Create a source reading from the given slice, at position 0.
    pub fn new(data: &'a [Unit]) -> (s: Self)
        ensures
            s.data() == data@,
            s.pos() == 0,
    {
        Self { data, pos: 0 }
    }

    /// Current read position.
    pub fn position(&self) -> (p: usize)
        ensures
            p == self.pos(),
    {
        self.pos
    }

    /// Number of units left to read.
    pub fn remaining(&self) -> (n: usize)
        ensures
            n == if self.pos() <= self.data().len() {
                self.data().len() - self.pos()
            } else {
                0
            },
    {
        self.data.len().saturating_sub(self.pos)
    }

    /// Move the read position to `pos` (used to resume a saved decode cursor).
    pub fn seek(&mut self, pos: usize)
        ensures
            final(self).data() == old(self).data(),
            final(self).pos() == pos,
    {
        self.pos = pos;
    }
}

impl<'a, Unit: Copy> Source<Unit> for SliceSource<'a, Unit> {
    open spec fn pending(&self) -> Seq<Unit> {
        if self.pos() <= self.data().len() {
            self.data().subrange(self.pos() as int, self.data().len() as int)
        } else {
            Seq::empty()
        }
    }

    fn read(&mut self, unit: &mut Unit) -> (ok: bool)
        ensures
            final(self).data() == old(self).data(),
            ok == (old(self).pos() < old(self).data().len()),
            final(self).pos() == read_step(old(self).pos(), old(self).data().len()),
            ok ==> *final(unit) == old(self).data()[old(self).pos() as int],
    {
        if self.pos < self.data.len() {
            *unit = self.data[self.pos];
            self.pos += 1;
            proof {
                assert(self.pending() =~= old(self).pending().drop_first());
            }
            true
        } else {
            false
        }
    }

    fn is_exhausted(&self) -> (b: bool)
        ensures
            b == (self.pos() >= self.data().len()),
    {
        self.pos >= self.data.len()
    }
}

} // verus!
