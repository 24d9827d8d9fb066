//! Resizable output buffer and a byte sink that writes backwards into it,
//! growing it while keeping the written bytes at its end.
use crate::raw_byte::le_bytes4;
use core::marker::PhantomData;
use vstd::prelude::*;

verus! {

/// Minimum buffer size (bytes).
pub const MIN_BUFFER_SIZE: usize = 512;

/// Minimum alignment exponent: sizes are aligned to `2^4 = 16` bytes.
pub const MIN_ALIGNMENT: usize = 4;

/// A size aligned down to a multiple of 16, after adding 3 when rounding
/// "up" (the alignment exponent minus one).
pub open spec fn aligned(size: nat, up: bool) -> nat {
    let adjusted = if up {
        size + 3
    } else {
        size
    };
    (adjusted - adjusted % 16) as nat
}

/// Align a size: add `MIN_ALIGNMENT - 1` when `up`, then clear the low
/// `MIN_ALIGNMENT` bits.
pub fn align_size(size: usize, up: bool) -> (r: usize)
    requires
        up ==> size + 4 <= usize::MAX,
    ensures
        r == aligned(size as nat, up),
{
    let adjusted: usize = if up {
        size + MIN_ALIGNMENT - 1
    } else {
        size
    };
    let shift: usize = MIN_ALIGNMENT;
    proof {
        assert(shift == 4);
        assert((1usize << shift) == 16) by (bit_vector)
            requires
                shift == 4,
        ;
    }
    let mask: usize = (1usize << shift) - 1;
    proof {
        assert(adjusted & !15usize == adjusted - adjusted % 16) by (bit_vector);
    }
    adjusted & !mask
}

/// Errors from buffer operations.
#[derive(Debug, Clone, Copy, PartialEq, Eq, Structural)]
pub enum BufferError {
    /// Requested size exceeds the representable range.
    CapacityOverflow,
}

/// A byte buffer that can grow in two steps: `begin_to_grow` hands out a
/// larger buffer whose front holds the current contents; `commit` makes it
/// the buffer, `rollback` drops it.
pub trait ResizableBuffer {
    /// The buffer's bytes.
    spec fn contents(&self) -> Seq<u8>;

    /// The larger buffer of a grow in progress.
    spec fn pending(&self) -> Option<Seq<u8>>;

    /// The current buffer.
    fn get_buffer(&self) -> (b: &[u8])
        ensures
            b@ == self.contents(),
    ;

    /// The current buffer, for writing.
    fn get_buffer_mut(&mut self) -> (b: &mut [u8])
        ensures
            b@ == old(self).contents(),
            final(self).contents() == final(b)@,
            final(self).pending() == old(self).pending(),
    ;

    /// Begin a grow: the new, larger buffer (current contents at its front).
    fn begin_to_grow(&mut self) -> (r: Result<&mut [u8], BufferError>)
        ensures
            final(self).contents() == old(self).contents(),
            r is Ok ==> r->Ok_0@.len() >= old(self).contents().len(),
            r is Ok ==> r->Ok_0@.subrange(0, old(self).contents().len() as int) == old(self).contents(),
            r matches Ok(b) ==> final(self).pending() == Some(final(b)@),
            r is Err ==> final(self).pending() == old(self).pending(),
    ;

    /// Make the pending buffer the buffer.
    fn commit(&mut self)
        ensures
            final(self).pending() is None,
            old(self).pending() matches Some(nb) ==> final(self).contents() == nb,
            old(self).pending() is None ==> final(self).contents() == old(self).contents(),
    ;

    /// Drop the pending buffer.
    fn rollback(&mut self)
        ensures
            final(self).pending() is None,
            final(self).contents() == old(self).contents(),
    ;
}


/// The larger of two sizes.
fn max_size(a: usize, b: usize) -> (r: usize)
    ensures
        r == if a >= b {
            a
        } else {
            b
        },
{
    if a >= b {
        a
    } else {
        b
    }
}

/// Heap-allocated resizable buffer: grows by its current size, at most by
/// `max_size_step` bytes at a time.
#[derive(Debug)]
pub struct HeapResizableBuffer {
    buffer: Vec<u8>,
    new_buffer: Option<Vec<u8>>,
    max_size_step: usize,
}

/// The size after one grow: `size + min(size, step)`.
pub open spec fn grown_size(size: nat, step: nat) -> nat {
    size + if size < step {
        size
    } else {
        step
    }
}

impl HeapResizableBuffer {
    /// The growth step.
    pub closed spec fn step(&self) -> nat {
        self.max_size_step as nat
    }

    /// Both the buffer and the step are at least `MIN_BUFFER_SIZE`.
    pub closed spec fn wf(&self) -> bool {
        &&& self.buffer@.len() >= 512
        &&& self.max_size_step >= 512
    }

    /// Create a buffer of `initial_size` bytes (aligned up, at least
    /// `MIN_BUFFER_SIZE`), growing by at most `max_size_step` bytes (aligned
    /// down, at least `MIN_BUFFER_SIZE`).
    pub fn new(initial_size: usize, max_size_step: usize) -> (b: Self)
        requires
            initial_size + 4 <= usize::MAX,
        ensures
            b.wf(),
            b.contents().len() == if aligned(initial_size as nat, true) >= 512 {
                aligned(initial_size as nat, true)
            } else {
                512
            },
            forall|i: int| 0 <= i < b.contents().len() ==> #[trigger] b.contents()[i] == 0,
            b.pending() is None,
            b.step() == if aligned(max_size_step as nat, false) >= 512 {
                aligned(max_size_step as nat, false)
            } else {
                512
            },
    {
        let initial: usize = max_size(align_size(initial_size, true), MIN_BUFFER_SIZE);
        let step: usize = max_size(align_size(max_size_step, false), MIN_BUFFER_SIZE);
        Self { buffer: vec![0u8; initial], new_buffer: None, max_size_step: step }
    }

    /// Current buffer capacity in bytes.
    pub fn capacity(&self) -> (n: usize)
        ensures
            n == self.contents().len(),
    {
        self.buffer.len()
    }

    /// Current maximum growth step in bytes.
    pub fn max_size_step(&self) -> (n: usize)
        ensures
            n == self.step(),
    {
        self.max_size_step
    }
}

impl ResizableBuffer for HeapResizableBuffer {
    closed spec fn contents(&self) -> Seq<u8> {
        self.buffer@
    }

    closed spec fn pending(&self) -> Option<Seq<u8>> {
        match self.new_buffer {
            Some(nb) => Some(nb@),
            None => None,
        }
    }

    fn get_buffer(&self) -> (b: &[u8]) {
        self.buffer.as_slice()
    }

    fn get_buffer_mut(&mut self) -> (b: &mut [u8])
        ensures
            final(self).step() == old(self).step(),
    {
        self.buffer.as_mut_slice()
    }

    fn begin_to_grow(&mut self) -> (r: Result<&mut [u8], BufferError>)
        ensures
            final(self).step() == old(self).step(),
            old(self).wf() ==> final(self).wf(),
            (r is Ok) == (grown_size(old(self).contents().len(), old(self).step()) <= usize::MAX),
            r is Ok ==> r->Ok_0@.len() == grown_size(old(self).contents().len(), old(self).step()),
            r is Ok ==> forall|j: int|
                old(self).contents().len() <= j < r->Ok_0@.len() ==> #[trigger] r->Ok_0@[j] == 0u8,
            r is Err ==> r == Err::<&mut [u8], BufferError>(BufferError::CapacityOverflow),
    {
        let old_len: usize = self.buffer.len();
        let step: usize = if old_len < self.max_size_step {
            old_len
        } else {
            self.max_size_step
        };
        let new_len: usize = match old_len.checked_add(step) {
            Some(n) => n,
            None => {
                return Err(BufferError::CapacityOverflow);
            },
        };
        let mut nb: Vec<u8> = vec![0u8; new_len];
        let mut i: usize = 0;
        while i < old_len
            invariant
                old_len == self.buffer@.len(),
                old_len <= new_len,
                nb@.len() == new_len,
                i <= old_len,
                forall|j: int| 0 <= j < i ==> nb@[j] == self.buffer@[j],
                forall|j: int| old_len <= j < new_len ==> #[trigger] nb@[j] == 0u8,
            decreases old_len - i,
        {
            nb.set(i, self.buffer[i]);
            i += 1;
        }
        proof {
            assert(nb@.subrange(0, old_len as int) =~= self.buffer@);
        }
        self.new_buffer = Some(nb);
        let slot: &mut Vec<u8> = self.new_buffer.as_mut().unwrap();
        Ok(slot.as_mut_slice())
    }

    fn commit(&mut self)
        ensures
            final(self).step() == old(self).step(),
            old(self).wf() && (old(self).pending() matches Some(nb) ==> nb.len() >= old(self).contents().len()) ==> final(self).wf(),
    {
        match self.new_buffer.take() {
            Some(nb) => {
                self.buffer = nb;
            },
            None => {},
        }
    }

    fn rollback(&mut self)
        ensures
            final(self).step() == old(self).step(),
            old(self).wf() ==> final(self).wf(),
    {
        self.new_buffer = None;
    }
}

/// A backward-writing byte sink over a `HeapResizableBuffer`: units are
/// written as little-endian bytes from the buffer's end toward its start;
/// growing keeps the written bytes at the new buffer's end.
pub struct ResizableBufferSink<'a, Unit> {
    buffer: &'a mut HeapResizableBuffer,
    written_bytes: usize,
    _unit: PhantomData<Unit>,
}

impl<'a, Unit> ResizableBufferSink<'a, Unit> {
    /// The written bytes, in encoded order (last written first).
    pub closed spec fn encoded(&self) -> Seq<u8> {
        let c = self.buffer.contents();
        c.subrange(c.len() - self.written_bytes, c.len() as int)
    }

    /// The written region lies inside a valid buffer.
    pub closed spec fn wf(&self) -> bool {
        &&& self.buffer.wf()
        &&& self.written_bytes <= self.buffer.contents().len()
    }

    /// Create a sink over `buffer`, with nothing written.
    pub fn new(buffer: &'a mut HeapResizableBuffer) -> (s: Self)
        requires
            old(buffer).wf(),
        ensures
            s.wf(),
            s.encoded() == Seq::<u8>::empty(),
    {
        Self { buffer, written_bytes: 0, _unit: PhantomData }
    }

    /// The written bytes, in encoded order.
    pub fn encoded_bytes(&self) -> (b: &[u8])
        requires
            self.wf(),
        ensures
            b@ == self.encoded(),
    {
        let buf: &[u8] = self.buffer.get_buffer();
        let start: usize = buf.len() - self.written_bytes;
        vstd::slice::slice_subrange(buf, start, buf.len())
    }

    /// Discard everything written.
    pub fn reset(&mut self)
        requires
            old(self).wf(),
        ensures
            final(self).wf(),
            final(self).encoded() == Seq::<u8>::empty(),
    {
        self.written_bytes = 0;
    }

    /// Number of bytes written.
    pub fn len(&self) -> (n: usize)
        requires
            self.wf(),
        ensures
            n == self.encoded().len(),
    {
        self.written_bytes
    }

    /// Whether nothing has been written.
    pub fn is_empty(&self) -> (b: bool)
        requires
            self.wf(),
        ensures
            b == (self.encoded().len() == 0),
    {
        self.written_bytes == 0
    }

    /// Make room for `n` more bytes, growing the buffer when needed.
    fn ensure_space(&mut self, n: usize)
        requires
            old(self).wf(),
            1 <= n <= 4,
            old(self).encoded().len() + 4 <= usize::MAX / 2,
        ensures
            final(self).wf(),
            final(self).encoded() == old(self).encoded(),
            final(self).written_bytes + n <= final(self).buffer.contents().len(),
    {
        let buf_len: usize = self.buffer.get_buffer().len();
        if self.written_bytes + n > buf_len {
            self.enlarge(n);
        }
    }

    /// Grow the buffer, moving the written bytes to the new buffer's end.
    fn enlarge(&mut self, needed: usize)
        requires
            old(self).wf(),
            1 <= needed <= 4,
            old(self).written_bytes + needed > old(self).buffer.contents().len(),
            old(self).encoded().len() + 4 <= usize::MAX / 2,
        ensures
            final(self).wf(),
            final(self).encoded() == old(self).encoded(),
            final(self).written_bytes + needed <= final(self).buffer.contents().len(),
    {
        let content: Vec<u8> = vstd::slice::slice_to_vec(self.encoded_bytes());
        let c: usize = content.len();
        let ghost step = self.buffer.step();
        let new_units: &mut [u8] = match self.buffer.begin_to_grow() {
            Ok(b) => b,
            Err(_) => {
                proof {
                    assert(false);
                }
                return;
            },
        };
        let new_len: usize = new_units.len();
        let start: usize = new_len - c;
        let mut j: usize = 0;
        while j < c
            invariant
                c == content@.len(),
                new_len == new_units@.len(),
                start == new_len - c,
                c <= new_len,
                j <= c,
                forall|k: int| 0 <= k < j ==> new_units@[start + k] == content@[k],
            decreases c - j,
        {
            new_units[start + j] = content[j];
            j += 1;
        }
        proof {
            assert(new_units@.subrange(start as int, new_len as int) =~= content@);
        }
        self.buffer.commit();
        self.written_bytes = c;
    }
}

/// The bytes a byte sink holds after `units` are written one by one into
/// a fresh sink, each in front of those before it (as `write_u8` states).
pub open spec fn written_after(units: Seq<u8>) -> Seq<u8>
    decreases units.len(),
{
    if units.len() == 0 {
        Seq::empty()
    } else {
        seq![units.last()] + written_after(units.drop_last())
    }
}

/// Writing bytes one by one into a fresh sink, growth included, keeps every
/// byte and leaves them in reverse order of writing: `k` writes hold `k`
/// bytes, the last written first.
pub proof fn lemma_writes_reversed(units: Seq<u8>)
    ensures
        written_after(units) == units.reverse(),
        written_after(units).len() == units.len(),
    decreases units.len(),
{
    if units.len() > 0 {
        lemma_writes_reversed(units.drop_last());
        assert(seq![units.last()] + units.drop_last().reverse() =~= units.reverse());
    }
}

impl<'a> ResizableBufferSink<'a, u8> {
    /// Write one byte in front of the written bytes.
    pub fn write_u8(&mut self, unit: u8)
        requires
            old(self).wf(),
            old(self).encoded().len() + 4 <= usize::MAX / 2,
        ensures
            final(self).wf(),
            final(self).encoded() == seq![unit] + old(self).encoded(),
    {
        self.ensure_space(1);
        let written: usize = self.written_bytes;
        let buf: &mut [u8] = self.buffer.get_buffer_mut();
        let pos: usize = buf.len() - written - 1;
        buf[pos] = unit;
        self.written_bytes = written + 1;
        proof {
            let c = self.buffer.contents();
            assert(c.subrange(c.len() - (written + 1), c.len() as int) =~= seq![unit] + old(self).encoded());
        }
    }
}

impl<'a> ResizableBufferSink<'a, u32> {
    /// Write one 32-bit unit (little-endian bytes) in front of the written
    /// bytes.
    pub fn write_u32(&mut self, unit: u32)
        requires
            old(self).wf(),
            old(self).encoded().len() + 4 <= usize::MAX / 2,
        ensures
            final(self).wf(),
            final(self).encoded() == le_bytes4(unit as nat) + old(self).encoded(),
    {
        self.ensure_space(4);
        let b0: u8 = unit as u8;
        let b1: u8 = (unit >> 8u32) as u8;
        let b2: u8 = (unit >> 16u32) as u8;
        let b3: u8 = (unit >> 24u32) as u8;
        proof {
            assert(b0 == (unit % 256) as u8) by (bit_vector)
                requires
                    b0 == unit as u8,
            ;
            assert(b1 == ((unit / 0x100) % 256) as u8) by (bit_vector)
                requires
                    b1 == (unit >> 8u32) as u8,
            ;
            assert(b2 == ((unit / 0x1_0000) % 256) as u8) by (bit_vector)
                requires
                    b2 == (unit >> 16u32) as u8,
            ;
            assert(b3 == ((unit / 0x100_0000) % 256) as u8) by (bit_vector)
                requires
                    b3 == (unit >> 24u32) as u8,
            ;
        }
        let written: usize = self.written_bytes;
        let ghost mid = self.encoded();
        let buf: &mut [u8] = self.buffer.get_buffer_mut();
        let pos: usize = buf.len() - written - 4;
        buf[pos] = b0;
        buf[pos + 1] = b1;
        buf[pos + 2] = b2;
        buf[pos + 3] = b3;
        self.written_bytes = written + 4;
        proof {
            let c = self.buffer.contents();
            assert(c.subrange(c.len() - (written + 4), c.len() as int) =~= le_bytes4(unit as nat) + old(self).encoded());
        }
    }
}

/// Number of bytes needed to serialize one unit.
pub fn unit_byte_size<Unit>() -> (n: usize)
    ensures
        n as nat == vstd::layout::size_of::<Unit>(),
{
    core::mem::size_of::<Unit>()
}

} // verus!
