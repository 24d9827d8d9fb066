//! Persistent multipart streams: an encoder stream that keeps one raw
//! encoder across pushes and flushes once, and a decoder stream that keeps
//! a decode cursor across sequential decodes.
use crate::entropy::{
    batch_result, byte_adv, byte_coded, byte_message, bytes_le_units, bytes_to_u32_units, dec_run,
    decoded_into, r64_adv, r64_coded, r64_message, units_le_bytes, EncoderVariantForS, EntropyDecoder,
    EntropyEncoder,
};
use crate::entropy::EntropyError;
use crate::raw_64::{
    lemma_r64_encode_all_append, r64_encode_all, r64_init, r64_lower, Rans64Decoder, Rans64Encoder,
};
use crate::raw_byte::{
    byte_encode_all, lemma_byte_encode_all_append, byte_init, byte_lower, RansByteDecoder, RansByteEncoder,
    RawOp,
};
use crate::sink::VecSink;
use crate::source::SliceSource;
use crate::variant::{Rans64, RansByte};
use core::marker::PhantomData;
pub use crate::variant::RansVariant;
use vstd::prelude::*;

verus! {

/// Convert 32-bit units to little-endian bytes.
pub fn units_to_le_bytes(units: &[u32]) -> (bytes: Vec<u8>)
    ensures
        bytes@ == units_le_bytes(units@),
{
    let capacity: usize = match units.len().checked_mul(4) {
        Some(n) => n,
        None => units.len(),
    };
    let mut bytes: Vec<u8> = Vec::with_capacity(capacity);
    let mut i: usize = 0;
    while i < units.len()
        invariant
            i <= units@.len(),
            bytes@ == units_le_bytes(units@.subrange(0, i as int)),
        decreases units@.len() - i,
    {
        let u: u32 = units[i];
        let b0: u8 = u as u8;
        let b1: u8 = (u >> 8u32) as u8;
        let b2: u8 = (u >> 16u32) as u8;
        let b3: u8 = (u >> 24u32) as u8;
        proof {
            assert(b0 == (u % 256) as u8) by (bit_vector)
                requires
                    b0 == u as u8,
            ;
            assert(b1 == ((u / 0x100) % 256) as u8) by (bit_vector)
                requires
                    b1 == (u >> 8u32) as u8,
            ;
            assert(b2 == ((u / 0x1_0000) % 256) as u8) by (bit_vector)
                requires
                    b2 == (u >> 16u32) as u8,
            ;
            assert(b3 == ((u / 0x100_0000) % 256) as u8) by (bit_vector)
                requires
                    b3 == (u >> 24u32) as u8,
            ;
        }
        bytes.push(b0);
        bytes.push(b1);
        bytes.push(b2);
        bytes.push(b3);
        proof {
            let pre = units@.subrange(0, i as int + 1);
            assert(pre.drop_last() =~= units@.subrange(0, i as int));
            assert(pre.last() == u);
            assert(bytes@ =~= units_le_bytes(pre));
        }
        i += 1;
    }
    proof {
        assert(units@.subrange(0, units@.len() as int) =~= units@);
    }
    bytes
}


/// rANS encoder stream for the variant `S`: one raw encoder persists
/// across `push` calls and is flushed once; the stream can then be reused.
pub struct RansEncoderStream<S: EncoderVariantForS> {
    byte: Option<RansByteEncoder>,
    wide: Option<Rans64Encoder>,
    session: Ghost<Option<Seq<RawOp>>>,
    _s: PhantomData<S>,
}

impl<S: EncoderVariantForS> RansEncoderStream<S> {
    /// The operations pushed in the current session, `None` when no
    /// session is open.
    pub closed spec fn session(&self) -> Option<Seq<RawOp>> {
        self.session@
    }

    /// The raw encoder holds exactly the session's operations.
    pub closed spec fn wf(&self) -> bool {
        match S::spec_variant() {
            RansVariant::RansByte => {
                &&& self.wide is None
                &&& (self.byte is Some <==> self.session@ is Some)
                &&& self.byte matches Some(e) ==> e.wf() && byte_coded(
                    e,
                    byte_lower(),
                    Seq::empty(),
                    self.session@->0,
                )
            },
            RansVariant::Rans64 => {
                &&& self.byte is None
                &&& (self.wide is Some <==> self.session@ is Some)
                &&& self.wide matches Some(e) ==> e.wf() && r64_coded(
                    e,
                    r64_lower(),
                    Seq::empty(),
                    self.session@->0,
                )
            },
        }
    }

    /// Create a new encoder stream with no session.
    pub fn new() -> (s: Self)
        ensures
            s.wf(),
            s.session() is None,
    {
        Self { byte: None, wide: None, session: Ghost(None), _s: PhantomData }
    }

    /// Whether a session is open (something was pushed since the last
    /// flush or reset).
    pub fn is_initialized(&self) -> (b: bool)
        requires
            self.wf(),
        ensures
            b == self.session() is Some,
    {
        self.byte.is_some() || self.wide.is_some()
    }

    /// Abort the current session, discarding everything pushed.
    pub fn reset(&mut self)
        ensures
            final(self).wf(),
            final(self).session() is None,
    {
        self.byte = None;
        self.wide = None;
        self.session = Ghost(None);
    }
}

impl RansEncoderStream<RansByte> {
    /// Push an entropy-coded batch, continuing the session's raw encoder
    /// (a session is opened first when none is). The batch's operations
    /// are appended to the session, also those applied before an error.
    pub fn push(&mut self, encoder: &EntropyEncoder<RansByte>, indices: &[i32], values: &[i32]) -> (r:
        Result<(), EntropyError>)
        requires
            old(self).wf(),
            encoder.wf(),
        ensures
            final(self).wf(),
            r == batch_result(encoder.model(), indices@, values@).0,
            final(self).session() == Some(
                match old(self).session() {
                    Some(ops) => ops,
                    None => Seq::<RawOp>::empty(),
                } + batch_result(encoder.model(), indices@, values@).1,
            ),
    {
        if self.byte.is_none() {
            let e: RansByteEncoder = RansByteEncoder::new(VecSink::new(4096));
            proof {
                assert(byte_coded(e, byte_lower(), Seq::empty(), Seq::empty())) by {
                    assert(Seq::<u8>::empty() + Seq::<u8>::empty() =~= Seq::<u8>::empty());
                }
            }
            self.byte = Some(e);
            self.session = Ghost(Some(Seq::empty()));
        }
        let ghost ops0 = self.session@->0;
        let mut raw: RansByteEncoder = self.byte.take().unwrap();
        let ghost e0 = raw;
        let r = encoder.encode_batch(indices, values, &mut raw);
        proof {
            let added = batch_result(encoder.model(), indices@, values@).1;
            let (out0, x0) = byte_encode_all(byte_lower(), ops0);
            lemma_byte_encode_all_append(byte_lower(), ops0, added);
            assert(raw.output() =~= byte_encode_all(byte_lower(), ops0 + added).0 + Seq::<u8>::empty());
        }
        self.byte = Some(raw);
        self.session = Ghost(Some(ops0 + batch_result(encoder.model(), indices@, values@).1));
        r
    }

    /// Flush the session and return the encoded message; the stream is
    /// then closed for reuse. Fails when no session is open.
    pub fn flush(&mut self) -> (r: Result<Vec<u8>, EntropyError>)
        requires
            old(self).wf(),
        ensures
            final(self).wf(),
            final(self).session() is None,
            match old(self).session() {
                None => r == Err::<Vec<u8>, EntropyError>(EntropyError::InvalidState),
                Some(ops) => r is Ok && r->Ok_0@ == byte_message(ops),
            },
    {
        let taken: Option<RansByteEncoder> = self.byte.take();
        let ghost ops = self.session@;
        self.session = Ghost(None);
        let mut raw: RansByteEncoder = match taken {
            Some(e) => e,
            None => {
                return Err(EntropyError::InvalidState);
            },
        };
        raw.flush();
        let units: Vec<u8> = raw.into_sink().encoded();
        proof {
            let o = ops->0;
            assert(byte_encode_all(byte_lower(), o).0 + Seq::<u8>::empty() =~= byte_encode_all(byte_lower(), o).0);
        }
        Ok(RansByte::units_to_bytes(units))
    }
}

impl RansEncoderStream<Rans64> {
    /// Push an entropy-coded batch, continuing the session's raw encoder
    /// (a session is opened first when none is). The batch's operations
    /// are appended to the session, also those applied before an error.
    pub fn push(&mut self, encoder: &EntropyEncoder<Rans64>, indices: &[i32], values: &[i32]) -> (r:
        Result<(), EntropyError>)
        requires
            old(self).wf(),
            encoder.wf(),
        ensures
            final(self).wf(),
            r == batch_result(encoder.model(), indices@, values@).0,
            final(self).session() == Some(
                match old(self).session() {
                    Some(ops) => ops,
                    None => Seq::<RawOp>::empty(),
                } + batch_result(encoder.model(), indices@, values@).1,
            ),
    {
        if self.wide.is_none() {
            let e: Rans64Encoder = Rans64Encoder::new(VecSink::new(4096));
            proof {
                assert(r64_coded(e, r64_lower(), Seq::empty(), Seq::empty())) by {
                    assert(Seq::<u32>::empty() + Seq::<u32>::empty() =~= Seq::<u32>::empty());
                }
            }
            self.wide = Some(e);
            self.session = Ghost(Some(Seq::empty()));
        }
        let ghost ops0 = self.session@->0;
        let mut raw: Rans64Encoder = self.wide.take().unwrap();
        let r = encoder.encode_batch(indices, values, &mut raw);
        proof {
            let added = batch_result(encoder.model(), indices@, values@).1;
            lemma_r64_encode_all_append(r64_lower(), ops0, added);
            assert(raw.output() =~= r64_encode_all(r64_lower(), ops0 + added).0 + Seq::<u32>::empty());
        }
        self.wide = Some(raw);
        self.session = Ghost(Some(ops0 + batch_result(encoder.model(), indices@, values@).1));
        r
    }

    /// Flush the session and return the encoded message; the stream is
    /// then closed for reuse. Fails when no session is open.
    pub fn flush(&mut self) -> (r: Result<Vec<u8>, EntropyError>)
        requires
            old(self).wf(),
        ensures
            final(self).wf(),
            final(self).session() is None,
            match old(self).session() {
                None => r == Err::<Vec<u8>, EntropyError>(EntropyError::InvalidState),
                Some(ops) => r is Ok && r->Ok_0@ == r64_message(ops),
            },
    {
        let taken: Option<Rans64Encoder> = self.wide.take();
        let ghost ops = self.session@;
        self.session = Ghost(None);
        let mut raw: Rans64Encoder = match taken {
            Some(e) => e,
            None => {
                return Err(EntropyError::InvalidState);
            },
        };
        raw.flush();
        let units: Vec<u32> = raw.into_sink().encoded();
        proof {
            let o = ops->0;
            assert(r64_encode_all(r64_lower(), o).0 + Seq::<u32>::empty() =~= r64_encode_all(r64_lower(), o).0);
        }
        Ok(Rans64::units_to_bytes(units))
    }
}

/// The number of units of a stream's bytes for a variant.
pub open spec fn unit_len(v: RansVariant, data: Seq<u8>) -> nat {
    match v {
        RansVariant::RansByte => data.len(),
        RansVariant::Rans64 => data.len() / 4,
    }
}

/// A decoder stream is at the end of its message: unopened, or every unit
/// read with the state back at the lower bound.
pub open spec fn stream_at_eof(v: RansVariant, data: Seq<u8>, cursor: Option<(usize, u64)>) -> bool {
    match cursor {
        None => data.len() == 0,
        Some((p, st)) => p == unit_len(v, data) && st == match v {
            RansVariant::RansByte => byte_lower(),
            RansVariant::Rans64 => r64_lower(),
        },
    }
}

/// Where a stream decode starts: the saved cursor (state, unit position),
/// or the message's initial state.
pub open spec fn stream_start(v: RansVariant, data: Seq<u8>, cursor: Option<(usize, u64)>) -> Option<
    (nat, nat),
> {
    match cursor {
        Some((p, st)) => Some(
            (
                match v {
                    RansVariant::RansByte => (st as u32) as nat,
                    RansVariant::Rans64 => st as nat,
                },
                p as nat,
            ),
        ),
        None => match v {
            RansVariant::RansByte => byte_init(data, 0),
            RansVariant::Rans64 => r64_init(bytes_le_units(data), 0),
        },
    }
}

/// One stream decode: where the raw decoder starts (the saved cursor, or
/// the message's initial state), then `dec_run`. The result, the values
/// decoded, and the new cursor (unchanged on error).
pub open spec fn stream_decode_spec(
    m: Option<crate::entropy::EntropyModel>,
    v: RansVariant,
    data: Seq<u8>,
    cursor: Option<(usize, u64)>,
    indices: Seq<i32>,
    n_values: nat,
) -> (Result<(), EntropyError>, Seq<i32>, Option<(usize, u64)>) {
    let units_ok = match v {
        RansVariant::RansByte => true,
        RansVariant::Rans64 => data.len() % 4 == 0,
    };
    let adv = match v {
        RansVariant::RansByte => byte_adv(data),
        RansVariant::Rans64 => r64_adv(bytes_le_units(data)),
    };
    let start = stream_start(v, data, cursor);
    if !units_ok {
        (Err(EntropyError::InvalidStream), Seq::empty(), cursor)
    } else {
        match start {
            None => (Err(EntropyError::InvalidStream), Seq::empty(), cursor),
            Some((x, p)) => match m {
                None => (Err(EntropyError::InvalidState), Seq::empty(), cursor),
                Some(m) => if indices.len() != n_values {
                    (Err(EntropyError::InvalidParams), Seq::empty(), cursor)
                } else {
                    let run = dec_run(m, adv, indices, x, p);
                    match run.1 {
                        None => (Err(EntropyError::InvalidStream), run.0, cursor),
                        Some((xf, pf)) => (Ok(()), run.0, Some((pf as usize, xf as u64))),
                    }
                },
            },
        }
    }
}

/// rANS decoder stream for the variant `S`: owns the encoded data and
/// keeps a decode cursor (unit position and state) across `decode` calls.
pub struct RansDecoderStream<S: EncoderVariantForS> {
    data: Vec<u8>,
    cursor: Option<(usize, u64)>,
    _s: PhantomData<S>,
}

impl<S: EncoderVariantForS> RansDecoderStream<S> {
    /// The stream's bytes.
    pub closed spec fn contents(&self) -> Seq<u8> {
        self.data@
    }

    /// The saved (unit position, state), `None` before the first decode.
    pub closed spec fn cursor(&self) -> Option<(usize, u64)> {
        self.cursor
    }

    /// A saved position lies within the stream's units.
    pub closed spec fn wf(&self) -> bool {
        self.cursor matches Some((p, _)) ==> p <= unit_len(S::spec_variant(), self.data@)
    }

    /// Create a closed decoder stream.
    pub fn new() -> (s: Self)
        ensures
            s.wf(),
            s.contents() == Seq::<u8>::empty(),
            s.cursor() is None,
    {
        Self { data: Vec::new(), cursor: None, _s: PhantomData }
    }

    /// Create a decoder stream opened on a copy of `data`.
    pub fn open_on(data: &[u8]) -> (s: Self)
        ensures
            s.wf(),
            s.contents() == data@,
            s.cursor() is None,
    {
        Self { data: vstd::slice::slice_to_vec(data), cursor: None, _s: PhantomData }
    }

    /// Whether the stream holds data.
    pub fn is_open(&self) -> (b: bool)
        ensures
            b == (self.contents().len() > 0),
    {
        self.data.len() > 0
    }

    /// Whether decoding may end here (see `stream_at_eof`).
    pub fn check_eof(&self) -> (b: bool)
        ensures
            b == stream_at_eof(S::spec_variant(), self.contents(), self.cursor()),
    {
        match self.cursor {
            None => !self.is_open(),
            Some((pos, state)) => {
                let variant: RansVariant = S::variant();
                let unit_count: usize = match variant {
                    RansVariant::RansByte => self.data.len(),
                    RansVariant::Rans64 => self.data.len() / 4,
                };
                let lower: u64 = match variant {
                    RansVariant::RansByte => 0x80_0000,
                    RansVariant::Rans64 => 0x8000_0000,
                };
                pos == unit_count && state == lower
            },
        }
    }

    /// Open the stream on a copy of `data`, resetting the cursor.
    pub fn open(&mut self, data: &[u8])
        ensures
            final(self).wf(),
            final(self).contents() == data@,
            final(self).cursor() is None,
    {
        self.data = vstd::slice::slice_to_vec(data);
        self.cursor = None;
    }

    /// Close the stream, releasing its data.
    pub fn close(&mut self)
        ensures
            final(self).wf(),
            final(self).contents() == Seq::<u8>::empty(),
            final(self).cursor() is None,
    {
        self.data.clear();
        self.cursor = None;
    }

    /// Check that decoding reached the end of the message; closes the
    /// stream on success and leaves it unchanged otherwise.
    pub fn decode_eof(&mut self) -> (r: Result<(), EntropyError>)
        requires
            old(self).wf(),
        ensures
            final(self).wf(),
            stream_at_eof(S::spec_variant(), old(self).contents(), old(self).cursor()) ==> r is Ok
                && final(self).contents() == Seq::<u8>::empty() && final(self).cursor() is None,
            !stream_at_eof(S::spec_variant(), old(self).contents(), old(self).cursor()) ==> r
                == Err::<(), EntropyError>(EntropyError::InvalidStream) && *final(self) == *old(self),
    {
        if !self.check_eof() {
            return Err(EntropyError::InvalidStream);
        }
        self.close();
        Ok(())
    }

    /// Bytes consumed so far (unit position times the unit size).
    pub fn bytes_consumed(&self) -> (n: usize)
        requires
            self.wf(),
        ensures
            n == match self.cursor() {
                Some((p, _)) => match S::spec_variant() {
                    RansVariant::RansByte => p as int,
                    RansVariant::Rans64 => p * 4,
                },
                None => 0,
            },
    {
        let len: usize = self.data.len();
        match self.cursor {
            Some((pos, _)) => match S::variant() {
                RansVariant::RansByte => pos,
                RansVariant::Rans64 => {
                    proof {
                        assert(pos * 4 <= len);
                    }
                    pos * 4
                },
            },
            None => 0,
        }
    }

    /// The stream's data.
    pub fn data(&self) -> (d: &[u8])
        ensures
            d@ == self.contents(),
    {
        self.data.as_slice()
    }
}

impl RansDecoderStream<RansByte> {
    /// Decode a batch, advancing the persistent cursor: the first call
    /// starts from the message's initial state, later calls from the
    /// saved cursor.
    pub fn decode(&mut self, decoder: &EntropyDecoder<RansByte>, values: &mut [i32], indices: &[i32]) -> (r:
        Result<(), EntropyError>)
        requires
            old(self).wf(),
            decoder.wf(),
        ensures
            final(self).wf(),
            final(self).contents() == old(self).contents(),
            ({
                let (res, outs, cur) = stream_decode_spec(
                    decoder.model(),
                    RansVariant::RansByte,
                    old(self).contents(),
                    old(self).cursor(),
                    indices@,
                    old(values)@.len(),
                );
                &&& r == res
                &&& final(values)@ == decoded_into(outs, old(values)@)
                &&& final(self).cursor() == cur
            }),
    {
        proof {
            assert(Seq::<i32>::empty() + old(values)@.skip(0) =~= old(values)@);
        }
        let ghost data = self.data@;
        let mut source: SliceSource<u8> = SliceSource::new(self.data.as_slice());
        let mut raw: RansByteDecoder = match self.cursor {
            Some((pos, state)) => {
                source.seek(pos);
                RansByteDecoder::from_state(source, state as u32)
            },
            None => {
                let mut d: RansByteDecoder = RansByteDecoder::new(source);
                if !d.init() {
                    return Err(EntropyError::InvalidStream);
                }
                d
            },
        };
        let ghost x0 = raw.spec_state();
        let ghost p0 = raw.pos();
        decoder.decode_byte_continue(&mut raw, values, indices)?;
        let pos: usize = raw.source().position();
        let state: u32 = raw.state();
        proof {
            crate::entropy::lemma_byte_adv_bounded(data);
            crate::entropy::lemma_dec_run_bounded(decoder.model()->0, byte_adv(data), data.len(), indices@, x0, p0);
        }
        self.cursor = Some((pos, state as u64));
        Ok(())
    }
}

impl RansDecoderStream<Rans64> {
    /// Decode a batch, advancing the persistent cursor: the first call
    /// starts from the message's initial state, later calls from the
    /// saved cursor. The stream must hold whole 32-bit units.
    pub fn decode(&mut self, decoder: &EntropyDecoder<Rans64>, values: &mut [i32], indices: &[i32]) -> (r:
        Result<(), EntropyError>)
        requires
            old(self).wf(),
            decoder.wf(),
        ensures
            final(self).wf(),
            final(self).contents() == old(self).contents(),
            ({
                let (res, outs, cur) = stream_decode_spec(
                    decoder.model(),
                    RansVariant::Rans64,
                    old(self).contents(),
                    old(self).cursor(),
                    indices@,
                    old(values)@.len(),
                );
                &&& r == res
                &&& final(values)@ == decoded_into(outs, old(values)@)
                &&& final(self).cursor() == cur
            }),
    {
        proof {
            assert(Seq::<i32>::empty() + old(values)@.skip(0) =~= old(values)@);
        }
        if self.data.len() % 4 != 0 {
            return Err(EntropyError::InvalidStream);
        }
        let units: Vec<u32> = bytes_to_u32_units(self.data.as_slice());
        let mut source: SliceSource<u32> = SliceSource::new(units.as_slice());
        let mut raw: Rans64Decoder = match self.cursor {
            Some((pos, state)) => {
                source.seek(pos);
                Rans64Decoder::from_state(source, state)
            },
            None => {
                let mut d: Rans64Decoder = Rans64Decoder::new(source);
                if !d.init() {
                    return Err(EntropyError::InvalidStream);
                }
                d
            },
        };
        let ghost x0 = raw.spec_state();
        let ghost p0 = raw.pos();
        decoder.decode_64_continue(&mut raw, values, indices)?;
        let pos: usize = raw.source().position();
        let state: u64 = raw.state();
        proof {
            crate::entropy::lemma_r64_adv_bounded(units@);
            crate::entropy::lemma_dec_run_bounded(decoder.model()->0, r64_adv(units@), units@.len(), indices@, x0, p0);
        }
        self.cursor = Some((pos, state));
        Ok(())
    }
}
} // verus!
