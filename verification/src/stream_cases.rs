//! Cases of the multipart stream differential court: several PMF batches
//! pushed into one persistent encoder stream and flushed once, then
//! decoded last-pushed first from one persistent decoder stream.
use crate::casefile::{sha256, sha_hex, InputHashes};
use crate::entropy::{
    batch_result, byte_message, decoded_into, model_of, r64_message, EntropyDecoder, EntropyEncoder,
    EntropyError, EntropyModel,
};
use crate::pmf::pmf_check;
use crate::raw_byte::RawOp;
use crate::stream::{stream_at_eof, stream_decode_spec, RansDecoderStream, RansEncoderStream};
use crate::text::{dec_chars, decimal, entropy_error_text, join};
use crate::variant::{Rans64, RansByte, RansVariant};
use crate::verdict::hashes_are;
use crate::wire::{i32_array_wire, push_i32_array, push_u32, u32_le};
use vstd::prelude::*;
use vstd::string::*;

verus! {

/// A single batch (one PMF and one message) of a multipart stream.
#[derive(Debug, Clone)]
pub struct StreamBatch {
    /// Entries per distribution.
    pub pmf_lengths: Vec<i32>,
    /// Value offset per distribution.
    pub pmf_offsets: Vec<i32>,
    /// Frequencies, distribution after distribution.
    pub pmf_table: Vec<i32>,
    /// Distribution index per element.
    pub indices: Vec<i32>,
    /// Value per element.
    pub values: Vec<i32>,
}

/// A multipart stream test case.
#[derive(Debug, Clone)]
pub struct StreamCase {
    /// Case seed.
    pub seed: u64,
    /// 0 = Rans64, 1 = RansByte.
    pub variant: u32,
    /// Probability precision of every batch.
    pub symbol_bits: u32,
    /// Bypass digit width of every batch.
    pub bypass_bits: u32,
    /// Batches in push order.
    pub batches: Vec<StreamBatch>,
}

/// Field `which` of a batch (0 lengths, 1 offsets, 2 table, 3 indices, 4
/// values).
pub open spec fn batch_field(b: StreamBatch, which: int) -> Seq<i32> {
    if which == 0 {
        b.pmf_lengths@
    } else if which == 1 {
        b.pmf_offsets@
    } else if which == 2 {
        b.pmf_table@
    } else if which == 3 {
        b.indices@
    } else {
        b.values@
    }
}

/// The five length-prefixed arrays of a batch.
pub open spec fn batch_wire(b: StreamBatch) -> Seq<u8> {
    i32_array_wire(b.pmf_lengths@) + i32_array_wire(b.pmf_offsets@) + i32_array_wire(b.pmf_table@)
        + i32_array_wire(b.indices@) + i32_array_wire(b.values@)
}

/// The batches' arrays in push order.
pub open spec fn batches_wire(bs: Seq<StreamBatch>) -> Seq<u8>
    decreases bs.len(),
{
    if bs.len() == 0 {
        Seq::empty()
    } else {
        batches_wire(bs.drop_last()) + batch_wire(bs.last())
    }
}

/// One field's length-prefixed arrays over the batches, in push order.
pub open spec fn field_wire(bs: Seq<StreamBatch>, which: int) -> Seq<u8>
    decreases bs.len(),
{
    if bs.len() == 0 {
        Seq::empty()
    } else {
        field_wire(bs.drop_last(), which) + i32_array_wire(batch_field(bs.last(), which))
    }
}

/// The stream oracle casefile: variant, symbol bits, bypass bits, batch
/// count, then each batch's arrays.
pub open spec fn stream_case_wire(c: StreamCase) -> Seq<u8> {
    u32_le(c.variant) + u32_le(c.symbol_bits) + u32_le(c.bypass_bits) + u32_le(c.batches@.len() as u32)
        + batches_wire(c.batches@)
}

/// The variant of a known variant code.
pub open spec fn variant_of(code: u32) -> RansVariant {
    if code == 1 {
        RansVariant::RansByte
    } else {
        RansVariant::Rans64
    }
}

/// The model of a batch of a case.
pub open spec fn batch_model(c: StreamCase, b: StreamBatch) -> EntropyModel {
    model_of(b.pmf_lengths@, b.pmf_offsets@, b.pmf_table@, c.symbol_bits as nat, c.bypass_bits as nat)
}

/// Push batches `0..k` in order: the operations pushed, or the first
/// initialisation or push error as text.
pub open spec fn stream_push_all(c: StreamCase, k: int) -> Result<Seq<RawOp>, Seq<char>>
    decreases k,
{
    if k <= 0 {
        Ok(Seq::empty())
    } else {
        match stream_push_all(c, k - 1) {
            Err(e) => Err(e),
            Ok(ops) => {
                let b = c.batches@[k - 1];
                match pmf_check(
                    b.pmf_lengths@,
                    b.pmf_offsets@,
                    b.pmf_table@,
                    c.symbol_bits as nat,
                    c.bypass_bits as nat,
                    variant_of(c.variant),
                ) {
                    Err(e) => Err("EntropyEncoder init error: "@ + entropy_error_text(e)),
                    Ok(_) => {
                        let (r, bops) = batch_result(Some(batch_model(c, b)), b.indices@, b.values@);
                        match r {
                            Err(e) => Err("stream push error: "@ + entropy_error_text(e)),
                            Ok(_) => Ok(ops + bops),
                        }
                    },
                }
            },
        }
    }
}

/// Once a push fails, every later prefix fails the same way.
proof fn lemma_push_err_stable(c: StreamCase, i: int, j: int)
    requires
        0 <= i <= j,
        stream_push_all(c, i) is Err,
    ensures
        stream_push_all(c, j) == stream_push_all(c, i),
    decreases j - i,
{
    if j > i {
        lemma_push_err_stable(c, i, j - 1);
    }
}

/// The native stream encode of a case: push every batch, then flush (an
/// empty case has nothing to flush).
pub open spec fn stream_encode_spec(c: StreamCase) -> Result<Seq<u8>, Seq<char>> {
    if c.variant != 0 && c.variant != 1 {
        Err("unknown variant "@ + dec_chars(c.variant as nat))
    } else {
        match stream_push_all(c, c.batches@.len() as int) {
            Err(e) => Err(e),
            Ok(ops) => if c.batches@.len() == 0 {
                Err("stream flush error: "@ + entropy_error_text(EntropyError::InvalidState))
            } else if c.variant == 1 {
                Ok(byte_message(ops))
            } else {
                Ok(r64_message(ops))
            },
        }
    }
}

/// Decode batches `k - 1` down to `0` from `data` with the cursor `cursor`:
/// the values per batch (in decoding order) and the final cursor, or the
/// first initialisation or decode error as text.
pub open spec fn stream_decode_from(
    c: StreamCase,
    data: Seq<u8>,
    cursor: Option<(usize, u64)>,
    k: int,
) -> Result<(Seq<Seq<i32>>, Option<(usize, u64)>), Seq<char>>
    decreases k,
{
    if k <= 0 {
        Ok((Seq::empty(), cursor))
    } else {
        let b = c.batches@[k - 1];
        let v = variant_of(c.variant);
        match pmf_check(
            b.pmf_lengths@,
            b.pmf_offsets@,
            b.pmf_table@,
            c.symbol_bits as nat,
            c.bypass_bits as nat,
            v,
        ) {
            Err(e) => Err("EntropyDecoder init error: "@ + entropy_error_text(e)),
            Ok(_) => {
                let n = b.indices@.len();
                let (res, outs, cur) = stream_decode_spec(
                    Some(batch_model(c, b)),
                    v,
                    data,
                    cursor,
                    b.indices@,
                    n,
                );
                match res {
                    Err(e) => Err("stream decode error: "@ + entropy_error_text(e)),
                    Ok(_) => match stream_decode_from(c, data, cur, k - 1) {
                        Err(e) => Err(e),
                        Ok((vs, c2)) => Ok(
                            (seq![decoded_into(outs, Seq::new(n, |i: int| 0i32))] + vs, c2),
                        ),
                    },
                }
            },
        }
    }
}

/// The native stream decode of `data` for a case: every batch, the last
/// pushed first, then the end-of-stream check.
pub open spec fn stream_decode_case_spec(c: StreamCase, data: Seq<u8>) -> Result<Seq<Seq<i32>>, Seq<char>> {
    if c.variant != 0 && c.variant != 1 {
        Err("unknown variant "@ + dec_chars(c.variant as nat))
    } else if c.variant == 0 && data.len() % 4 != 0 {
        Err("Rans64 stream length must be a multiple of 4"@)
    } else {
        match stream_decode_from(c, data, None, c.batches@.len() as int) {
            Err(e) => Err(e),
            Ok((vs, cur)) => if stream_at_eof(variant_of(c.variant), data, cur) {
                Ok(vs)
            } else {
                Err("stream decodeEOF error: "@ + entropy_error_text(EntropyError::InvalidStream))
            },
        }
    }
}

/// The values expected back, the last pushed batch first.
pub open spec fn case_expected(c: StreamCase) -> Seq<Seq<i32>> {
    Seq::new(c.batches@.len(), |i: int| c.batches@[c.batches@.len() - 1 - i].values@)
}

fn push_batch(buf: &mut Vec<u8>, b: &StreamBatch)
    ensures
        final(buf)@ == old(buf)@ + batch_wire(*b),
{
    push_i32_array(buf, b.pmf_lengths.as_slice());
    push_i32_array(buf, b.pmf_offsets.as_slice());
    push_i32_array(buf, b.pmf_table.as_slice());
    push_i32_array(buf, b.indices.as_slice());
    push_i32_array(buf, b.values.as_slice());
    proof {
        assert(final(buf)@ =~= old(buf)@ + batch_wire(*b));
    }
}

fn field_of(b: &StreamBatch, which: usize) -> (f: &[i32])
    ensures
        f@ == batch_field(*b, which as int),
{
    if which == 0 {
        b.pmf_lengths.as_slice()
    } else if which == 1 {
        b.pmf_offsets.as_slice()
    } else if which == 2 {
        b.pmf_table.as_slice()
    } else if which == 3 {
        b.indices.as_slice()
    } else {
        b.values.as_slice()
    }
}

fn field_bytes(bs: &[StreamBatch], which: usize) -> (out: Vec<u8>)
    ensures
        out@ == field_wire(bs@, which as int),
{
    let mut out: Vec<u8> = Vec::new();
    let mut i: usize = 0;
    while i < bs.len()
        invariant
            i <= bs@.len(),
            out@ == field_wire(bs@.subrange(0, i as int), which as int),
        decreases bs@.len() - i,
    {
        push_i32_array(&mut out, field_of(&bs[i], which));
        proof {
            let pre = bs@.subrange(0, i as int + 1);
            assert(pre.drop_last() =~= bs@.subrange(0, i as int));
            assert(out@ =~= field_wire(pre, which as int));
        }
        i += 1;
    }
    proof {
        assert(bs@.subrange(0, bs@.len() as int) =~= bs@);
    }
    out
}

impl StreamCase {
    /// Serialise to the stream oracle casefile format (see
    /// `stream_case_wire`).
    pub fn to_binary(&self) -> (b: Vec<u8>)
        ensures
            b@ == stream_case_wire(*self),
    {
        let mut buf: Vec<u8> = Vec::new();
        push_u32(&mut buf, self.variant);
        push_u32(&mut buf, self.symbol_bits);
        push_u32(&mut buf, self.bypass_bits);
        push_u32(&mut buf, self.batches.len() as u32);
        let ghost head = buf@;
        let mut i: usize = 0;
        while i < self.batches.len()
            invariant
                i <= self.batches@.len(),
                head == u32_le(self.variant) + u32_le(self.symbol_bits) + u32_le(self.bypass_bits)
                    + u32_le(self.batches@.len() as u32),
                buf@ == head + batches_wire(self.batches@.subrange(0, i as int)),
            decreases self.batches@.len() - i,
        {
            push_batch(&mut buf, &self.batches[i]);
            proof {
                let pre = self.batches@.subrange(0, i as int + 1);
                assert(pre.drop_last() =~= self.batches@.subrange(0, i as int));
                assert(buf@ =~= head + batches_wire(pre));
            }
            i += 1;
        }
        proof {
            assert(self.batches@.subrange(0, self.batches@.len() as int) =~= self.batches@);
        }
        buf
    }

    /// Hash of the casefile.
    pub fn input_hash(&self) -> (s: String)
        ensures
            s@ == sha_hex(stream_case_wire(*self)),
    {
        let b: Vec<u8> = self.to_binary();
        sha256(b.as_slice())
    }

    /// Hashes of each field's length-prefixed arrays over all batches, in
    /// push order.
    pub fn input_hashes(&self) -> (h: InputHashes)
        ensures
            hashes_are(
                h,
                sha_hex(field_wire(self.batches@, 0)),
                sha_hex(field_wire(self.batches@, 1)),
                sha_hex(field_wire(self.batches@, 2)),
                sha_hex(field_wire(self.batches@, 3)),
                sha_hex(field_wire(self.batches@, 4)),
            ),
    {
        let bs: &[StreamBatch] = self.batches.as_slice();
        let lengths: Vec<u8> = field_bytes(bs, 0);
        let offsets: Vec<u8> = field_bytes(bs, 1);
        let table: Vec<u8> = field_bytes(bs, 2);
        let indices: Vec<u8> = field_bytes(bs, 3);
        let values: Vec<u8> = field_bytes(bs, 4);
        InputHashes {
            pmf_lengths_sha256: sha256(lengths.as_slice()),
            pmf_offsets_sha256: sha256(offsets.as_slice()),
            pmf_table_sha256: sha256(table.as_slice()),
            indices_sha256: sha256(indices.as_slice()),
            values_sha256: sha256(values.as_slice()),
        }
    }
}

/// Encode all batches into one persistent stream and flush once (see
/// `stream_encode_spec`).
pub fn rust_stream_encode(case: &StreamCase) -> (r: Result<Vec<u8>, String>)
    ensures
        match stream_encode_spec(*case) {
            Ok(b) => r is Ok && r->Ok_0@ == b,
            Err(e) => r is Err && r->Err_0@ == e,
        },
{
    let n: usize = case.batches.len();
    if case.variant == 1 {
        let mut stream: RansEncoderStream<RansByte> = RansEncoderStream::new();
        let mut i: usize = 0;
        while i < n
            invariant
                case.variant == 1,
                n == case.batches@.len(),
                i <= n,
                stream.wf(),
                stream_push_all(*case, i as int) is Ok,
                i == 0 ==> stream.session() is None,
                i > 0 ==> stream.session() == Some(stream_push_all(*case, i as int)->Ok_0),
            decreases n - i,
        {
            let batch: &StreamBatch = &case.batches[i];
            let mut enc: EntropyEncoder<RansByte> = EntropyEncoder::new();
            match enc.initialize(
                batch.pmf_lengths.as_slice(),
                batch.pmf_offsets.as_slice(),
                batch.pmf_table.as_slice(),
                case.symbol_bits,
                case.bypass_bits,
            ) {
                Ok(()) => {},
                Err(e) => {
                    proof {
                        lemma_push_err_stable(*case, i as int + 1, n as int);
                    }
                    return Err(join("EntropyEncoder init error: ", e.describe().as_str()));
                },
            }
            match stream.push(&enc, batch.indices.as_slice(), batch.values.as_slice()) {
                Ok(()) => {},
                Err(e) => {
                    proof {
                        lemma_push_err_stable(*case, i as int + 1, n as int);
                    }
                    return Err(join("stream push error: ", e.describe().as_str()));
                },
            }
            proof {
                if i == 0 {
                    assert(Seq::<RawOp>::empty() + batch_result(
                        Some(batch_model(*case, *batch)),
                        batch.indices@,
                        batch.values@,
                    ).1 =~= batch_result(Some(batch_model(*case, *batch)), batch.indices@, batch.values@).1);
                }
            }
            i += 1;
        }
        match stream.flush() {
            Ok(bytes) => Ok(bytes),
            Err(e) => Err(join("stream flush error: ", e.describe().as_str())),
        }
    } else if case.variant == 0 {
        let mut stream: RansEncoderStream<Rans64> = RansEncoderStream::new();
        let mut i: usize = 0;
        while i < n
            invariant
                case.variant == 0,
                n == case.batches@.len(),
                i <= n,
                stream.wf(),
                stream_push_all(*case, i as int) is Ok,
                i == 0 ==> stream.session() is None,
                i > 0 ==> stream.session() == Some(stream_push_all(*case, i as int)->Ok_0),
            decreases n - i,
        {
            let batch: &StreamBatch = &case.batches[i];
            let mut enc: EntropyEncoder<Rans64> = EntropyEncoder::new();
            match enc.initialize(
                batch.pmf_lengths.as_slice(),
                batch.pmf_offsets.as_slice(),
                batch.pmf_table.as_slice(),
                case.symbol_bits,
                case.bypass_bits,
            ) {
                Ok(()) => {},
                Err(e) => {
                    proof {
                        lemma_push_err_stable(*case, i as int + 1, n as int);
                    }
                    return Err(join("EntropyEncoder init error: ", e.describe().as_str()));
                },
            }
            match stream.push(&enc, batch.indices.as_slice(), batch.values.as_slice()) {
                Ok(()) => {},
                Err(e) => {
                    proof {
                        lemma_push_err_stable(*case, i as int + 1, n as int);
                    }
                    return Err(join("stream push error: ", e.describe().as_str()));
                },
            }
            proof {
                if i == 0 {
                    assert(Seq::<RawOp>::empty() + batch_result(
                        Some(batch_model(*case, *batch)),
                        batch.indices@,
                        batch.values@,
                    ).1 =~= batch_result(Some(batch_model(*case, *batch)), batch.indices@, batch.values@).1);
                }
            }
            i += 1;
        }
        match stream.flush() {
            Ok(bytes) => Ok(bytes),
            Err(e) => Err(join("stream flush error: ", e.describe().as_str())),
        }
    } else {
        let mut s: String = String::from_str("unknown variant ");
        s.append(decimal(case.variant as u64).as_str());
        Err(s)
    }
}

} // verus!

verus! {

/// The views of a list of vectors.
pub open spec fn views(vs: Seq<Vec<i32>>) -> Seq<Seq<i32>> {
    vs.map_values(|v: Vec<i32>| v@)
}

/// Decode a stream with the persistent decoder, the last pushed batch
/// first (see `stream_decode_case_spec`): the values per batch in decoding
/// order.
pub fn rust_stream_decode(case: &StreamCase, data: &[u8]) -> (r: Result<Vec<Vec<i32>>, String>)
    ensures
        match stream_decode_case_spec(*case, data@) {
            Ok(vs) => r is Ok && views(r->Ok_0@) == vs,
            Err(e) => r is Err && r->Err_0@ == e,
        },
{
    let n: usize = case.batches.len();
    if case.variant == 1 {
        let mut stream: RansDecoderStream<RansByte> = RansDecoderStream::open_on(data);
        let mut out: Vec<Vec<i32>> = Vec::new();
        let mut k: usize = n;
        proof {
            match stream_decode_from(*case, data@, None, n as int) {
                Ok((vs, c2)) => {
                    assert(views(out@) + vs =~= vs);
                },
                Err(_) => {},
            }
        }
        while k > 0
            invariant
                case.variant == 1,
                n == case.batches@.len(),
                k <= n,
                stream.wf(),
                stream.contents() == data@,
                stream_decode_from(*case, data@, None, n as int) == match stream_decode_from(
                    *case,
                    data@,
                    stream.cursor(),
                    k as int,
                ) {
                    Err(e) => Err(e),
                    Ok((vs, c2)) => Ok((views(out@) + vs, c2)),
                },
            decreases k,
        {
            let batch: &StreamBatch = &case.batches[k - 1];
            let mut dec: EntropyDecoder<RansByte> = EntropyDecoder::new();
            match dec.initialize(
                batch.pmf_lengths.as_slice(),
                batch.pmf_offsets.as_slice(),
                batch.pmf_table.as_slice(),
                case.symbol_bits,
                case.bypass_bits,
            ) {
                Ok(()) => {},
                Err(e) => {
                    return Err(join("EntropyDecoder init error: ", e.describe().as_str()));
                },
            }
            let mut values: Vec<i32> = vec![0i32; batch.indices.len()];
            proof {
                assert(values@ =~= Seq::new(batch.indices@.len(), |i: int| 0i32));
            }
            let ghost cursor0 = stream.cursor();
            match stream.decode(&dec, values.as_mut_slice(), batch.indices.as_slice()) {
                Ok(()) => {},
                Err(e) => {
                    return Err(join("stream decode error: ", e.describe().as_str()));
                },
            }
            proof {
                let rest = stream_decode_from(*case, data@, stream.cursor(), k as int - 1);
                match rest {
                    Ok((vs, c2)) => {
                        assert(views(out@.push(values)) + vs =~= views(out@) + (seq![values@] + vs));
                    },
                    Err(_) => {},
                }
            }
            out.push(values);
            k -= 1;
        }
        proof {
            assert(views(out@) + Seq::<Seq<i32>>::empty() =~= views(out@));
        }
        match stream.decode_eof() {
            Ok(()) => Ok(out),
            Err(e) => Err(join("stream decodeEOF error: ", e.describe().as_str())),
        }
    } else if case.variant == 0 {
        if data.len() % 4 != 0 {
            return Err(String::from_str("Rans64 stream length must be a multiple of 4"));
        }
        let mut stream: RansDecoderStream<Rans64> = RansDecoderStream::open_on(data);
        let mut out: Vec<Vec<i32>> = Vec::new();
        let mut k: usize = n;
        proof {
            match stream_decode_from(*case, data@, None, n as int) {
                Ok((vs, c2)) => {
                    assert(views(out@) + vs =~= vs);
                },
                Err(_) => {},
            }
        }
        while k > 0
            invariant
                case.variant == 0,
                data@.len() % 4 == 0,
                n == case.batches@.len(),
                k <= n,
                stream.wf(),
                stream.contents() == data@,
                stream_decode_from(*case, data@, None, n as int) == match stream_decode_from(
                    *case,
                    data@,
                    stream.cursor(),
                    k as int,
                ) {
                    Err(e) => Err(e),
                    Ok((vs, c2)) => Ok((views(out@) + vs, c2)),
                },
            decreases k,
        {
            let batch: &StreamBatch = &case.batches[k - 1];
            let mut dec: EntropyDecoder<Rans64> = EntropyDecoder::new();
            match dec.initialize(
                batch.pmf_lengths.as_slice(),
                batch.pmf_offsets.as_slice(),
                batch.pmf_table.as_slice(),
                case.symbol_bits,
                case.bypass_bits,
            ) {
                Ok(()) => {},
                Err(e) => {
                    return Err(join("EntropyDecoder init error: ", e.describe().as_str()));
                },
            }
            let mut values: Vec<i32> = vec![0i32; batch.indices.len()];
            proof {
                assert(values@ =~= Seq::new(batch.indices@.len(), |i: int| 0i32));
            }
            match stream.decode(&dec, values.as_mut_slice(), batch.indices.as_slice()) {
                Ok(()) => {},
                Err(e) => {
                    return Err(join("stream decode error: ", e.describe().as_str()));
                },
            }
            proof {
                let rest = stream_decode_from(*case, data@, stream.cursor(), k as int - 1);
                match rest {
                    Ok((vs, c2)) => {
                        assert(views(out@.push(values)) + vs =~= views(out@) + (seq![values@] + vs));
                    },
                    Err(_) => {},
                }
            }
            out.push(values);
            k -= 1;
        }
        proof {
            assert(views(out@) + Seq::<Seq<i32>>::empty() =~= views(out@));
        }
        match stream.decode_eof() {
            Ok(()) => Ok(out),
            Err(e) => Err(join("stream decodeEOF error: ", e.describe().as_str())),
        }
    } else {
        let mut s: String = String::from_str("unknown variant ");
        s.append(decimal(case.variant as u64).as_str());
        Err(s)
    }
}

/// The expected values in decoding order (the last pushed batch first).
pub fn expected_values(case: &StreamCase) -> (r: Vec<Vec<i32>>)
    ensures
        views(r@) == case_expected(*case),
{
    let n: usize = case.batches.len();
    let mut out: Vec<Vec<i32>> = Vec::new();
    let mut k: usize = n;
    while k > 0
        invariant
            n == case.batches@.len(),
            k <= n,
            out@.len() == n - k,
            forall|i: int| 0 <= i < n - k ==> #[trigger] out@[i]@ == case.batches@[n - 1 - i].values@,
        decreases k,
    {
        let v: Vec<i32> = vstd::slice::slice_to_vec(case.batches[k - 1].values.as_slice());
        out.push(v);
        k -= 1;
    }
    proof {
        assert(views(out@) =~= case_expected(*case));
    }
    out
}

/// The number of differing positions among the first `n` of two value
/// lists.
pub open spec fn prefix_mismatches(a: Seq<i32>, b: Seq<i32>, n: int) -> int
    decreases n,
{
    if n <= 0 {
        0
    } else {
        prefix_mismatches(a, b, n - 1) + if a[n - 1] != b[n - 1] {
            1int
        } else {
            0int
        }
    }
}

/// The shorter of two lengths.
pub open spec fn min_len(a: nat, b: nat) -> int {
    if a <= b {
        a as int
    } else {
        b as int
    }
}

/// The number of differing values of two decodes: batch by batch over the
/// batches both have, value by value over the values both have.
pub open spec fn batch_mismatches(a: Seq<Seq<i32>>, b: Seq<Seq<i32>>, n: int) -> int
    decreases n,
{
    if n <= 0 {
        0
    } else {
        batch_mismatches(a, b, n - 1) + prefix_mismatches(a[n - 1], b[n - 1], min_len(a[n - 1].len(), b[n - 1].len()))
    }
}

proof fn lemma_prefix_mismatches_range(a: Seq<i32>, b: Seq<i32>, n: int)
    requires
        n >= 0,
    ensures
        0 <= prefix_mismatches(a, b, n) <= n,
    decreases n,
{
    if n > 0 {
        lemma_prefix_mismatches_range(a, b, n - 1);
    }
}

proof fn lemma_batch_mismatches_grow(a: Seq<Seq<i32>>, b: Seq<Seq<i32>>, i: int, n: int)
    requires
        0 <= i <= n,
    ensures
        0 <= batch_mismatches(a, b, i) <= batch_mismatches(a, b, n),
    decreases n,
{
    if n > 0 {
        if i < n {
            lemma_batch_mismatches_grow(a, b, i, n - 1);
        } else {
            lemma_batch_mismatches_grow(a, b, 0, n - 1);
        }
        lemma_prefix_mismatches_range(a[n - 1], b[n - 1], min_len(a[n - 1].len(), b[n - 1].len()));
    }
}

/// Count the differing values of two decodes (see `batch_mismatches`).
pub fn count_mismatches(decoded: &[Vec<i32>], expected: &[Vec<i32>]) -> (r: usize)
    requires
        batch_mismatches(
            views(decoded@),
            views(expected@),
            min_len(decoded@.len(), expected@.len()),
        ) <= usize::MAX,
    ensures
        r == batch_mismatches(views(decoded@), views(expected@), min_len(decoded@.len(), expected@.len())),
{
    let ghost a = views(decoded@);
    let ghost b = views(expected@);
    let n: usize = if decoded.len() <= expected.len() {
        decoded.len()
    } else {
        expected.len()
    };
    let mut total: usize = 0;
    let mut i: usize = 0;
    while i < n
        invariant
            n == min_len(decoded@.len(), expected@.len()),
            a == views(decoded@),
            b == views(expected@),
            batch_mismatches(a, b, n as int) <= usize::MAX,
            i <= n,
            total == batch_mismatches(a, b, i as int),
        decreases n - i,
    {
        let x: &Vec<i32> = &decoded[i];
        let y: &Vec<i32> = &expected[i];
        let m: usize = if x.len() <= y.len() {
            x.len()
        } else {
            y.len()
        };
        proof {
            assert(a[i as int] == x@);
            assert(b[i as int] == y@);
            lemma_batch_mismatches_grow(a, b, i as int + 1, n as int);
        }
        let mut j: usize = 0;
        let mut count: usize = 0;
        while j < m
            invariant
                m == min_len(x@.len(), y@.len()),
                j <= m,
                count == prefix_mismatches(x@, y@, j as int),
                total + prefix_mismatches(x@, y@, m as int) <= usize::MAX,
            decreases m - j,
        {
            proof {
                lemma_prefix_mismatches_range(x@, y@, j as int);
                assert(prefix_mismatches(x@, y@, j as int + 1) <= prefix_mismatches(x@, y@, m as int)) by {
                    lemma_prefix_mismatches_grow(x@, y@, j as int + 1, m as int);
                }
            }
            if x[j] != y[j] {
                count += 1;
            }
            j += 1;
        }
        total += count;
        i += 1;
    }
    total
}

proof fn lemma_prefix_mismatches_grow(a: Seq<i32>, b: Seq<i32>, i: int, n: int)
    requires
        0 <= i <= n,
    ensures
        prefix_mismatches(a, b, i) <= prefix_mismatches(a, b, n),
    decreases n,
{
    if n > i {
        lemma_prefix_mismatches_grow(a, b, i, n - 1);
    }
}

} // verus!

verus! {

/// A batch's five arrays.
pub type BatchArrays = (Seq<i32>, Seq<i32>, Seq<i32>, Seq<i32>, Seq<i32>);

/// A batch holds the given arrays.
pub open spec fn batch_is(b: StreamBatch, s: BatchArrays) -> bool {
    &&& b.pmf_lengths@ == s.0
    &&& b.pmf_offsets@ == s.1
    &&& b.pmf_table@ == s.2
    &&& b.indices@ == s.3
    &&& b.values@ == s.4
}

/// The reference batch with two distributions.
pub open spec fn pmf1_arrays() -> BatchArrays {
    (
        seq![4i32, 6],
        seq![1i32, 2],
        seq![1i32, 3, 1, 1, 1, 3, 5, 3, 1, 1],
        seq![0i32, 1, 0, 1],
        seq![-2i32, 1, 0, 1],
    )
}

/// The reference batch with one distribution.
pub open spec fn pmf2_arrays() -> BatchArrays {
    (seq![5i32], seq![1i32], seq![1i32, 3, 3, 1, 1], seq![0i32, 0, 0], seq![-2i32, 1, 2])
}

/// A 256-element batch over the two-distribution PMF: indices alternate
/// between the distributions, values count up from 0.
pub open spec fn big_arrays() -> BatchArrays {
    (
        seq![4i32, 6],
        seq![1i32, 2],
        seq![1i32, 3, 1, 1, 1, 3, 5, 3, 1, 1],
        Seq::new(256, |i: int| (i % 2) as i32),
        Seq::new(256, |i: int| i as i32),
    )
}

/// A stream case with symbol bits 16 holds the given batches.
pub open spec fn stream_case_is(c: StreamCase, seed: u64, variant: u32, bypass_bits: u32, bs: Seq<BatchArrays>) -> bool {
    &&& c.seed == seed
    &&& c.variant == variant
    &&& c.symbol_bits == 16
    &&& c.bypass_bits == bypass_bits
    &&& c.batches@.len() == bs.len()
    &&& forall|i: int| 0 <= i < bs.len() ==> batch_is(#[trigger] c.batches@[i], bs[i])
}

/// The stream corpus: `(seed, variant, bypass_bits, batches)` of case `j`.
pub open spec fn stream_corpus(j: int) -> (u64, u32, u32, Seq<BatchArrays>) {
    if j == 0 {
        (10, 1, 4, seq![pmf2_arrays(), pmf1_arrays()])
    } else if j == 1 {
        (11, 0, 4, seq![pmf2_arrays(), pmf1_arrays()])
    } else if j == 2 {
        (12, 1, 4, seq![pmf2_arrays(), big_arrays(), pmf1_arrays()])
    } else if j == 3 {
        (13, 0, 4, seq![pmf2_arrays(), big_arrays(), pmf1_arrays()])
    } else if j == 4 {
        (14, 1, 4, seq![pmf1_arrays()])
    } else if j == 5 {
        (15, 0, 4, seq![pmf1_arrays()])
    } else if j == 6 {
        (16, 1, 2, seq![pmf2_arrays(), pmf1_arrays()])
    } else {
        (17, 1, 4, seq![pmf1_arrays(), pmf1_arrays(), pmf1_arrays()])
    }
}

/// The reference batch with two distributions.
pub fn batch_pmf1() -> (b: StreamBatch)
    ensures
        batch_is(b, pmf1_arrays()),
{
    let b = StreamBatch {
        pmf_lengths: vec![4, 6],
        pmf_offsets: vec![1, 2],
        pmf_table: vec![1, 3, 1, 1, 1, 3, 5, 3, 1, 1],
        indices: vec![0, 1, 0, 1],
        values: vec![-2, 1, 0, 1],
    };
    proof {
        assert(b.pmf_lengths@ =~= pmf1_arrays().0);
        assert(b.pmf_offsets@ =~= pmf1_arrays().1);
        assert(b.pmf_table@ =~= pmf1_arrays().2);
        assert(b.indices@ =~= pmf1_arrays().3);
        assert(b.values@ =~= pmf1_arrays().4);
    }
    b
}

/// The reference batch with one distribution.
pub fn batch_pmf2() -> (b: StreamBatch)
    ensures
        batch_is(b, pmf2_arrays()),
{
    let b = StreamBatch {
        pmf_lengths: vec![5],
        pmf_offsets: vec![1],
        pmf_table: vec![1, 3, 3, 1, 1],
        indices: vec![0, 0, 0],
        values: vec![-2, 1, 2],
    };
    proof {
        assert(b.pmf_lengths@ =~= pmf2_arrays().0);
        assert(b.pmf_offsets@ =~= pmf2_arrays().1);
        assert(b.pmf_table@ =~= pmf2_arrays().2);
        assert(b.indices@ =~= pmf2_arrays().3);
        assert(b.values@ =~= pmf2_arrays().4);
    }
    b
}

fn batch_big() -> (b: StreamBatch)
    ensures
        batch_is(b, big_arrays()),
{
    let mut indices: Vec<i32> = Vec::new();
    let mut values: Vec<i32> = Vec::new();
    let mut i: i32 = 0;
    while i < 256
        invariant
            0 <= i <= 256,
            indices@ == Seq::new(i as nat, |k: int| (k % 2) as i32),
            values@ == Seq::new(i as nat, |k: int| k as i32),
        decreases 256 - i,
    {
        indices.push(i % 2);
        values.push(i);
        proof {
            assert(indices@ =~= Seq::new((i + 1) as nat, |k: int| (k % 2) as i32));
            assert(values@ =~= Seq::new((i + 1) as nat, |k: int| k as i32));
        }
        i += 1;
    }
    let b = StreamBatch {
        pmf_lengths: vec![4, 6],
        pmf_offsets: vec![1, 2],
        pmf_table: vec![1, 3, 1, 1, 1, 3, 5, 3, 1, 1],
        indices,
        values,
    };
    proof {
        assert(b.pmf_lengths@ =~= big_arrays().0);
        assert(b.pmf_offsets@ =~= big_arrays().1);
        assert(b.pmf_table@ =~= big_arrays().2);
    }
    b
}

fn stream_case(seed: u64, variant: u32, bypass_bits: u32, batches: Vec<StreamBatch>) -> (c: StreamCase)
    ensures
        c.seed == seed,
        c.variant == variant,
        c.symbol_bits == 16,
        c.bypass_bits == bypass_bits,
        c.batches == batches,
{
    StreamCase { seed, variant, symbol_bits: 16, bypass_bits, batches }
}

/// Generate the multipart stream corpus (see `stream_corpus`).
pub fn generate_stream_cases() -> (cases: Vec<StreamCase>)
    ensures
        cases@.len() == 8,
        forall|j: int|
            #![trigger cases@[j]]
            0 <= j < 8 ==> {
                let f = stream_corpus(j);
                stream_case_is(cases@[j], f.0, f.1, f.2, f.3)
            },
{
    let mut cases: Vec<StreamCase> = Vec::new();
    cases.push(stream_case(10, 1, 4, vec![batch_pmf2(), batch_pmf1()]));
    cases.push(stream_case(11, 0, 4, vec![batch_pmf2(), batch_pmf1()]));
    cases.push(stream_case(12, 1, 4, vec![batch_pmf2(), batch_big(), batch_pmf1()]));
    cases.push(stream_case(13, 0, 4, vec![batch_pmf2(), batch_big(), batch_pmf1()]));
    cases.push(stream_case(14, 1, 4, vec![batch_pmf1()]));
    cases.push(stream_case(15, 0, 4, vec![batch_pmf1()]));
    cases.push(stream_case(16, 1, 2, vec![batch_pmf2(), batch_pmf1()]));
    cases.push(stream_case(17, 1, 4, vec![batch_pmf1(), batch_pmf1(), batch_pmf1()]));
    proof {
        assert forall|j: int| 0 <= j < 8 implies {
            let f = stream_corpus(j);
            stream_case_is(#[trigger] cases@[j], f.0, f.1, f.2, f.3)
        } by {
            let f = stream_corpus(j);
            let c = cases@[j];
            assert forall|i: int| 0 <= i < f.3.len() implies batch_is(#[trigger] c.batches@[i], f.3[i]) by {
            }
        }
    }
    cases
}

} // verus!
