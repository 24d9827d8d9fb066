//! Little-endian wire encoding of the oracle casefiles: 32-bit words,
//! `(start, freq)` pairs, and length-prefixed `i32` arrays.
use crate::oracle::i32s_le_bytes;
use crate::raw_byte::le_bytes4;

use vstd::prelude::*;

verus! {

/// The little-endian bytes of a 32-bit word.
pub open spec fn u32_le(v: u32) -> Seq<u8> {
    le_bytes4(v as nat)
}

/// `(start, freq)` pairs as consecutive little-endian words.
pub open spec fn pairs_le(s: Seq<(u32, u32)>) -> Seq<u8>
    decreases s.len(),
{
    if s.len() == 0 {
        Seq::empty()
    } else {
        pairs_le(s.drop_last()) + u32_le(s.last().0) + u32_le(s.last().1)
    }
}

/// A length-prefixed `i32` array: its length as a word, then its values.
pub open spec fn i32_array_wire(arr: Seq<i32>) -> Seq<u8> {
    u32_le(arr.len() as u32) + i32s_le_bytes(arr)
}

/// Append the little-endian bytes of `v`.
pub fn push_u32(buf: &mut Vec<u8>, v: u32)
    ensures
        final(buf)@ == old(buf)@ + u32_le(v),
{
    let b0: u8 = v as u8;
    let b1: u8 = (v >> 8u32) as u8;
    let b2: u8 = (v >> 16u32) as u8;
    let b3: u8 = (v >> 24u32) as u8;
    proof {
        assert(b0 == (v % 256) as u8) by (bit_vector)
            requires
                b0 == v as u8,
        ;
        assert(b1 == ((v / 0x100) % 256) as u8) by (bit_vector)
            requires
                b1 == (v >> 8u32) as u8,
        ;
        assert(b2 == ((v / 0x1_0000) % 256) as u8) by (bit_vector)
            requires
                b2 == (v >> 16u32) as u8,
        ;
        assert(b3 == ((v / 0x100_0000) % 256) as u8) by (bit_vector)
            requires
                b3 == (v >> 24u32) as u8,
        ;
    }
    buf.push(b0);
    buf.push(b1);
    buf.push(b2);
    buf.push(b3);
    proof {
        assert(final(buf)@ =~= old(buf)@ + u32_le(v));
    }
}

/// Append `data`.
pub fn push_bytes(buf: &mut Vec<u8>, data: &[u8])
    ensures
        final(buf)@ == old(buf)@ + data@,
{
    let mut i: usize = 0;
    while i < data.len()
        invariant
            i <= data@.len(),
            buf@ == old(buf)@ + data@.subrange(0, i as int),
        decreases data@.len() - i,
    {
        buf.push(data[i]);
        proof {
            assert(buf@ =~= old(buf)@ + data@.subrange(0, i as int + 1));
        }
        i += 1;
    }
    proof {
        assert(data@.subrange(0, data@.len() as int) =~= data@);
    }
}

/// Append `(start, freq)` pairs.
pub fn push_pairs(buf: &mut Vec<u8>, s: &[(u32, u32)])
    ensures
        final(buf)@ == old(buf)@ + pairs_le(s@),
{
    let mut i: usize = 0;
    while i < s.len()
        invariant
            i <= s@.len(),
            buf@ == old(buf)@ + pairs_le(s@.subrange(0, i as int)),
        decreases s@.len() - i,
    {
        let (start, freq) = s[i];
        push_u32(buf, start);
        push_u32(buf, freq);
        proof {
            let pre = s@.subrange(0, i as int + 1);
            assert(pre.drop_last() =~= s@.subrange(0, i as int));
            assert(buf@ =~= old(buf)@ + pairs_le(pre));
        }
        i += 1;
    }
    proof {
        assert(s@.subrange(0, s@.len() as int) =~= s@);
    }
}

/// The bytes of `(start, freq)` pairs.
pub fn pairs_bytes(s: &[(u32, u32)]) -> (b: Vec<u8>)
    ensures
        b@ == pairs_le(s@),
{
    let mut b: Vec<u8> = Vec::new();
    push_pairs(&mut b, s);
    proof {
        assert(b@ =~= pairs_le(s@));
    }
    b
}

/// Append a length-prefixed `i32` array.
pub fn push_i32_array(buf: &mut Vec<u8>, arr: &[i32])
    ensures
        final(buf)@ == old(buf)@ + i32_array_wire(arr@),
{
    push_u32(buf, arr.len() as u32);
    let ghost head: Seq<u8> = buf@;
    let mut i: usize = 0;
    while i < arr.len()
        invariant
            i <= arr@.len(),
            head == old(buf)@ + u32_le(arr@.len() as u32),
            buf@ == head + i32s_le_bytes(arr@.subrange(0, i as int)),
        decreases arr@.len() - i,
    {
        push_u32(buf, arr[i] as u32);
        proof {
            let pre = arr@.subrange(0, i as int + 1);
            let us = pre.map_values(|v: i32| v as u32);
            assert(us.drop_last() =~= arr@.subrange(0, i as int).map_values(|v: i32| v as u32));
            assert(us.last() == arr@[i as int] as u32);
            assert(buf@ =~= head + i32s_le_bytes(pre));
        }
        i += 1;
    }
    proof {
        assert(arr@.subrange(0, arr@.len() as int) =~= arr@);
    }
}

} // verus!
