//! Lower-case hexadecimal encoding of byte strings (hash display).
use vstd::prelude::*;
use vstd::string::*;
use vstd::utf8::is_ascii_chars;

verus! {

/// The lower-case hex digit of `n < 16`.
pub open spec fn hex_digit(n: nat) -> char {
    if n < 10 {
        (48 + n) as char
    } else {
        (87 + n) as char
    }
}

/// Two lower-case hex digits per byte, high nibble first.
pub open spec fn hex_chars(data: Seq<u8>) -> Seq<char>
    decreases data.len(),
{
    if data.len() == 0 {
        Seq::empty()
    } else {
        hex_chars(data.drop_last()) + seq![
            hex_digit((data.last() / 16) as nat),
            hex_digit((data.last() % 16) as nat),
        ]
    }
}

/// Hex-encode `data` (two lower-case digits per byte).
pub fn encode(data: &[u8]) -> (s: String)
    ensures
        s@ == hex_chars(data@),
{
    let digits: &str = "0123456789abcdef";
    proof {
        reveal_strlit("0123456789abcdef");
        assert(digits@.len() == 16);
        assert forall|k: int| 0 <= k < 16 implies #[trigger] digits@[k] == hex_digit(k as nat) by {
        }
        assert(is_ascii_chars(digits@));
    }
    let mut s: String = String::new();
    let mut i: usize = 0;
    while i < data.len()
        invariant
            i <= data@.len(),
            digits@.len() == 16,
            is_ascii(digits),
            forall|k: int| 0 <= k < 16 ==> #[trigger] digits@[k] == hex_digit(k as nat),
            s@ == hex_chars(data@.subrange(0, i as int)),
        decreases data@.len() - i,
    {
        let b: u8 = data[i];
        let hi: usize = (b >> 4u8) as usize;
        let lo: usize = (b & 0x0Fu8) as usize;
        proof {
            assert(b >> 4u8 == b / 16) by (bit_vector);
            assert(b & 0x0Fu8 == b % 16) by (bit_vector);
        }
        s.append(digits.substring_ascii(hi, hi + 1));
        s.append(digits.substring_ascii(lo, lo + 1));
        proof {
            let pre = data@.subrange(0, i as int + 1);
            assert(pre.drop_last() =~= data@.subrange(0, i as int));
            assert(s@ =~= hex_chars(pre));
        }
        i += 1;
    }
    proof {
        assert(data@.subrange(0, data@.len() as int) =~= data@);
    }
    s
}

} // verus!
