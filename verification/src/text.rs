//! Text renderings used in court records: decimal numbers, and the debug
//! forms and messages of the library's error values.
use crate::entropy::EntropyError;
use crate::error::RawRansError;
use vstd::prelude::*;
use vstd::string::*;

verus! {

/// The ASCII digit of `d < 10`.
pub open spec fn digit_char(d: nat) -> char {
    (48 + d) as char
}

/// Decimal digits of `n`, most significant first, without leading zeros.
pub open spec fn dec_chars(n: nat) -> Seq<char>
    decreases n,
{
    if n < 10 {
        seq![digit_char(n)]
    } else {
        dec_chars(n / 10).push(digit_char(n % 10))
    }
}

/// One decimal digit as a string.
fn digit_str(d: u64) -> (s: &'static str)
    requires
        d < 10,
    ensures
        s@ == seq![digit_char(d as nat)],
{
    let digits: &'static str = "0123456789";
    proof {
        reveal_strlit("0123456789");
        assert(digits@.len() == 10);
        assert(vstd::utf8::is_ascii_chars(digits@));
        assert(digits@[d as int] == digit_char(d as nat));
    }
    let s: &str = digits.substring_ascii(d as usize, d as usize + 1);
    proof {
        assert(s@ =~= seq![digit_char(d as nat)]);
    }
    s
}

/// The decimal rendering of `n`.
pub fn decimal(n: u64) -> (s: String)
    ensures
        s@ == dec_chars(n as nat),
    decreases n,
{
    if n < 10 {
        String::from_str(digit_str(n))
    } else {
        let mut s: String = decimal(n / 10);
        s.append(digit_str(n % 10));
        s
    }
}

/// The debug text of a raw rANS error.
pub open spec fn raw_error_text(e: RawRansError) -> Seq<char> {
    match e {
        RawRansError::InvalidScaleBits { provided, max_safe } => "InvalidScaleBits { provided: "@
            + dec_chars(provided as nat) + ", max_safe: "@ + dec_chars(max_safe as nat) + " }"@,
        RawRansError::InvalidParameters => "InvalidParameters"@,
    }
}

/// The debug text of an entropy error.
pub open spec fn entropy_error_text(e: EntropyError) -> Seq<char> {
    match e {
        EntropyError::InvalidPmf => "InvalidPmf"@,
        EntropyError::InvalidParams => "InvalidParams"@,
        EntropyError::InvalidState => "InvalidState"@,
        EntropyError::InvalidStream => "InvalidStream"@,
        EntropyError::RawRansError(r) => "RawRansError("@ + raw_error_text(r) + ")"@,
    }
}

impl RawRansError {
    /// The debug text of the error (as `{:?}` prints it).
    pub fn describe(&self) -> (s: String)
        ensures
            s@ == raw_error_text(*self),
    {
        match self {
            RawRansError::InvalidScaleBits { provided, max_safe } => {
                let mut s: String = String::from_str("InvalidScaleBits { provided: ");
                s.append(decimal(*provided as u64).as_str());
                s.append(", max_safe: ");
                s.append(decimal(*max_safe as u64).as_str());
                s.append(" }");
                s
            },
            RawRansError::InvalidParameters => String::from_str("InvalidParameters"),
        }
    }
}

impl EntropyError {
    /// The debug text of the error (as `{:?}` prints it).
    pub fn describe(&self) -> (s: String)
        ensures
            s@ == entropy_error_text(*self),
    {
        match self {
            EntropyError::InvalidPmf => String::from_str("InvalidPmf"),
            EntropyError::InvalidParams => String::from_str("InvalidParams"),
            EntropyError::InvalidState => String::from_str("InvalidState"),
            EntropyError::InvalidStream => String::from_str("InvalidStream"),
            EntropyError::RawRansError(r) => {
                let mut s: String = String::from_str("RawRansError(");
                s.append(r.describe().as_str());
                s.append(")");
                s
            },
        }
    }
}

/// The message of a raw rANS error (as `{}` prints it).
pub open spec fn raw_error_message(e: RawRansError) -> Seq<char> {
    match e {
        RawRansError::InvalidScaleBits { provided, max_safe } => "invalid scale_bits "@ + dec_chars(
            provided as nat,
        ) + ": must be in [2, "@ + dec_chars(max_safe as nat) + "]"@,
        RawRansError::InvalidParameters => "invalid rANS parameters"@,
    }
}

/// The message of an entropy error (as `{}` prints it).
pub open spec fn entropy_error_message(e: EntropyError) -> Seq<char> {
    match e {
        EntropyError::InvalidPmf => "invalid PMF data"@,
        EntropyError::InvalidParams => "invalid parameter value"@,
        EntropyError::InvalidState => "invalid state (not initialized)"@,
        EntropyError::InvalidStream => "invalid stream"@,
        EntropyError::RawRansError(r) => "raw rANS error: "@ + raw_error_message(r),
    }
}

impl RawRansError {
    /// The message of the error (see `raw_error_message`).
    pub fn to_string(&self) -> (s: String)
        ensures
            s@ == raw_error_message(*self),
    {
        match self {
            RawRansError::InvalidScaleBits { provided, max_safe } => {
                let mut s: String = String::from_str("invalid scale_bits ");
                s.append(decimal(*provided as u64).as_str());
                s.append(": must be in [2, ");
                s.append(decimal(*max_safe as u64).as_str());
                s.append("]");
                s
            },
            RawRansError::InvalidParameters => String::from_str("invalid rANS parameters"),
        }
    }
}

impl EntropyError {
    /// The message of the error (see `entropy_error_message`).
    pub fn to_string(&self) -> (s: String)
        ensures
            s@ == entropy_error_message(*self),
    {
        match self {
            EntropyError::InvalidPmf => String::from_str("invalid PMF data"),
            EntropyError::InvalidParams => String::from_str("invalid parameter value"),
            EntropyError::InvalidState => String::from_str("invalid state (not initialized)"),
            EntropyError::InvalidStream => String::from_str("invalid stream"),
            EntropyError::RawRansError(r) => {
                let mut s: String = String::from_str("raw rANS error: ");
                s.append(r.to_string().as_str());
                s
            },
        }
    }
}

/// `a` followed by `b`.
pub fn join(a: &str, b: &str) -> (s: String)
    ensures
        s@ == a@ + b@,
{
    let mut s: String = String::from_str(a);
    s.append(b);
    s
}

} // verus!
