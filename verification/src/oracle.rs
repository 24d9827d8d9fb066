//! Forensic utilities shared by the differential courts: input hashing,
//! byte comparison, and residual classification.
use crate::casefile::{sha256, sha256_digest, sha_hex, Comparison, DifferentialResult, ResidualClassification};
use crate::entropy::units_le_bytes;
use crate::hex::hex_chars;
use crate::stream::units_to_le_bytes;
use crate::text::{dec_chars, decimal};
use vstd::prelude::*;
use vstd::string::*;

verus! {

/// Oracle commit from the upstream lock.
pub const ORACLE_COMMIT: &'static str = "0500356a8d6146dd8dc8911022cbeca19675614f";

/// Docker image of the oracle.
pub const ORACLE_IMAGE: &'static str = "msrtc-rans-rs-oracle:debian12";

/// Schema version of all results.
pub const SCHEMA_VERSION: u32 = 1;

/// Root path of residual storage (relative to the workspace root).
pub const RESIDUALS_DIR: &'static str = "../courts/residuals";

/// Result of running the oracle CLI.
#[derive(Debug, Clone)]
pub struct OracleResponse {
    /// Reported status.
    pub status: String,
    /// Reported hex of the output.
    pub hex: String,
    /// Reported SHA-256 of the output.
    pub sha256: String,
    /// Reported output length.
    pub length: usize,
    /// The output bitstream.
    pub raw_output: Vec<u8>,
}

/// The canonical little-endian bytes of signed 32-bit values.
pub open spec fn i32s_le_bytes(arr: Seq<i32>) -> Seq<u8> {
    units_le_bytes(arr.map_values(|v: i32| v as u32))
}

/// SHA-256 (lower-case hex) of the canonical little-endian bytes of an
/// `i32` array.
pub fn hash_i32_array(arr: &[i32]) -> (s: String)
    ensures
        s@ == hex_chars(sha256_digest(i32s_le_bytes(arr@))),
{
    let mut units: Vec<u32> = Vec::with_capacity(arr.len());
    let mut i: usize = 0;
    while i < arr.len()
        invariant
            i <= arr@.len(),
            units@ == arr@.subrange(0, i as int).map_values(|v: i32| v as u32),
        decreases arr@.len() - i,
    {
        units.push(arr[i] as u32);
        proof {
            assert(units@ =~= arr@.subrange(0, i as int + 1).map_values(|v: i32| v as u32));
        }
        i += 1;
    }
    proof {
        assert(arr@.subrange(0, arr@.len() as int) =~= arr@);
    }
    let bytes: Vec<u8> = units_to_le_bytes(units.as_slice());
    sha256(bytes.as_slice())
}

/// SHA-256 (lower-case hex) of the canonical little-endian bytes of a
/// `u32` array.
pub fn hash_u32_array(arr: &[u32]) -> (s: String)
    ensures
        s@ == hex_chars(sha256_digest(units_le_bytes(arr@))),
{
    let bytes: Vec<u8> = units_to_le_bytes(arr);
    sha256(bytes.as_slice())
}

/// The number of differing positions among the first `n`.
pub open spec fn diff_count(a: Seq<u8>, b: Seq<u8>, n: int) -> nat
    decreases n,
{
    if n <= 0 {
        0
    } else {
        diff_count(a, b, n - 1) + if a[n - 1] != b[n - 1] {
            1nat
        } else {
            0nat
        }
    }
}

/// The first differing position at or after `i` and below `n` (`n` if none).
pub open spec fn first_diff_from(a: Seq<u8>, b: Seq<u8>, i: int, n: int) -> int
    decreases n - i,
{
    if i >= n {
        n
    } else if a[i] != b[i] {
        i
    } else {
        first_diff_from(a, b, i + 1, n)
    }
}

/// The comparison of two byte strings: exact when equal; otherwise the
/// first differing offset (the shorter length when one is a prefix of the
/// other) and the differing positions plus the length difference.
pub open spec fn compare_spec(native: Seq<u8>, oracle: Seq<u8>) -> Comparison {
    if native == oracle {
        Comparison { exact: true, first_differing_offset: None, differing_bytes: None }
    } else {
        let n = if native.len() <= oracle.len() {
            native.len()
        } else {
            oracle.len()
        };
        let len_diff = if native.len() <= oracle.len() {
            oracle.len() - native.len()
        } else {
            native.len() - oracle.len()
        };
        Comparison {
            exact: false,
            first_differing_offset: Some(first_diff_from(native, oracle, 0, n as int) as u64),
            differing_bytes: Some((diff_count(native, oracle, n as int) + len_diff) as u64),
        }
    }
}

/// With no difference before `k` and one at `k`, the first difference
/// found from any `i <= k` is `k`; with none before `n`, it is `n`.
proof fn lemma_first_diff_at(a: Seq<u8>, b: Seq<u8>, i: int, k: int, n: int)
    requires
        0 <= i <= k <= n,
        forall|j: int| i <= j < k ==> a[j] == b[j],
        k == n || a[k] != b[k],
    ensures
        first_diff_from(a, b, i, n) == k,
    decreases k - i,
{
    if i < k {
        lemma_first_diff_at(a, b, i + 1, k, n);
    }
}

/// Position `i` differs between `a` and `b`: it lies past the end of one
/// of them, or the bytes there differ.
pub open spec fn differs_at(a: Seq<u8>, b: Seq<u8>, i: int) -> bool {
    i >= a.len() || i >= b.len() || a[i] != b[i]
}

/// The number of differing positions below `k`.
pub open spec fn differing_below(a: Seq<u8>, b: Seq<u8>, k: int) -> nat
    decreases k,
{
    if k <= 0 {
        0
    } else {
        differing_below(a, b, k - 1) + if differs_at(a, b, k - 1) {
            1nat
        } else {
            0nat
        }
    }
}

proof fn lemma_differing_below(a: Seq<u8>, b: Seq<u8>, k: int)
    requires
        0 <= k,
    ensures
        k <= a.len() && k <= b.len() ==> differing_below(a, b, k) == diff_count(a, b, k),
        ({
            let n = if a.len() <= b.len() { a.len() as int } else { b.len() as int };
            n <= k ==> differing_below(a, b, k) == diff_count(a, b, n) + (k - n)
        }),
    decreases k,
{
    if k > 0 {
        lemma_differing_below(a, b, k - 1);
    }
}

proof fn lemma_diff_count_symmetric(a: Seq<u8>, b: Seq<u8>, k: int)
    ensures
        diff_count(a, b, k) == diff_count(b, a, k),
        first_diff_from(a, b, 0, k) == first_diff_from(b, a, 0, k) || k < 0,
    decreases k,
{
    if k > 0 {
        lemma_diff_count_symmetric(a, b, k - 1);
        lemma_first_diff_symmetric(a, b, 0, k);
    }
}

proof fn lemma_first_diff_symmetric(a: Seq<u8>, b: Seq<u8>, i: int, n: int)
    ensures
        first_diff_from(a, b, i, n) == first_diff_from(b, a, i, n),
    decreases n - i,
{
    if i < n {
        lemma_first_diff_symmetric(a, b, i + 1, n);
    }
}

proof fn lemma_first_diff_bounds(a: Seq<u8>, b: Seq<u8>, i: int, n: int)
    requires
        0 <= i <= n,
    ensures
        i <= first_diff_from(a, b, i, n) <= n,
        forall|j: int| i <= j < first_diff_from(a, b, i, n) ==> a[j] == b[j],
        first_diff_from(a, b, i, n) < n ==> a[first_diff_from(a, b, i, n)] != b[first_diff_from(a, b, i, n)],
    decreases n - i,
{
    if i < n {
        lemma_first_diff_bounds(a, b, i + 1, n);
    }
}

/// What a comparison reports, over all inputs: equal outputs are exact;
/// otherwise the first differing offset is the first position where the
/// outputs differ (a byte differs, or one output has ended), and the
/// differing-byte count is the number of positions below the longer length
/// where they differ, that is the differing shared positions plus the
/// length difference, whichever side is longer; it is then positive. The
/// comparison is the same with the two sides swapped.
pub proof fn lemma_compare_reports(native: Seq<u8>, oracle: Seq<u8>)
    requires
        native.len() + oracle.len() <= u64::MAX,
    ensures
        compare_spec(native, oracle).exact == (native == oracle),
        compare_spec(native, oracle) == compare_spec(oracle, native),
        native != oracle ==> ({
            let c = compare_spec(native, oracle);
            let longer = if native.len() <= oracle.len() { oracle.len() } else { native.len() };
            let k = c.first_differing_offset->0 as int;
            &&& c.first_differing_offset is Some
            &&& 0 <= k < longer
            &&& differs_at(native, oracle, k)
            &&& forall|j: int| 0 <= j < k ==> !differs_at(native, oracle, j)
            &&& c.differing_bytes == Some(differing_below(native, oracle, longer as int) as u64)
            &&& c.differing_bytes->0 > 0
        }),
{
    let n = if native.len() <= oracle.len() { native.len() as int } else { oracle.len() as int };
    let longer = if native.len() <= oracle.len() { oracle.len() } else { native.len() };
    lemma_diff_count_symmetric(native, oracle, n);
    lemma_first_diff_symmetric(native, oracle, 0, n);
    if native != oracle {
        assert(oracle != native);
        lemma_differing_below(native, oracle, longer as int);
        lemma_first_diff_bounds(native, oracle, 0, n);
        let k = first_diff_from(native, oracle, 0, n);
        assert(diff_count(native, oracle, n) <= n) by {
            lemma_diff_count_le(native, oracle, n);
        }
        if k == n {
            if native.len() == oracle.len() {
                assert(native =~= oracle);
            }
        } else {
            lemma_diff_count_pos(native, oracle, k, n);
        }
    }
}

proof fn lemma_diff_count_le(a: Seq<u8>, b: Seq<u8>, n: int)
    requires
        0 <= n,
    ensures
        diff_count(a, b, n) <= n,
    decreases n,
{
    if n > 0 {
        lemma_diff_count_le(a, b, n - 1);
    }
}

proof fn lemma_diff_count_pos(a: Seq<u8>, b: Seq<u8>, k: int, n: int)
    requires
        0 <= k < n,
        a[k] != b[k],
    ensures
        diff_count(a, b, n) > 0,
    decreases n,
{
    if n - 1 > k {
        lemma_diff_count_pos(a, b, k, n - 1);
    }
}

/// Compare two byte strings (see `compare_spec`).
pub fn compare_bytes(native: &[u8], oracle: &[u8]) -> (c: Comparison)
    ensures
        c == compare_spec(native@, oracle@),
{
    let min_len: usize = if native.len() <= oracle.len() {
        native.len()
    } else {
        oracle.len()
    };
    let mut first: usize = min_len;
    let mut found: bool = false;
    let mut count: u64 = 0;
    let mut i: usize = 0;
    while i < min_len
        invariant
            min_len <= native@.len(),
            min_len <= oracle@.len(),
            min_len == native@.len() || min_len == oracle@.len(),
            i <= min_len,
            count == diff_count(native@, oracle@, i as int),
            count <= i,
            !found ==> first == min_len && forall|j: int| 0 <= j < i ==> native@[j] == oracle@[j],
            found ==> first < i && count > 0 && forall|j: int| 0 <= j < first ==> native@[j]
                == oracle@[j],
            found ==> native@[first as int] != oracle@[first as int],
        decreases min_len - i,
    {
        if native[i] != oracle[i] {
            count += 1;
            if !found {
                found = true;
                first = i;
            }
        }
        i += 1;
    }
    proof {
        lemma_first_diff_at(native@, oracle@, 0, first as int, min_len as int);
    }
    if native.len() == oracle.len() && !found {
        proof {
            assert(native@ =~= oracle@);
        }
        return Comparison { exact: true, first_differing_offset: None, differing_bytes: None };
    }
    proof {
        if native@ == oracle@ {
            assert(native@.len() == oracle@.len());
            assert(native@[first as int] == oracle@[first as int]);
        }
    }
    let len_diff: usize = if native.len() <= oracle.len() {
        oracle.len() - native.len()
    } else {
        native.len() - oracle.len()
    };
    Comparison {
        exact: false,
        first_differing_offset: Some(first as u64),
        differing_bytes: Some(count + len_diff as u64),
    }
}

/// `needle` occurs in `hay`.
pub open spec fn has_sub(hay: Seq<u8>, needle: Seq<u8>) -> bool {
    exists|i: int|
        0 <= i && i + needle.len() <= hay.len() && #[trigger] hay.subrange(i, i + needle.len())
            == needle
}

/// `needle` occurs in the text `hay` (as UTF-8 bytes, as `str::contains`
/// matches).
pub open spec fn text_contains(hay: Seq<char>, needle: Seq<char>) -> bool {
    has_sub(vstd::utf8::encode_utf8(hay), vstd::utf8::encode_utf8(needle))
}

/// `needle` occurs in `hay`.
pub open spec fn str_contains(hay: &str, needle: &str) -> bool {
    text_contains(hay@, needle@)
}

/// Whether `needle` occurs in `hay`.
fn contains_bytes(hay: &[u8], needle: &[u8]) -> (b: bool)
    ensures
        b == has_sub(hay@, needle@),
{
    let n: usize = needle.len();
    let h: usize = hay.len();
    if n > h {
        proof {
            assert forall|i: int| 0 <= i && i + n <= h implies #[trigger] hay@.subrange(i, i + n)
                != needle@ by {}
        }
        return false;
    }
    let mut i: usize = 0;
    while i <= h - n
        invariant
            n == needle@.len(),
            h == hay@.len(),
            n <= h,
            i <= h - n + 1,
            forall|j: int| 0 <= j < i ==> #[trigger] hay@.subrange(j, j + n) != needle@,
        decreases h - i,
    {
        let mut k: usize = 0;
        let mut ok: bool = true;
        while k < n && ok
            invariant
                n == needle@.len(),
                h == hay@.len(),
                i + n <= h,
                k <= n,
                ok <==> forall|m: int| 0 <= m < k ==> hay@[i + m] == needle@[m],
            decreases n - k,
        {
            if hay[i + k] != needle[k] {
                ok = false;
            }
            k += 1;
        }
        if ok {
            proof {
                assert(hay@.subrange(i as int, i + n) =~= needle@);
            }
            return true;
        }
        proof {
            let m: int = choose|m: int| 0 <= m < k && hay@[i + m] != needle@[m];
            assert(hay@.subrange(i as int, i + n)[m] != needle@[m]);
        }
        i += 1;
    }
    false
}

/// Whether `needle` occurs in `hay`.
pub fn str_has(hay: &str, needle: &str) -> (b: bool)
    ensures
        b == str_contains(hay, needle),
{
    contains_bytes(hay.as_bytes(), needle.as_bytes())
}

/// The classification of an oracle error message: spawn or Docker
/// failures are environmental, oracle exits and unparsable replies are
/// oracle bugs.
pub open spec fn classify_error_spec(e: Seq<char>) -> ResidualClassification {
    if text_contains(e, "docker"@) || text_contains(e, "spawn"@) {
        ResidualClassification::Environmental
    } else if text_contains(e, "oracle_exit"@) || text_contains(e, "oracle_json"@) {
        ResidualClassification::OracleBug
    } else {
        ResidualClassification::Unclassified
    }
}

/// Determine the default classification of an oracle error message.
pub fn classify_error(error_str: &str) -> (r: ResidualClassification)
    ensures
        r == classify_error_spec(error_str@),
{
    if str_has(error_str, "docker") || str_has(error_str, "spawn") {
        ResidualClassification::Environmental
    } else if str_has(error_str, "oracle_exit") || str_has(error_str, "oracle_json") {
        ResidualClassification::OracleBug
    } else {
        ResidualClassification::Unclassified
    }
}

/// Whether two strings are equal (byte for byte).
fn str_eq(a: &str, b: &str) -> (r: bool)
    ensures
        r == (a.spec_bytes() == b.spec_bytes()),
{
    let x: &[u8] = a.as_bytes();
    let y: &[u8] = b.as_bytes();
    if x.len() != y.len() {
        return false;
    }
    let mut i: usize = 0;
    while i < x.len()
        invariant
            x@ == a.spec_bytes(),
            y@ == b.spec_bytes(),
            x@.len() == y@.len(),
            i <= x@.len(),
            forall|j: int| 0 <= j < i ==> x@[j] == y@[j],
        decreases x@.len() - i,
    {
        if x[i] != y[i] {
            proof {
                assert(x@[i as int] != y@[i as int]);
                assert(x@ != y@);
            }
            return false;
        }
        i += 1;
    }
    proof {
        assert(x@ =~= y@);
    }
    true
}

/// The classification of a failed comparison: oracle failures (Docker
/// ones environmental), then native failures, else undetermined.
pub open spec fn classify_mismatch_spec(native_status: Seq<char>, oracle_err: Option<Seq<char>>) -> ResidualClassification {
    match oracle_err {
        Some(e) => if text_contains(e, "docker"@) {
            ResidualClassification::Environmental
        } else {
            ResidualClassification::OracleBug
        },
        None => if native_status != "ok"@ {
            ResidualClassification::NativeBug
        } else {
            ResidualClassification::Unclassified
        },
    }
}

/// Determine the classification of a failed comparison.
pub fn classify_mismatch(native_status: &str, oracle_status: Result<&OracleResponse, &str>) -> (r:
    ResidualClassification)
    ensures
        r == classify_mismatch_spec(
            native_status@,
            match oracle_status {
                Ok(_) => None,
                Err(e) => Some(e@),
            },
        ),
{
    match oracle_status {
        Err(e) => {
            if str_has(e, "docker") {
                ResidualClassification::Environmental
            } else {
                ResidualClassification::OracleBug
            }
        },
        Ok(_) => {
            proof {
                vstd::utf8::encode_utf8_decode_utf8(native_status@);
                vstd::utf8::encode_utf8_decode_utf8("ok"@);
            }
            if !str_eq(native_status, "ok") {
                ResidualClassification::NativeBug
            } else {
                ResidualClassification::Unclassified
            }
        },
    }
}

/// The metadata line of an oracle reply, field by field (`None` where the
/// reply lacks the field or holds another JSON type there).
#[derive(Debug, Clone)]
pub struct OracleMeta {
    /// Reported status.
    pub status: Option<String>,
    /// Reported error message.
    pub message: Option<String>,
    /// Reported hex of the output.
    pub hex: Option<String>,
    /// Reported SHA-256 of the output.
    pub sha256: Option<String>,
    /// Reported output length.
    pub length: Option<u64>,
}

/// A reported text, or `default` where it is absent.
pub open spec fn text_or(o: Option<String>, default: Seq<char>) -> Seq<char> {
    match o {
        Some(s) => s@,
        None => default,
    }
}

/// The reported length (0 where absent).
pub open spec fn meta_length(meta: OracleMeta) -> usize {
    (match meta.length {
        Some(l) => l,
        None => 0u64,
    }) as usize
}

/// Why an oracle reply is refused, if it is: a status other than `ok`, a
/// reported length other than the output's, or (for the entropy oracle,
/// not the raw one) a reported SHA-256 other than the output's.
pub open spec fn reply_error(meta: OracleMeta, output: Seq<u8>, raw: bool) -> Option<Seq<char>> {
    let tag = if raw {
        "raw_"@
    } else {
        ""@
    };
    let length = meta_length(meta);
    let sha = text_or(meta.sha256, ""@);
    if text_or(meta.status, "unknown"@) != "ok"@ {
        Some(tag + "oracle_error: "@ + text_or(meta.message, "unknown error"@))
    } else if length != output.len() {
        Some(
            tag + "oracle_length_mismatch: reported "@ + dec_chars(length as nat) + " but stdout has "@
                + dec_chars(output.len()) + if raw {
                ""@
            } else {
                " bytes"@
            },
        )
    } else if !raw && sha != sha_hex(output) {
        Some("oracle_sha256_mismatch: reported "@ + sha + " but computed "@ + sha_hex(output))
    } else {
        None
    }
}

/// Accept or refuse the reply of an oracle run that exited successfully:
/// its metadata line and the bitstream it wrote (see `reply_error`).
pub fn accept_reply(meta: OracleMeta, output: Vec<u8>, raw: bool) -> (r: Result<OracleResponse, String>)
    ensures
        match r {
            Err(e) => reply_error(meta, output@, raw) == Some(e@),
            Ok(resp) => {
                &&& reply_error(meta, output@, raw) is None
                &&& resp.status@ == "ok"@
                &&& resp.hex@ == text_or(meta.hex, ""@)
                &&& resp.sha256@ == text_or(meta.sha256, ""@)
                &&& resp.length == meta_length(meta)
                &&& resp.raw_output@ == output@
            },
        },
{
    proof {
        reveal_strlit("");
    }
    let status: String = match meta.status {
        Some(s) => s,
        None => String::from_str("unknown"),
    };
    let mut err: String = if raw {
        String::from_str("raw_")
    } else {
        String::new()
    };
    proof {
        vstd::utf8::encode_utf8_decode_utf8(status@);
        vstd::utf8::encode_utf8_decode_utf8("ok"@);
    }
    let st: &str = status.as_str();
    if !str_eq(st, "ok") {
        let ghost start = err@;
        err.append("oracle_error: ");
        match meta.message {
            Some(msg) => err.append(msg.as_str()),
            None => err.append("unknown error"),
        }
        proof {
            assert(err@ =~= start + "oracle_error: "@ + text_or(meta.message, "unknown error"@));
        }
        return Err(err);
    }
    proof {
        assert(vstd::utf8::decode_utf8(st.spec_bytes()) == vstd::utf8::decode_utf8(
            "ok".spec_bytes(),
        ));
        assert(status@ == "ok"@);
        assert(text_or(meta.status, "unknown"@) == "ok"@);
    }
    let length: usize = match meta.length {
        Some(l) => l as usize,
        None => 0u64 as usize,
    };
    if length != output.len() {
        let ghost start = err@;
        err.append("oracle_length_mismatch: reported ");
        err.append(decimal(length as u64).as_str());
        err.append(" but stdout has ");
        err.append(decimal(output.len() as u64).as_str());
        let ghost middle = err@;
        if !raw {
            err.append(" bytes");
        }
        proof {
            assert(middle =~= start + "oracle_length_mismatch: reported "@ + dec_chars(length as nat)
                + " but stdout has "@ + dec_chars(output@.len()));
            assert(err@ =~= middle + if raw {
                ""@
            } else {
                " bytes"@
            });
        }
        return Err(err);
    }
    let sha: String = match meta.sha256 {
        Some(s) => s,
        None => String::new(),
    };
    if !raw {
        let actual: String = sha256(output.as_slice());
        if !(sha == actual) {
            let mut e: String = String::from_str("oracle_sha256_mismatch: reported ");
            e.append(sha.as_str());
            e.append(" but computed ");
            e.append(actual.as_str());
            proof {
                assert(e@ =~= "oracle_sha256_mismatch: reported "@ + sha@ + " but computed "@ + actual@);
            }
            return Err(e);
        }
    }
    let hex: String = match meta.hex {
        Some(h) => h,
        None => String::new(),
    };
    proof {
        assert(meta_length(meta) == output@.len());
        assert(!raw ==> text_or(meta.sha256, ""@) == sha_hex(output@));
    }
    Ok(OracleResponse { status, hex, sha256: sha, length, raw_output: output })
}

/// Unicode's alphanumeric property of a character (`char::is_alphanumeric`).
pub uninterp spec fn alphanumeric(c: char) -> bool;

/// `char::is_alphanumeric`: whether the character is alphabetic or numeric
/// in Unicode's sense; the contract names that property and states no more
/// of it.
#[verifier::external_body]
fn is_alphanumeric(c: char) -> (b: bool)
    ensures
        b == alphanumeric(c),
{
    c.is_alphanumeric()
}

/// Whether a case id's character is kept in a residual file name.
pub open spec fn kept_char(c: char) -> bool {
    alphanumeric(c) || c == '_' || c == '-'
}

/// The characters of `s` that a residual file name keeps, in order.
pub open spec fn kept_chars(s: Seq<char>) -> Seq<char>
    decreases s.len(),
{
    if s.len() == 0 {
        Seq::empty()
    } else if kept_char(s.last()) {
        kept_chars(s.drop_last()).push(s.last())
    } else {
        kept_chars(s.drop_last())
    }
}

/// `s` with each `.` replaced by `_`.
pub open spec fn dots_to_underscores(s: Seq<char>) -> Seq<char> {
    Seq::new(s.len(), |i: int| if s[i] == '.' { '_' } else { s[i] })
}

/// The first `n` characters of `s` (all of them if it is shorter).
pub open spec fn first_chars(s: Seq<char>, n: nat) -> Seq<char> {
    if s.len() <= n {
        s
    } else {
        s.subrange(0, n as int)
    }
}

/// The short tag of a classification in residual file names.
pub open spec fn class_tag_text(c: ResidualClassification) -> Seq<char> {
    match c {
        ResidualClassification::NativeBug => "native_bug"@,
        ResidualClassification::OracleBug => "oracle_bug"@,
        ResidualClassification::OracleUndefinedOrAssertOnly => "oracle_ub"@,
        ResidualClassification::InvalidInputPolicy => "invalid_input"@,
        ResidualClassification::PlatformOrEndianDivergence => "endian"@,
        ResidualClassification::PythonApiDivergence => "python_api"@,
        ResidualClassification::PerformanceResidual => "perf"@,
        ResidualClassification::IntentionalSafetyDivergence => "safety"@,
        ResidualClassification::Environmental => "environmental"@,
        ResidualClassification::Unclassified => "unclassified"@,
    }
}

/// The short tag of a classification (see `class_tag_text`).
pub fn class_tag(c: ResidualClassification) -> (s: &'static str)
    ensures
        s@ == class_tag_text(c),
{
    proof {
        reveal_strlit("native_bug");
        reveal_strlit("oracle_bug");
        reveal_strlit("oracle_ub");
        reveal_strlit("invalid_input");
        reveal_strlit("endian");
        reveal_strlit("python_api");
        reveal_strlit("perf");
        reveal_strlit("safety");
        reveal_strlit("environmental");
        reveal_strlit("unclassified");
    }
    match c {
        ResidualClassification::NativeBug => "native_bug",
        ResidualClassification::OracleBug => "oracle_bug",
        ResidualClassification::OracleUndefinedOrAssertOnly => "oracle_ub",
        ResidualClassification::InvalidInputPolicy => "invalid_input",
        ResidualClassification::PlatformOrEndianDivergence => "endian",
        ResidualClassification::PythonApiDivergence => "python_api",
        ResidualClassification::PerformanceResidual => "perf",
        ResidualClassification::IntentionalSafetyDivergence => "safety",
        ResidualClassification::Environmental => "environmental",
        ResidualClassification::Unclassified => "unclassified",
    }
}

/// The file name of a residual record:
/// `<court id, dots as underscores>_<first 40 kept case-id characters>_<class tag>.json`.
pub open spec fn residual_file_name(r: DifferentialResult) -> Seq<char> {
    dots_to_underscores(r.court_id@) + "_"@ + first_chars(kept_chars(r.case_id@), 40) + "_"@
        + class_tag_text(r.classification) + ".json"@
}

/// `text` with each `.` replaced by `_` (see `dots_to_underscores`).
pub fn underscored(text: &str) -> (s: String)
    ensures
        s@ == dots_to_underscores(text@),
{
    let n: usize = text.unicode_len();
    let mut s: String = String::new();
    let mut i: usize = 0;
    while i < n
        invariant
            n == text@.len(),
            i <= n,
            s@ == dots_to_underscores(text@.subrange(0, i as int)),
        decreases n - i,
    {
        let c: char = text.get_char(i);
        proof {
            reveal_strlit("_");
            assert(text@.subrange(i as int, i + 1) =~= seq![c]);
        }
        if c == '.' {
            s.append("_");
        } else {
            s.append(text.substring_char(i, i + 1));
        }
        proof {
            assert(s@ =~= dots_to_underscores(text@.subrange(0, i + 1)));
        }
        i += 1;
    }
    proof {
        assert(text@.subrange(0, n as int) =~= text@);
    }
    s
}

/// The file name under which a residual record is written (see
/// `residual_file_name`).
pub fn residual_filename(result: &DifferentialResult) -> (s: String)
    ensures
        s@ == residual_file_name(*result),
{
    let mut s: String = underscored(result.court_id.as_str());
    s.append("_");
    let case_id: &str = result.case_id.as_str();
    let m: usize = case_id.unicode_len();
    let mut kept: String = String::new();
    let mut j: usize = 0;
    while j < m
        invariant
            case_id@ == result.case_id@,
            m == case_id@.len(),
            j <= m,
            kept@ == kept_chars(case_id@.subrange(0, j as int)),
        decreases m - j,
    {
        let c: char = case_id.get_char(j);
        proof {
            assert(case_id@.subrange(0, j + 1).drop_last() =~= case_id@.subrange(0, j as int));
        }
        proof {
            assert(case_id@.subrange(j as int, j + 1) =~= seq![c]);
        }
        if is_alphanumeric(c) || c == '_' || c == '-' {
            kept.append(case_id.substring_char(j, j + 1));
            proof {
                assert(kept@ =~= kept_chars(case_id@.subrange(0, j + 1)));
            }
        }
        j += 1;
    }
    proof {
        assert(case_id@.subrange(0, m as int) =~= case_id@);
    }
    let k: usize = kept.as_str().unicode_len();
    if k <= 40 {
        s.append(kept.as_str());
    } else {
        s.append(kept.as_str().substring_char(0, 40));
    }
    s.append("_");
    s.append(class_tag(result.classification));
    s.append(".json");
    s
}

} // verus!
