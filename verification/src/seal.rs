//! Sealed records of a court run: the receipt with its per-case
//! summaries, the run's timestamp and identifier, and the human-readable
//! transcript.
use crate::casefile::{sha256, sha_hex, DifferentialResult};
use crate::court::{sealable, CourtResult};
use crate::oracle::{dots_to_underscores, underscored, ORACLE_COMMIT, ORACLE_IMAGE};
use crate::text::{dec_chars, decimal, digit_char};
use vstd::prelude::*;
use vstd::string::*;

verus! {

/// A sealed receipt summarising a single court run.
#[derive(Debug, Clone)]
pub struct Receipt {
    /// Court identifier.
    pub court_id: String,
    /// Run identifier: `<timestamp>_<short commit>`.
    pub run_id: String,
    /// Timestamp of the run (`YYYYMMDDTHHMMSS`, UTC).
    pub timestamp: String,
    /// Number of cases.
    pub case_count: u64,
    /// Number of passing cases.
    pub pass_count: u64,
    /// Number of residual (failing) cases.
    pub residual_count: u64,
    /// Number of skipped cases.
    pub skipped_count: u64,
    /// Aggregate result.
    pub result: String,
    /// Oracle commit.
    pub oracle_commit: String,
    /// Native commit (with `-dirty` when the tree was dirty).
    pub rust_commit: String,
    /// Docker image digest.
    pub docker_image_digest: String,
    /// Environment fingerprint.
    pub environment_sha256: String,
    /// Commands used during the run.
    pub commands: Vec<String>,
    /// Per-case summaries.
    pub cases: Vec<CaseSummary>,
}

/// Summary of a single case result.
#[derive(Debug, Clone)]
pub struct CaseSummary {
    /// Case identifier.
    pub case_id: String,
    /// Status: the oracle's on a match, else `<native> / <oracle>`.
    pub status: String,
    /// Oracle output SHA-256.
    pub oracle_sha256: String,
    /// Native output SHA-256.
    pub native_sha256: String,
}

/// The aggregate result text of a court: `PASS` when sealable, else the
/// counts.
pub open spec fn aggregate_text(r: CourtResult) -> Seq<char> {
    if sealable(r) {
        "PASS"@
    } else {
        "FAIL: "@ + dec_chars(r.pass_count as nat) + " pass, "@ + dec_chars(r.residual_count as nat)
            + " residual, "@ + dec_chars(r.skipped_count as nat) + " skipped / "@ + dec_chars(
            r.case_count as nat,
        ) + " total"@
    }
}

/// The aggregate result of a court (see `aggregate_text`).
pub fn aggregate_result(result: &CourtResult) -> (s: String)
    requires
        result.case_count == 0 || result.pass_count + result.residual_count + result.skipped_count
            <= u64::MAX,
    ensures
        s@ == aggregate_text(*result),
{
    if result.is_sealable() {
        String::from_str("PASS")
    } else {
        let mut s: String = String::from_str("FAIL: ");
        s.append(decimal(result.pass_count).as_str());
        s.append(" pass, ");
        s.append(decimal(result.residual_count).as_str());
        s.append(" residual, ");
        s.append(decimal(result.skipped_count).as_str());
        s.append(" skipped / ");
        s.append(decimal(result.case_count).as_str());
        s.append(" total");
        s
    }
}

/// The summary status of a record.
pub open spec fn summary_status(r: DifferentialResult) -> Seq<char> {
    if r.comparison.exact {
        r.oracle.status@
    } else {
        r.native.status@ + " / "@ + r.oracle.status@
    }
}

/// The summary of one record.
pub fn case_summary(r: &DifferentialResult) -> (s: CaseSummary)
    ensures
        s.case_id@ == r.case_id@,
        s.status@ == summary_status(*r),
        s.oracle_sha256@ == r.oracle.output_sha256@,
        s.native_sha256@ == r.native.output_sha256@,
{
    let status: String = if r.comparison.exact {
        r.oracle.status.clone()
    } else {
        let mut s: String = r.native.status.clone();
        s.append(" / ");
        s.append(r.oracle.status.as_str());
        s
    };
    CaseSummary {
        case_id: r.case_id.clone(),
        status,
        oracle_sha256: r.oracle.output_sha256.clone(),
        native_sha256: r.native.output_sha256.clone(),
    }
}

/// The summaries of a court's records, in order.
pub fn case_summaries(result: &CourtResult) -> (v: Vec<CaseSummary>)
    ensures
        v@.len() == result.results@.len(),
        forall|i: int|
            0 <= i < v@.len() ==> {
                let s = #[trigger] v@[i];
                let r = result.results@[i];
                &&& s.case_id@ == r.case_id@
                &&& s.status@ == summary_status(r)
                &&& s.oracle_sha256@ == r.oracle.output_sha256@
                &&& s.native_sha256@ == r.native.output_sha256@
            },
{
    let mut v: Vec<CaseSummary> = Vec::new();
    let mut i: usize = 0;
    while i < result.results.len()
        invariant
            i <= result.results@.len(),
            v@.len() == i,
            forall|k: int|
                0 <= k < i ==> {
                    let s = #[trigger] v@[k];
                    let r = result.results@[k];
                    &&& s.case_id@ == r.case_id@
                    &&& s.status@ == summary_status(r)
                    &&& s.oracle_sha256@ == r.oracle.output_sha256@
                    &&& s.native_sha256@ == r.native.output_sha256@
                },
        decreases result.results@.len() - i,
    {
        v.push(case_summary(&result.results[i]));
        i += 1;
    }
    v
}

/// The civil date `(year, month, day)` of a day count since 1970-01-01
/// (days from 0000-03-01, eras of 400 years).
pub open spec fn civil_from_days(days: int) -> (int, int, int) {
    let z = days + 719468;
    let era = z / 146097;
    let doe = z - era * 146097;
    let yoe = (doe - doe / 1460 + doe / 36524 - doe / 146096) / 365;
    let y = yoe + era * 400;
    let doy = doe - (365 * yoe + yoe / 4 - yoe / 100);
    let mp = (5 * doy + 2) / 153;
    let d = doy - (153 * mp + 2) / 5 + 1;
    let m = if mp < 10 {
        mp + 3
    } else {
        mp - 9
    };
    (
        if m <= 2 {
            y + 1
        } else {
            y
        },
        m,
        d,
    )
}

/// The civil date of a non-negative day count since the epoch.
fn days_to_date(days: i64) -> (r: (i64, i64, i64))
    requires
        0 <= days <= 0x1_0000_0000_0000,
    ensures
        (r.0 as int, r.1 as int, r.2 as int) == civil_from_days(days as int),
        1 <= r.1 <= 12,
        1 <= r.2 <= 31,
        r.0 >= 1970,
{
    let z: i64 = days + 719468;
    let era: i64 = z / 146097;
    let doe: i64 = z - era * 146097;
    let yoe: i64 = (doe - doe / 1460 + doe / 36524 - doe / 146096) / 365;
    let y: i64 = yoe + era * 400;
    let doy: i64 = doe - (365 * yoe + yoe / 4 - yoe / 100);
    let mp: i64 = (5 * doy + 2) / 153;
    let d: i64 = doy - (153 * mp + 2) / 5 + 1;
    let m: i64 = if mp < 10 {
        mp + 3
    } else {
        mp - 9
    };
    let y: i64 = if m <= 2 {
        y + 1
    } else {
        y
    };
    (y, m, d)
}

/// `n` in decimal, left-padded with zeros to at least `width` digits.
pub open spec fn padded(n: nat, width: nat) -> Seq<char> {
    let ds = dec_chars(n);
    Seq::new(if ds.len() < width {
        (width - ds.len()) as nat
    } else {
        0
    }, |i: int| digit_char(0)) + ds
}

fn push_padded(s: &mut String, n: u64, width: usize)
    ensures
        final(s)@ == old(s)@ + padded(n as nat, width as nat),
{
    let ds: String = decimal(n);
    let len: usize = ds.as_str().unicode_len();
    let mut k: usize = len;
    let ghost start = s@;
    while k < width
        invariant
            len == dec_chars(n as nat).len(),
            ds@ == dec_chars(n as nat),
            len <= k <= if len < width {
                width
            } else {
                len
            },
            s@ == start + Seq::new((k - len) as nat, |i: int| digit_char(0)),
        decreases width - k,
    {
        s.append("0");
        proof {
            reveal_strlit("0");
            assert(s@ =~= start + Seq::new((k + 1 - len) as nat, |i: int| digit_char(0)));
        }
        k += 1;
    }
    s.append(ds.as_str());
    proof {
        assert(s@ =~= start + padded(n as nat, width as nat));
    }
}

/// The timestamp text of `secs` since the epoch: `YYYYMMDDTHHMMSS`, UTC.
pub open spec fn timestamp_text(secs: nat) -> Seq<char> {
    let days = secs / 86400;
    let t = secs % 86400;
    let (y, m, d) = civil_from_days(days as int);
    padded(y as nat, 4) + padded(m as nat, 2) + padded(d as nat, 2) + "T"@ + padded(t / 3600, 2)
        + padded((t % 3600) / 60, 2) + padded(t % 60, 2)
}

/// Format `secs` since the epoch as `YYYYMMDDTHHMMSS` (UTC).
pub fn format_timestamp(secs: u64) -> (s: String)
    requires
        secs / 86400 <= 0x1_0000_0000_0000,
    ensures
        s@ == timestamp_text(secs as nat),
{
    let days_since_epoch: u64 = secs / 86400;
    let time_secs: u64 = secs % 86400;
    let hours: u64 = time_secs / 3600;
    let minutes: u64 = (time_secs % 3600) / 60;
    let seconds: u64 = time_secs % 60;
    let (year, month, day) = days_to_date(days_since_epoch as i64);
    let mut s: String = String::new();
    push_padded(&mut s, year as u64, 4);
    push_padded(&mut s, month as u64, 2);
    push_padded(&mut s, day as u64, 2);
    s.append("T");
    push_padded(&mut s, hours, 2);
    push_padded(&mut s, minutes, 2);
    push_padded(&mut s, seconds, 2);
    proof {
        assert(s@ =~= timestamp_text(secs as nat));
    }
    s
}

} // verus!

verus! {

/// The bytes of the suffix that marks a dirty tree, `-dirty`.
pub open spec fn dirty_suffix() -> Seq<u8> {
    seq![0x2du8, 0x64u8, 0x69u8, 0x72u8, 0x74u8, 0x79u8]
}

/// The run's commit bytes without a `-dirty` suffix.
pub open spec fn clean_commit_bytes(commit: Seq<u8>) -> Seq<u8> {
    if commit.len() >= 6 && commit.subrange(commit.len() - 6, commit.len() as int) == dirty_suffix() {
        commit.subrange(0, commit.len() - 6)
    } else {
        commit
    }
}

/// The short commit's bytes: the clean commit's first twelve bytes.
pub open spec fn short_commit_bytes(commit: Seq<u8>) -> Seq<u8> {
    let c = clean_commit_bytes(commit);
    if c.len() <= 12 {
        c
    } else {
        c.subrange(0, 12)
    }
}

/// The short commit can be cut: the clean commit has at most twelve bytes,
/// or its twelfth byte ends a character.
pub open spec fn short_commit_ok(commit: Seq<char>) -> bool {
    let c = clean_commit_bytes(vstd::utf8::encode_utf8(commit));
    c.len() <= 12 || vstd::utf8::is_char_boundary(c, 12)
}

/// The short commit: without `-dirty`, at most twelve bytes.
pub open spec fn short_commit_text(commit: Seq<char>) -> Seq<char> {
    vstd::utf8::decode_utf8(short_commit_bytes(vstd::utf8::encode_utf8(commit)))
}

/// Whether the short form of `commit` can be cut (see `short_commit_ok`).
pub fn short_commit_cuts(commit: &str) -> (b: bool)
    ensures
        b == short_commit_ok(commit@),
{
    let (clean, _) = clean_commit(commit);
    let m: usize = clean.as_bytes().len();
    m <= 12 || clean.is_char_boundary(12)
}

/// The commit without a `-dirty` suffix, and whether it had one.
fn clean_commit(commit: &str) -> (r: (&str, bool))
    ensures
        r.0.spec_bytes() == clean_commit_bytes(commit.spec_bytes()),
{
    let bytes: &[u8] = commit.as_bytes();
    let n: usize = bytes.len();
    proof {
        vstd::utf8::encode_utf8_valid_utf8(commit@);
    }
    if n >= 6 && bytes[n - 6] == 0x2d && bytes[n - 5] == 0x64 && bytes[n - 4] == 0x69 && bytes[n - 3] == 0x72
        && bytes[n - 2] == 0x74 && bytes[n - 1] == 0x79 {
        proof {
            assert(bytes@.subrange(n - 6, n as int) =~= dirty_suffix());
            vstd::utf8::is_char_boundary_iff_not_is_continuation_byte(bytes@, n - 6);
        }
        let (head, _) = commit.split_at(n - 6);
        (head, true)
    } else {
        proof {
            if n >= 6 {
                assert(bytes@.subrange(n - 6, n as int) != dirty_suffix()) by {
                    let t = bytes@.subrange(n - 6, n as int);
                    if t == dirty_suffix() {
                        assert(t[0] == bytes@[n - 6]);
                        assert(t[1] == bytes@[n - 5]);
                        assert(t[2] == bytes@[n - 4]);
                        assert(t[3] == bytes@[n - 3]);
                        assert(t[4] == bytes@[n - 2]);
                        assert(t[5] == bytes@[n - 1]);
                    }
                }
            }
        }
        (commit, false)
    }
}

/// The short form of a commit: without `-dirty`, its first twelve bytes.
pub fn short_commit(commit: &str) -> (s: String)
    requires
        short_commit_ok(commit@),
    ensures
        s@ == short_commit_text(commit@),
{
    let (clean, _) = clean_commit(commit);
    let m: usize = clean.as_bytes().len();
    let short: &str = if m <= 12 {
        clean
    } else {
        let (head, _) = clean.split_at(12);
        head
    };
    proof {
        assert(short.spec_bytes() =~= short_commit_bytes(commit.spec_bytes()));
        vstd::utf8::encode_utf8_decode_utf8(short@);
    }
    String::from_str(short)
}

/// The transcript's header block.
pub open spec fn transcript_header(result: CourtResult, receipt: Receipt) -> Seq<char> {
    "MSRTC Court Transcript"@ + "\n"@ + "====================="@ + "\n"@ + "\n"@ + "Court:       "@ + result.court_id@
        + "\n"@ + "Run ID:      "@ + receipt.run_id@ + "\n"@ + "Timestamp:   "@ + receipt.timestamp@
        + "\n"@ + "Rust Commit: "@ + receipt.rust_commit@ + "\n"@ + "Oracle Cmt:  "@
        + receipt.oracle_commit@ + "\n"@ + "Environment: "@ + receipt.environment_sha256@ + "\n"@
        + "\n"@ + "Cases: "@ + dec_chars(result.case_count as nat) + " total, "@ + dec_chars(
        result.pass_count as nat,
    ) + " pass, "@ + dec_chars(result.residual_count as nat) + " residual, "@ + dec_chars(
        result.skipped_count as nat,
    ) + " skipped\n"@ + "Result: "@ + receipt.result@ + "\n"@ + "\n"@
}

/// The identifying lines of record `i`'s block.
pub open spec fn transcript_case_id(i: nat, r: DifferentialResult) -> Seq<char> {
    "--- Case "@ + dec_chars(i + 1) + " ---\n"@ + "ID:     "@ + r.case_id@ + "\n"@ + "Status: "@ + (
    if r.comparison.exact {
        "PASS"@
    } else {
        "FAIL"@
    }) + "\n"@
}

/// The output lines of a record's block.
pub open spec fn transcript_case_outputs(r: DifferentialResult) -> Seq<char> {
    "Oracle: "@ + r.oracle.status@ + " (sha256: "@ + r.oracle.output_sha256@ + ")\n"@ + "Native: "@
        + r.native.status@ + " (sha256: "@ + r.native.output_sha256@ + ")\n"@ + "Seed:   "@ + dec_chars(
        r.seed as nat,
    ) + "\n"@ + "Variant: "@ + r.variant@ + "\n"@
}

/// The difference lines of a record's block (none for a match).
pub open spec fn transcript_case_diff(r: DifferentialResult) -> Seq<char> {
    if r.comparison.exact {
        Seq::empty()
    } else {
        (match r.comparison.first_differing_offset {
            Some(o) => "First diff at byte: "@ + dec_chars(o as nat) + "\n"@,
            None => Seq::empty(),
        }) + match r.comparison.differing_bytes {
            Some(c) => "Differing bytes: "@ + dec_chars(c as nat) + "\n"@,
            None => Seq::empty(),
        }
    }
}

/// The transcript block of record `i` (numbered from 1).
pub open spec fn transcript_case(i: nat, r: DifferentialResult) -> Seq<char> {
    transcript_case_id(i, r) + transcript_case_outputs(r) + transcript_case_diff(r) + "\n"@
}

/// The blocks of the first `n` records.
pub open spec fn transcript_cases(rs: Seq<DifferentialResult>, n: nat) -> Seq<char>
    decreases n,
{
    if n == 0 {
        Seq::empty()
    } else {
        transcript_cases(rs, (n - 1) as nat) + transcript_case((n - 1) as nat, rs[n - 1])
    }
}

/// Append `text` and then a newline.
fn push_line(s: &mut String, text: &str)
    ensures
        final(s)@ == old(s)@ + text@ + "\n"@,
{
    s.append(text);
    s.append("\n");
}

fn push_case_id(s: &mut String, i: u64, r: &DifferentialResult)
    requires
        i < u64::MAX,
    ensures
        final(s)@ == old(s)@ + transcript_case_id(i as nat, *r),
{
    let ghost before = s@;
    s.append("--- Case ");
    s.append(decimal(i + 1).as_str());
    s.append(" ---\n");
    s.append("ID:     ");
    push_line(s, r.case_id.as_str());
    s.append("Status: ");
    push_line(
        s,
        if r.comparison.exact {
            "PASS"
        } else {
            "FAIL"
        },
    );
    proof {
        assert(s@ =~= before + transcript_case_id(i as nat, *r));
    }
}

fn push_case_outputs(s: &mut String, r: &DifferentialResult)
    ensures
        final(s)@ == old(s)@ + transcript_case_outputs(*r),
{
    let ghost before = s@;
    s.append("Oracle: ");
    s.append(r.oracle.status.as_str());
    s.append(" (sha256: ");
    s.append(r.oracle.output_sha256.as_str());
    s.append(")\n");
    s.append("Native: ");
    s.append(r.native.status.as_str());
    s.append(" (sha256: ");
    s.append(r.native.output_sha256.as_str());
    s.append(")\n");
    s.append("Seed:   ");
    push_line(s, decimal(r.seed).as_str());
    s.append("Variant: ");
    push_line(s, r.variant.as_str());
    proof {
        assert(s@ =~= before + transcript_case_outputs(*r));
    }
}

fn push_case_diff(s: &mut String, r: &DifferentialResult)
    ensures
        final(s)@ == old(s)@ + transcript_case_diff(*r),
{
    let ghost before = s@;
    if !r.comparison.exact {
        match r.comparison.first_differing_offset {
            Some(offset) => {
                s.append("First diff at byte: ");
                push_line(s, decimal(offset).as_str());
            },
            None => {},
        }
        match r.comparison.differing_bytes {
            Some(count) => {
                s.append("Differing bytes: ");
                push_line(s, decimal(count).as_str());
            },
            None => {},
        }
    }
    proof {
        assert(s@ =~= before + transcript_case_diff(*r));
    }
}

/// Append the transcript block of record `i`.
fn push_case(s: &mut String, i: u64, r: &DifferentialResult)
    requires
        i < u64::MAX,
    ensures
        final(s)@ == old(s)@ + transcript_case(i as nat, *r),
{
    let ghost before = s@;
    push_case_id(s, i, r);
    push_case_outputs(s, r);
    push_case_diff(s, r);
    s.append("\n");
    proof {
        assert(s@ =~= before + transcript_case(i as nat, *r));
    }
}

/// Build the human-readable transcript of a court run.
pub fn build_transcript(result: &CourtResult, receipt: &Receipt) -> (t: String)
    ensures
        t@ == transcript_header(*result, *receipt) + transcript_cases(result.results@, result.results@.len()),
{
    let mut s: String = String::new();
    push_line(&mut s, "MSRTC Court Transcript");
    push_line(&mut s, "=====================");
    s.append("\n");
    s.append("Court:       ");
    push_line(&mut s, result.court_id.as_str());
    s.append("Run ID:      ");
    push_line(&mut s, receipt.run_id.as_str());
    s.append("Timestamp:   ");
    push_line(&mut s, receipt.timestamp.as_str());
    s.append("Rust Commit: ");
    push_line(&mut s, receipt.rust_commit.as_str());
    s.append("Oracle Cmt:  ");
    push_line(&mut s, receipt.oracle_commit.as_str());
    s.append("Environment: ");
    push_line(&mut s, receipt.environment_sha256.as_str());
    s.append("\n");
    s.append("Cases: ");
    s.append(decimal(result.case_count).as_str());
    s.append(" total, ");
    s.append(decimal(result.pass_count).as_str());
    s.append(" pass, ");
    s.append(decimal(result.residual_count).as_str());
    s.append(" residual, ");
    s.append(decimal(result.skipped_count).as_str());
    s.append(" skipped\n");
    s.append("Result: ");
    push_line(&mut s, receipt.result.as_str());
    s.append("\n");
    let ghost head = s@;
    proof {
        assert(head =~= transcript_header(*result, *receipt));
    }
    let mut i: usize = 0;
    while i < result.results.len()
        invariant
            i <= result.results@.len(),
            head == transcript_header(*result, *receipt),
            s@ == head + transcript_cases(result.results@, i as nat),
        decreases result.results@.len() - i,
    {
        let ghost before = s@;
        push_case(&mut s, i as u64, &result.results[i]);
        proof {
            assert(s@ =~= before + transcript_case(i as nat, result.results@[i as int]));
            assert(s@ =~= head + transcript_cases(result.results@, (i + 1) as nat));
        }
        i += 1;
    }
    s
}

/// The run identifier: the timestamp, `_`, and the short commit.
pub open spec fn run_id_text(secs: nat, rust_commit: Seq<char>) -> Seq<char> {
    timestamp_text(secs) + "_"@ + short_commit_text(rust_commit)
}

/// The image digest recorded when Docker cannot report one:
/// `sha256:` and the SHA-256 of the image name.
pub open spec fn fallback_digest_text() -> Seq<char> {
    "sha256:"@ + sha_hex(ORACLE_IMAGE.spec_bytes())
}

/// The image digest to record: the one Docker reported, else the fallback.
pub fn image_digest(reported: Option<String>) -> (s: String)
    ensures
        s@ == match reported {
            Some(d) => d@,
            None => fallback_digest_text(),
        },
{
    match reported {
        Some(d) => d,
        None => {
            let mut s: String = String::from_str("sha256:");
            s.append(sha256(ORACLE_IMAGE.as_bytes()).as_str());
            s
        },
    }
}

/// The commands recorded in a receipt.
pub open spec fn receipt_commands(court_id: Seq<char>) -> Seq<Seq<char>> {
    seq!["cargo run --bin "@ + court_id + " -- court"@, "docker run -i --rm msrtc-rans-rs-oracle:debian12"@]
}

/// The receipt of a court run sealed at `secs` since the epoch: the run's
/// identifier, aggregate result and per-case summaries, with the given
/// provenance.
pub fn seal_receipt(
    result: &CourtResult,
    secs: u64,
    rust_commit: &str,
    docker_image_digest: String,
    environment_sha256: &str,
) -> (r: Receipt)
    requires
        short_commit_ok(rust_commit@),
        secs / 86400 <= 0x1_0000_0000_0000,
        result.case_count == 0 || result.pass_count + result.residual_count + result.skipped_count
            <= u64::MAX,
    ensures
        r.court_id@ == result.court_id@,
        r.run_id@ == run_id_text(secs as nat, rust_commit@),
        r.timestamp@ == timestamp_text(secs as nat),
        r.case_count == result.case_count,
        r.pass_count == result.pass_count,
        r.residual_count == result.residual_count,
        r.skipped_count == result.skipped_count,
        r.result@ == aggregate_text(*result),
        r.oracle_commit@ == ORACLE_COMMIT@,
        r.rust_commit@ == rust_commit@,
        r.docker_image_digest@ == docker_image_digest@,
        r.environment_sha256@ == environment_sha256@,
        r.commands@.len() == 2,
        forall|i: int| 0 <= i < 2 ==> #[trigger] r.commands@[i]@ == receipt_commands(result.court_id@)[i],
        r.cases@.len() == result.results@.len(),
        forall|i: int|
            0 <= i < r.cases@.len() ==> {
                let c = #[trigger] r.cases@[i];
                let d = result.results@[i];
                &&& c.case_id@ == d.case_id@
                &&& c.status@ == summary_status(d)
                &&& c.oracle_sha256@ == d.oracle.output_sha256@
                &&& c.native_sha256@ == d.native.output_sha256@
            },
{
    let timestamp: String = format_timestamp(secs);
    let mut run_id: String = timestamp.clone();
    run_id.append("_");
    run_id.append(short_commit(rust_commit).as_str());
    let mut first: String = String::from_str("cargo run --bin ");
    first.append(result.court_id.as_str());
    first.append(" -- court");
    let mut commands: Vec<String> = Vec::new();
    commands.push(first);
    commands.push(String::from_str("docker run -i --rm msrtc-rans-rs-oracle:debian12"));
    proof {
        assert(commands@[0]@ == receipt_commands(result.court_id@)[0]);
        assert(commands@[1]@ == receipt_commands(result.court_id@)[1]);
    }
    Receipt {
        court_id: result.court_id.clone(),
        run_id,
        timestamp,
        case_count: result.case_count,
        pass_count: result.pass_count,
        residual_count: result.residual_count,
        skipped_count: result.skipped_count,
        result: aggregate_result(result),
        oracle_commit: String::from_str(ORACLE_COMMIT),
        rust_commit: String::from_str(rust_commit),
        docker_image_digest,
        environment_sha256: String::from_str(environment_sha256),
        commands,
        cases: case_summaries(result),
    }
}

/// The file stem of a run's sealed artefacts:
/// `MSRTC_<court id, dots as underscores>_<run id>`.
pub fn artefact_stem(court_id: &str, run_id: &str) -> (s: String)
    ensures
        s@ == "MSRTC_"@ + dots_to_underscores(court_id@) + "_"@ + run_id@,
{
    let mut s: String = String::from_str("MSRTC_");
    s.append(underscored(court_id).as_str());
    s.append("_");
    s.append(run_id);
    s
}

/// The sealed manifest of a court run.
#[derive(Debug, Clone)]
pub struct Manifest {
    /// Schema version.
    pub schema_version: u32,
    /// Court identifier.
    pub court_id: String,
    /// Run identifier.
    pub run_id: String,
    /// Timestamp of the run.
    pub timestamp: String,
    /// Number of cases.
    pub case_count: u64,
    /// Number of passing cases.
    pub pass_count: u64,
    /// Number of residual cases.
    pub residual_count: u64,
    /// Number of skipped cases.
    pub skipped_count: u64,
    /// Aggregate result.
    pub result: String,
    /// Native commit.
    pub rust_commit: String,
    /// Oracle commit.
    pub oracle_commit: String,
    /// Environment fingerprint.
    pub environment_sha256: String,
    /// Docker image digest.
    pub docker_image_digest: String,
}

/// The manifest of a court run: the court's counts, and the receipt's
/// identity and provenance.
pub fn build_manifest(result: &CourtResult, receipt: &Receipt) -> (m: Manifest)
    ensures
        m.schema_version == 1,
        m.court_id@ == result.court_id@,
        m.run_id@ == receipt.run_id@,
        m.timestamp@ == receipt.timestamp@,
        m.case_count == result.case_count,
        m.pass_count == result.pass_count,
        m.residual_count == result.residual_count,
        m.skipped_count == result.skipped_count,
        m.result@ == receipt.result@,
        m.rust_commit@ == receipt.rust_commit@,
        m.oracle_commit@ == receipt.oracle_commit@,
        m.environment_sha256@ == receipt.environment_sha256@,
        m.docker_image_digest@ == receipt.docker_image_digest@,
{
    Manifest {
        schema_version: 1,
        court_id: result.court_id.clone(),
        run_id: receipt.run_id.clone(),
        timestamp: receipt.timestamp.clone(),
        case_count: result.case_count,
        pass_count: result.pass_count,
        residual_count: result.residual_count,
        skipped_count: result.skipped_count,
        result: receipt.result.clone(),
        rust_commit: receipt.rust_commit.clone(),
        oracle_commit: receipt.oracle_commit.clone(),
        environment_sha256: receipt.environment_sha256.clone(),
        docker_image_digest: receipt.docker_image_digest.clone(),
    }
}

} // verus!
