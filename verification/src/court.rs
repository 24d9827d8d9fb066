//! Forensic courts: their status, results, and the scaffold courts that
//! run no cases yet.
use crate::casefile::DifferentialResult;
use vstd::prelude::*;

verus! {

/// Status of a court.
#[derive(Debug, Clone, Copy, PartialEq, Eq, Structural)]
pub enum CourtStatus {
    /// Court is scaffolding — not yet implemented.
    Scaffold,
    /// Court ran and all cases passed.
    Passed,
    /// Court ran and some cases failed or produced residuals.
    Failed,
    /// Court was skipped.
    Skipped,
}

impl CourtStatus {
    /// Whether the court is in a sealable state (ran and passed).
    pub fn is_sealable(&self) -> (b: bool)
        ensures
            b == (*self == CourtStatus::Passed),
    {
        match self {
            CourtStatus::Passed => true,
            _ => false,
        }
    }
}

/// Results from running a court.
#[derive(Debug, Clone)]
pub struct CourtResult {
    /// Court identifier.
    pub court_id: String,
    /// Court status.
    pub status: CourtStatus,
    /// Number of cases.
    pub case_count: u64,
    /// Number of passing cases.
    pub pass_count: u64,
    /// Number of residual (failing) cases.
    pub residual_count: u64,
    /// Number of skipped cases.
    pub skipped_count: u64,
    /// Individual differential results.
    pub results: Vec<DifferentialResult>,
}

/// A court can be sealed: it ran cases, all are accounted for, and none
/// left a residual.
pub open spec fn sealable(r: CourtResult) -> bool {
    &&& r.case_count > 0
    &&& r.pass_count + r.residual_count + r.skipped_count == r.case_count
    &&& r.residual_count == 0
}

/// The number of exact results.
pub open spec fn count_exact(rs: Seq<DifferentialResult>) -> nat
    decreases rs.len(),
{
    if rs.len() == 0 {
        0
    } else {
        count_exact(rs.drop_last()) + if rs.last().comparison.exact {
            1nat
        } else {
            0nat
        }
    }
}

impl CourtResult {
    /// A scaffold result: no cases run.
    pub fn scaffold(court_id: &str) -> (r: Self)
        ensures
            r.court_id@ == court_id@,
            r.status == CourtStatus::Scaffold,
            r.case_count == 0,
            r.pass_count == 0,
            r.residual_count == 0,
            r.skipped_count == 0,
            r.results@.len() == 0,
    {
        Self {
            court_id: court_id.to_owned(),
            status: CourtStatus::Scaffold,
            case_count: 0,
            pass_count: 0,
            residual_count: 0,
            skipped_count: 0,
            results: Vec::new(),
        }
    }

    /// Whether the court can be sealed (see `sealable`).
    pub fn is_sealable(&self) -> (b: bool)
        requires
            self.case_count == 0 || self.pass_count + self.residual_count <= u64::MAX,
            self.case_count == 0 || self.pass_count + self.residual_count + self.skipped_count
                <= u64::MAX,
        ensures
            b == sealable(*self),
    {
        if self.case_count == 0 {
            return false;
        }
        if self.pass_count + self.residual_count + self.skipped_count != self.case_count {
            return false;
        }
        self.residual_count == 0
    }

    /// The result of a court that ran `results`: exact results pass, the
    /// others are residuals; the court passed when there is no residual.
    pub fn tally(court_id: &str, results: Vec<DifferentialResult>) -> (r: Self)
        ensures
            r.court_id@ == court_id@,
            r.results@ == results@,
            r.case_count == results@.len(),
            r.pass_count == count_exact(results@),
            r.residual_count == results@.len() - count_exact(results@),
            r.skipped_count == 0,
            r.status == if r.residual_count == 0 {
                CourtStatus::Passed
            } else {
                CourtStatus::Failed
            },
    {
        let n: usize = results.len();
        let mut pass_count: u64 = 0;
        let mut i: usize = 0;
        while i < n
            invariant
                n == results@.len(),
                i <= n,
                pass_count == count_exact(results@.subrange(0, i as int)),
                pass_count <= i,
            decreases n - i,
        {
            proof {
                assert(results@.subrange(0, i as int + 1).drop_last() =~= results@.subrange(0, i as int));
            }
            if results[i].comparison.exact {
                pass_count += 1;
            }
            i += 1;
        }
        proof {
            assert(results@.subrange(0, n as int) =~= results@);
        }
        let residual_count: u64 = n as u64 - pass_count;
        Self {
            court_id: court_id.to_owned(),
            status: if residual_count == 0 {
                CourtStatus::Passed
            } else {
                CourtStatus::Failed
            },
            case_count: n as u64,
            pass_count,
            residual_count,
            skipped_count: 0,
            results,
        }
    }
}

/// A forensic court.
pub trait Court {
    /// The unique court identifier (e.g. "MSRTC.RAW.RANSBYTE").
    fn id(&self) -> &str;

    /// Run the court and produce results.
    fn run(&self) -> CourtResult;
}

/// The bypass court (scaffold).
pub struct BypassCourt;

/// The PMF court (scaffold).
pub struct PmfCourt;

/// The Rans64 court (scaffold).
pub struct Rans64Court;

/// The RansByte court (scaffold).
pub struct RansByteCourt;

/// The reciprocal court (scaffold).
pub struct ReciprocalCourt;

impl Court for BypassCourt {
    fn id(&self) -> (s: &str)
        ensures
            s@ == "MSRTC.BYPASS"@,
    {
        "MSRTC.BYPASS"
    }

    fn run(&self) -> (r: CourtResult)
        ensures
            r.court_id@ == "MSRTC.BYPASS"@,
            r.status == CourtStatus::Scaffold,
            r.case_count == 0,
            r.pass_count == 0,
            r.residual_count == 0,
            r.skipped_count == 0,
            r.results@.len() == 0,
    {
        CourtResult::scaffold(self.id())
    }
}

impl Court for PmfCourt {
    fn id(&self) -> (s: &str)
        ensures
            s@ == "MSRTC.PMF"@,
    {
        "MSRTC.PMF"
    }

    fn run(&self) -> (r: CourtResult)
        ensures
            r.court_id@ == "MSRTC.PMF"@,
            r.status == CourtStatus::Scaffold,
            r.case_count == 0,
            r.pass_count == 0,
            r.residual_count == 0,
            r.skipped_count == 0,
            r.results@.len() == 0,
    {
        CourtResult::scaffold(self.id())
    }
}

impl Court for Rans64Court {
    fn id(&self) -> (s: &str)
        ensures
            s@ == "MSRTC.RAW.RANS64"@,
    {
        "MSRTC.RAW.RANS64"
    }

    fn run(&self) -> (r: CourtResult)
        ensures
            r.court_id@ == "MSRTC.RAW.RANS64"@,
            r.status == CourtStatus::Scaffold,
            r.case_count == 0,
            r.pass_count == 0,
            r.residual_count == 0,
            r.skipped_count == 0,
            r.results@.len() == 0,
    {
        CourtResult::scaffold(self.id())
    }
}

impl Court for RansByteCourt {
    fn id(&self) -> (s: &str)
        ensures
            s@ == "MSRTC.RAW.RANSBYTE"@,
    {
        "MSRTC.RAW.RANSBYTE"
    }

    fn run(&self) -> (r: CourtResult)
        ensures
            r.court_id@ == "MSRTC.RAW.RANSBYTE"@,
            r.status == CourtStatus::Scaffold,
            r.case_count == 0,
            r.pass_count == 0,
            r.residual_count == 0,
            r.skipped_count == 0,
            r.results@.len() == 0,
    {
        CourtResult::scaffold(self.id())
    }
}

impl Court for ReciprocalCourt {
    fn id(&self) -> (s: &str)
        ensures
            s@ == "MSRTC.RECIPROCAL"@,
    {
        "MSRTC.RECIPROCAL"
    }

    fn run(&self) -> (r: CourtResult)
        ensures
            r.court_id@ == "MSRTC.RECIPROCAL"@,
            r.status == CourtStatus::Scaffold,
            r.case_count == 0,
            r.pass_count == 0,
            r.residual_count == 0,
            r.skipped_count == 0,
            r.results@.len() == 0,
    {
        CourtResult::scaffold(self.id())
    }
}

} // verus!
