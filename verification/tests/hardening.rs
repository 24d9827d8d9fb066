use msrtc_rans::court::CourtResult;
use msrtc_rans::hardening_court::{
    checked_growth_overflow, entropy_roundtrip, hardening_court_result, hardening_result, run_allocation_checks,
    run_corruption_robustness, run_entropy_sweeps, run_raw_sweeps, HardeningCourt,
};
use msrtc_rans::buffer::BufferError;

/// The float-derived frequency tables of the entropy sweeps.
fn make_freq_pmf(scale: u32, center: i32, dist_count: usize) -> (Vec<i32>, Vec<i32>, Vec<i32>) {
    let mut lengths = Vec::new();
    let mut offsets = Vec::new();
    let mut table = Vec::new();
    for _ in 0..dist_count {
        let mut pmf: Vec<f64> = (0..=2 * center as usize)
            .map(|i| 1.0 / (1.0 + ((i as i64 - center as i64) as f64) * 0.25))
            .collect();
        pmf.push(pmf[0]);
        let sum: f64 = pmf.iter().sum();
        let mut base: Vec<i64> = pmf
            .iter()
            .map(|p| ((p / sum) * scale as f64).floor() as i64)
            .collect();
        for b in base.iter_mut() {
            *b = (*b).max(1);
        }
        let mut total: i64 = base.iter().sum();
        let target = scale as i64;
        let mut idx = 0usize;
        let len = base.len();
        while total < target {
            base[idx % len] += 1;
            total += 1;
            idx += 1;
        }
        while total > target {
            if let Some((i, _)) = base.iter().enumerate().find(|(_, b)| **b > 1) {
                base[i] -= 1;
                total -= 1;
            } else {
                break;
            }
        }
        lengths.push(base.len() as i32);
        offsets.push(-center);
        table.extend(base.iter().map(|b| *b as i32));
    }
    (lengths, offsets, table)
}

fn entropy_sweeps() -> usize {
    run_entropy_sweeps(
        &make_freq_pmf(1 << 8, 6, 1),
        &make_freq_pmf(1 << 16, 6, 1),
        &make_freq_pmf(1 << 16, 6, 2),
    )
}

#[test]
fn test_hardening_court_passes_internally() {
    let court = HardeningCourt;
    let mut results = Vec::new();
    let raw = run_raw_sweeps();
    results.push(hardening_result("raw_sweeps", raw > 0, raw as u64, "c", "e"));
    let corrupt = run_corruption_robustness();
    results.push(hardening_result("corruption_robustness", corrupt > 0, corrupt as u64, "c", "e"));
    let entropy = entropy_sweeps();
    results.push(hardening_result("entropy_sweeps", entropy > 0, entropy as u64, "c", "e"));
    let alloc = run_allocation_checks();
    results.push(hardening_result("allocation_checks", alloc > 0, alloc as u64, "c", "e"));
    let result = CourtResult::tally(court.id(), results);
    assert!(result.case_count > 0);
    assert!(result.is_sealable(), "hardening court must pass");
}

#[test]
fn test_raw_sweeps_all_pass() {
    assert_eq!(run_raw_sweeps(), 218);
}

#[test]
fn test_corruption_robustness_all_pass() {
    assert_eq!(run_corruption_robustness(), 2);
}

#[test]
fn test_allocation_checks_all_pass() {
    assert_eq!(run_allocation_checks(), 3);
    assert_eq!(checked_growth_overflow(), Err(BufferError::CapacityOverflow));
}

#[test]
fn test_entropy_roundtrip_reference_pmf() {
    let lengths = vec![4, 6];
    let offsets = vec![1, 2];
    let table = vec![1, 3, 1, 1, 1, 3, 5, 3, 1, 1];
    let indices = vec![0, 1, 0, 1];
    let values = vec![-2, 1, 0, 1];
    assert!(entropy_roundtrip(16, 4, 1, &values, &lengths, &offsets, &table, &indices));
    assert!(entropy_roundtrip(16, 4, 0, &values, &lengths, &offsets, &table, &indices));
    // A PMF with a zero frequency is refused, so the roundtrip fails.
    let bad_table = vec![1, 3, 0, 1, 1, 3, 5, 3, 1, 1];
    assert!(!entropy_roundtrip(16, 4, 1, &values, &lengths, &offsets, &bad_table, &indices));
}

#[test]
fn test_hardening_result_record() {
    let r = hardening_result("raw_sweeps", true, 218, "abc", "env");
    assert_eq!(r.case_id, "raw_sweeps:sub_checks=218");
    assert_eq!(r.native.status, "ok");
    assert_eq!(r.native.length, 218);
    assert!(r.comparison.exact);
    let f = hardening_result("x", false, 0, "abc", "env");
    assert_eq!(f.native.status, "failed");
    assert!(!f.comparison.exact);
}

#[test]
fn test_entropy_sweeps_all_hold() {
    // Twelve entropy rounds and four stream rounds, both variants each.
    assert_eq!(entropy_sweeps(), 32);
    // A layout with a zero frequency fails every entropy roundtrip.
    let bad = (vec![14], vec![-6], vec![0; 14]);
    let good = make_freq_pmf(1 << 16, 6, 2);
    assert_eq!(run_entropy_sweeps(&bad, &bad, &good), 8);
}

#[test]
fn test_hardening_court_result_counts() {
    let r = hardening_court_result(218, 3, 0, 3, "c", "e");
    assert_eq!(r.case_count, 4);
    assert_eq!(r.pass_count, 3);
    assert_eq!(r.residual_count, 1);
    assert!(!r.is_sealable());
    let ok = hardening_court_result(1, 1, 1, 1, "c", "e");
    assert_eq!(ok.pass_count, 4);
    assert!(ok.is_sealable());
}
