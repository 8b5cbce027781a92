use phi_detector::phi_patterns::PHIType;
use phi_detector::results::ResultsSummary;

#[test]
fn test_summary_starts_empty() {
    let summary = ResultsSummary::default();
    assert_eq!(summary.files_processed, 0);
    assert_eq!(summary.total_detections, 0);
    assert_eq!(summary.redacted_count, 0);
    assert!(summary.errors.is_empty());
    assert_eq!(summary.count_for(&PHIType::SSN), 0);
    assert_eq!(summary.count_for(&PHIType::IndonesianBPJS), 0);
}

#[test]
fn test_summary_counts_by_type() {
    let mut summary = ResultsSummary::new();
    summary.record_detection(&PHIType::SSN);
    summary.record_detection(&PHIType::SSN);
    summary.record_detection(&PHIType::ICD10);
    assert_eq!(summary.count_for(&PHIType::SSN), 2);
    assert_eq!(summary.count_for(&PHIType::ICD10), 1);
    assert_eq!(summary.count_for(&PHIType::DateOfBirth), 0);
}
