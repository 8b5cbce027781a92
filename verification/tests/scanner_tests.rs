use phi_detector::phi_patterns::PHIPattern;
use phi_detector::phi_patterns::PHIType;
use phi_detector::scanner::Scanner;

fn get_test_patterns() -> Vec<PHIPattern> {
    PHIPattern::all_patterns()
}

#[test]
fn test_scanner_detects_phi() {
    let scanner = Scanner::new(get_test_patterns(), 5);
    let text = "Patient SSN: 123-45-6789. MRN: 123456789. ICD: A12.34. NIK: 1234567890123456. BPJS: 1234567890123. Date: 31/12/2000.";
    let results = scanner.scan(text.as_bytes());
    assert!(results.iter().any(|d| d.phi_type == PHIType::SSN));
    assert!(
        results
            .iter()
            .any(|d| d.phi_type == PHIType::MedicalRecordNumber)
    );
    assert!(results.iter().any(|d| d.phi_type == PHIType::ICD10));
    assert!(results.iter().any(|d| d.phi_type == PHIType::IndonesianNIK));
    assert!(
        results
            .iter()
            .any(|d| d.phi_type == PHIType::IndonesianBPJS)
    );
    assert!(results.iter().any(|d| d.phi_type == PHIType::DateOfBirth));
}

#[test]
fn test_context_extraction() {
    let text = "abcdefg 123-45-6789 xyz";
    let scanner = Scanner::new(get_test_patterns(), 3);
    let results = scanner.scan(text.as_bytes());
    assert!(!results.is_empty());
    let ssn = results.iter().find(|d| d.phi_type == PHIType::SSN).unwrap();
    // Should include 3 chars before and after the match
    let wanted: &[u8] = b"fg 123-45-6789 x";
    assert!(
        ssn.context.len() >= wanted.len()
            && ssn.context.windows(wanted.len()).any(|w| w == wanted)
    );
}

#[test]
fn test_detection_spans_and_matched_text() {
    let text = "SSN: 123-45-6789";
    let scanner = Scanner::new(get_test_patterns(), 10);
    let results = scanner.scan(text.as_bytes());
    assert_eq!(results.len(), 1);
    let d = &results[0];
    assert_eq!(d.phi_type, PHIType::SSN);
    assert_eq!(d.start, 5);
    assert_eq!(d.end, 16);
    assert_eq!(d.matched_text, b"123-45-6789".to_vec());
    assert_eq!(&text.as_bytes()[d.start..d.end], d.matched_text.as_slice());
}

#[test]
fn test_scan_below_minimum_length_finds_nothing() {
    // A 4-digit run where the record-number category requires 8-12 digits.
    let text = "Short MRN: 1234";
    let scanner = Scanner::new(get_test_patterns(), 10);
    let results = scanner.scan(text.as_bytes());
    assert!(results.is_empty());
}

#[test]
fn test_scan_empty_text() {
    let scanner = Scanner::new(get_test_patterns(), 10);
    let results = scanner.scan(b"");
    assert!(results.is_empty());
}

#[test]
fn test_scan_confidence_copied() {
    let scanner = Scanner::new(get_test_patterns(), 0);
    let results = scanner.scan(b"123-45-6789");
    assert_eq!(results.len(), 1);
    assert_eq!(results[0].confidence, phi_detector::scanner::DEFAULT_CONFIDENCE);
}
