use phi_detector::phi_patterns::PHIPattern;
use phi_detector::phi_patterns::PHIType;

#[test]
fn test_ssn_pattern() {
    let pats = PHIPattern::all_patterns();
    let pat = &pats[0];
    assert_eq!(pat.phi_type, PHIType::SSN);
    assert!(pat.regex.is_match(b"123-45-6789"));
    assert!(!pat.regex.is_match(b"123456789"));
}

#[test]
fn test_medical_record_pattern() {
    let pats = PHIPattern::all_patterns();
    let pat = &pats[1];
    assert_eq!(pat.phi_type, PHIType::MedicalRecordNumber);
    assert!(pat.regex.is_match(b"12345678"));
    assert!(pat.regex.is_match(b"123456789012"));
    assert!(!pat.regex.is_match(b"1234"));
    assert!(!pat.regex.is_match(b"abc12345678"));
}

#[test]
fn test_icd10_pattern() {
    let pats = PHIPattern::all_patterns();
    let pat = &pats[2];
    assert_eq!(pat.phi_type, PHIType::ICD10);
    assert!(pat.regex.is_match(b"A12"));
    assert!(pat.regex.is_match(b"B99.8"));
    assert!(pat.regex.is_match(b"C01.123"));
    assert!(!pat.regex.is_match(b"123-45-6789"));
}

#[test]
fn test_date_of_birth_pattern() {
    let pats = PHIPattern::all_patterns();
    let pat = &pats[3];
    assert_eq!(pat.phi_type, PHIType::DateOfBirth);
    assert!(pat.regex.is_match(b"12/31/2000"));
    assert!(pat.regex.is_match(b"2000-12-31"));
    assert!(pat.regex.is_match(b"31/12/2000"));
    assert!(!pat.regex.is_match(b"20001231"));
}

#[test]
fn test_indonesian_nik_pattern() {
    let pats = PHIPattern::all_patterns();
    let pat = &pats[4];
    assert_eq!(pat.phi_type, PHIType::IndonesianNIK);
    assert!(pat.regex.is_match(b"1234567890123456"));
    assert!(!pat.regex.is_match(b"123456789012345"));
    assert!(!pat.regex.is_match(b"12345678901234567"));
    assert!(!pat.regex.is_match(b"1234-5678-9012-3456"));
}

#[test]
fn test_indonesian_bpjs_pattern() {
    let pats = PHIPattern::all_patterns();
    let pat = &pats[5];
    assert_eq!(pat.phi_type, PHIType::IndonesianBPJS);
    assert!(pat.regex.is_match(b"1234567890123"));
    assert!(!pat.regex.is_match(b"123456789012"));
    assert!(!pat.regex.is_match(b"12345678901234"));
    assert!(!pat.regex.is_match(b"BPJS1234567890"));
}

#[test]
fn test_all_patterns_registry_order() {
    let pats = PHIPattern::all_patterns();
    assert_eq!(pats.len(), 6);
    assert_eq!(pats[0].phi_type, PHIType::SSN);
    assert_eq!(pats[1].phi_type, PHIType::MedicalRecordNumber);
    assert_eq!(pats[2].phi_type, PHIType::ICD10);
    assert_eq!(pats[3].phi_type, PHIType::DateOfBirth);
    assert_eq!(pats[4].phi_type, PHIType::IndonesianNIK);
    assert_eq!(pats[5].phi_type, PHIType::IndonesianBPJS);
    for p in &pats {
        assert_eq!(p.redaction.template, "[REDACTED]");
        assert_eq!(p.redaction.strategy, "full");
    }
}

#[test]
fn test_phi_type_names() {
    assert_eq!(PHIType::SSN.name(), "SSN");
    assert_eq!(PHIType::MedicalRecordNumber.name(), "MedicalRecordNumber");
    assert_eq!(PHIType::ICD10.name(), "ICD10");
    assert_eq!(PHIType::DateOfBirth.name(), "DateOfBirth");
    assert_eq!(PHIType::IndonesianNIK.name(), "IndonesianNIK");
    assert_eq!(PHIType::IndonesianBPJS.name(), "IndonesianBPJS");
}
