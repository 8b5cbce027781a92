use phi_detector::phi_patterns::PHIPattern;
use phi_detector::phi_patterns::PHIType;
use phi_detector::redactor::RedactionStrategy;
use phi_detector::redactor::Redactor;
use phi_detector::scanner::Detection;
use phi_detector::scanner::Scanner;

fn redacted_string(text: &str, strategy: RedactionStrategy) -> String {
    let scanner = Scanner::new(PHIPattern::all_patterns(), 0);
    let detections = scanner.scan(text.as_bytes());
    let redactor = Redactor::new(strategy);
    let result = redactor.redact(text.as_bytes(), &detections);
    String::from_utf8(result).unwrap()
}

#[test]
fn test_full_replacement() {
    let text = "SSN: 123-45-6789, MRN: 12345678";
    let result = redacted_string(text, RedactionStrategy::FullReplacement);
    assert_eq!(result, "SSN: XXX-XX-XXXX, MRN: XXXXXXXX");
}

#[test]
fn test_partial_masking() {
    let text = "SSN: 123-45-6789, MRN: 12345678";
    let result = redacted_string(text, RedactionStrategy::PartialMasking);
    assert_eq!(result, "SSN: ***-**-6789, MRN: ****5678");
}

#[test]
fn test_placeholder_substitution() {
    let text = "SSN: 123-45-6789, MRN: 12345678";
    let result = redacted_string(text, RedactionStrategy::PlaceholderSubstitution);
    assert_eq!(result, "SSN: [REDACTED-SSN], MRN: [REDACTED-MRN]");
}

#[test]
fn test_overlapping_matches() {
    let text = "NIK: 1234567890123456, BPJS: 1234567890123";
    let result = redacted_string(text, RedactionStrategy::FullReplacement);
    assert_eq!(result, "NIK: XXXXXXXXXXXXXXXX, BPJS: XXXXXXXXXXXXX");
}

#[test]
fn test_empty_text() {
    let result = redacted_string("", RedactionStrategy::FullReplacement);
    assert_eq!(result, "");
}

#[test]
fn test_no_detections() {
    let text = "This text contains no PHI patterns.";
    let empty_detections: Vec<Detection> = vec![];
    let redactor = Redactor::new(RedactionStrategy::FullReplacement);
    let result = redactor.redact(text.as_bytes(), &empty_detections);
    assert_eq!(result, text.as_bytes().to_vec());
}

#[test]
fn test_detection_at_start() {
    let text = "123-45-6789 is a SSN at the start.";
    let result = redacted_string(text, RedactionStrategy::FullReplacement);
    assert_eq!(result, "XXX-XX-XXXX is a SSN at the start.");
}

#[test]
fn test_detection_at_end() {
    let text = "SSN at the end: 123-45-6789";
    let result = redacted_string(text, RedactionStrategy::FullReplacement);
    assert_eq!(result, "SSN at the end: XXX-XX-XXXX");
}

#[test]
fn test_partial_masking_short_mrn() {
    // Should not mask, as the MRN pattern requires 8-12 digits; expect the
    // original text.
    let text = "Short MRN: 1234";
    let result = redacted_string(text, RedactionStrategy::PartialMasking);
    assert_eq!(result, "Short MRN: 1234");
}

#[test]
fn test_partial_masking_single_ssn() {
    let text = "SSN: 123-45-6789";
    let result = redacted_string(text, RedactionStrategy::PartialMasking);
    assert_eq!(result, "SSN: ***-**-6789");
}

#[test]
fn test_placeholder_single_ssn() {
    let text = "SSN: 123-45-6789";
    let result = redacted_string(text, RedactionStrategy::PlaceholderSubstitution);
    assert_eq!(result, "SSN: [REDACTED-SSN]");
}

#[test]
fn test_keep_longest_on_contained_span() {
    // A 16-character numeric match fully containing a 13-character numeric
    // match at the same start yields exactly one masked region covering 16
    // characters, not two adjacent masks.
    let text = "1234567890123456";
    let d_long = Detection {
        matched_text: b"1234567890123456".to_vec(),
        start: 0,
        end: 16,
        phi_type: PHIType::IndonesianNIK,
        confidence: 100,
        context: b"1234567890123456".to_vec(),
    };
    let d_short = Detection {
        matched_text: b"1234567890123".to_vec(),
        start: 0,
        end: 13,
        phi_type: PHIType::IndonesianBPJS,
        confidence: 100,
        context: b"1234567890123456".to_vec(),
    };
    let redactor = Redactor::new(RedactionStrategy::FullReplacement);
    let result = redactor.redact(text.as_bytes(), &[d_short, d_long]);
    assert_eq!(String::from_utf8(result).unwrap(), "XXXXXXXXXXXXXXXX");
}

#[test]
fn test_non_overlapping_gaps_kept_verbatim() {
    let text = "a 123-45-6789 b 987-65-4321 c";
    let result = redacted_string(text, RedactionStrategy::FullReplacement);
    assert_eq!(result, "a XXX-XX-XXXX b XXX-XX-XXXX c");
}

#[test]
fn test_detections_given_out_of_order() {
    // The redactor orders detections by start itself; handing them over in
    // reverse order changes nothing.
    let text = "a 123-45-6789 b 12345678 c";
    let scanner = Scanner::new(PHIPattern::all_patterns(), 0);
    let mut detections = scanner.scan(text.as_bytes());
    detections.reverse();
    let redactor = Redactor::new(RedactionStrategy::FullReplacement);
    let result = redactor.redact(text.as_bytes(), &detections);
    assert_eq!(
        String::from_utf8(result).unwrap(),
        "a XXX-XX-XXXX b XXXXXXXX c"
    );
}

#[test]
fn test_rescan_of_fully_replaced_output_is_clean() {
    // Round-trip: every category here is replaced by non-matching mask
    // characters, so re-scanning the redacted output finds nothing.
    let text = "SSN: 123-45-6789, MRN: 12345678, NIK: 1234567890123456";
    let redacted = redacted_string(text, RedactionStrategy::FullReplacement);
    let scanner = Scanner::new(PHIPattern::all_patterns(), 0);
    let again = scanner.scan(redacted.as_bytes());
    assert!(again.is_empty());
}

#[test]
fn test_redaction_text_partial_icd10() {
    let redactor = Redactor::new(RedactionStrategy::PartialMasking);
    let masked = redactor.redaction_text(&PHIType::ICD10, b"A12");
    assert_eq!(masked, b"A**".to_vec());
}

#[test]
fn test_redaction_text_partial_dob() {
    let redactor = Redactor::new(RedactionStrategy::PartialMasking);
    assert_eq!(
        redactor.redaction_text(&PHIType::DateOfBirth, b"12/31/2000"),
        b"**/**/2000".to_vec()
    );
    assert_eq!(
        redactor.redaction_text(&PHIType::DateOfBirth, b"2000-12-31"),
        b"**/**/2000".to_vec()
    );
}

#[test]
fn test_redaction_text_partial_nik() {
    let redactor = Redactor::new(RedactionStrategy::PartialMasking);
    let masked = redactor.redaction_text(&PHIType::IndonesianNIK, b"1234567890123456");
    assert_eq!(masked, b"********90123456".to_vec());
}

#[test]
fn test_redaction_text_full_ssn() {
    let redactor = Redactor::new(RedactionStrategy::FullReplacement);
    let masked = redactor.redaction_text(&PHIType::SSN, b"123-45-6789");
    assert_eq!(masked, b"XXX-XX-XXXX".to_vec());
}
