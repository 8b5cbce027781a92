use phi_detector::phi_patterns::PHIPattern;
use phi_detector::phi_patterns::PHIType;
use phi_detector::redactor::RedactionStrategy;
use phi_detector::redactor::Redactor;
use phi_detector::results::DetectionResult;
use phi_detector::results::ResultsSummary;
use phi_detector::scanner::Scanner;

fn json_of_results(results: &[DetectionResult]) -> String {
    let mut items: Vec<serde_json::Value> = Vec::new();
    for r in results {
        let mut obj = serde_json::Map::new();
        obj.insert(
            "file_path".to_string(),
            serde_json::Value::String(r.file_path.clone()),
        );
        obj.insert(
            "phi_type".to_string(),
            serde_json::Value::String(r.phi_type.name().to_string()),
        );
        obj.insert(
            "location".to_string(),
            serde_json::Value::Array(vec![
                serde_json::Value::from(r.location.0),
                serde_json::Value::from(r.location.1),
            ]),
        );
        obj.insert(
            "context".to_string(),
            serde_json::Value::String(r.context.clone()),
        );
        obj.insert(
            "matched_text".to_string(),
            serde_json::Value::String(r.matched_text.clone()),
        );
        obj.insert(
            "redacted_text".to_string(),
            match &r.redacted_text {
                Some(t) => serde_json::Value::String(t.clone()),
                None => serde_json::Value::Null,
            },
        );
        items.push(serde_json::Value::Object(obj));
    }
    serde_json::to_string_pretty(&serde_json::Value::Array(items)).unwrap()
}

#[test]
fn test_full_pipeline_json_output() {
    let text = "SSN: 123-45-6789, MRN: 12345678, NIK: 1234567890123456";
    let scanner = Scanner::new(PHIPattern::all_patterns(), 10);
    let detections = scanner.scan(text.as_bytes());
    let redactor = Redactor::new(RedactionStrategy::FullReplacement);
    let redacted = redactor.redact(text.as_bytes(), &detections);
    let mut results = Vec::new();
    for det in &detections {
        results.push(DetectionResult {
            file_path: "test.txt".to_string(),
            phi_type: det.phi_type,
            location: (det.start, det.end),
            context: String::from_utf8(det.context.clone()).unwrap(),
            matched_text: String::from_utf8(det.matched_text.clone()).unwrap(),
            redacted_text: Some(String::from_utf8(redacted[det.start..det.end].to_vec()).unwrap()),
        });
    }
    let json = json_of_results(&results);
    assert!(json.contains("SSN"));
    assert!(json.contains("MedicalRecordNumber"));
    assert!(json.contains("IndonesianNIK"));
}

#[test]
fn test_pipeline_summary() {
    let text = "SSN: 123-45-6789, SSN: 987-65-4321";
    let scanner = Scanner::new(PHIPattern::all_patterns(), 10);
    let detections = scanner.scan(text.as_bytes());
    let mut summary = ResultsSummary::default();
    for det in &detections {
        summary.record_detection(&det.phi_type);
    }
    summary.files_processed += 1;
    summary.total_detections += detections.len();
    summary.redacted_count += detections.len();
    assert_eq!(summary.files_processed, 1);
    assert_eq!(summary.total_detections, 2);
    assert_eq!(summary.redacted_count, 2);
    assert!(summary.count_for(&PHIType::SSN) > 0);
}
