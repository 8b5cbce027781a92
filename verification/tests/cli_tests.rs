use phi_detector::cli::Cli;
use phi_detector::cli::CliError;
use phi_detector::cli::OutputFormat;

fn args_of(parts: &[&str]) -> Vec<String> {
    parts.iter().map(|s| s.to_string()).collect()
}

#[test]
fn test_cli_parsing() {
    let args = args_of(&[
        "phi-detector",
        "--input",
        "data/file.txt",
        "--output",
        "text",
        "--redact",
        "-vv",
    ]);
    let cli = Cli::parse_from(&args).unwrap();
    assert_eq!(cli.input, "data/file.txt");
    assert_eq!(cli.output, OutputFormat::Text);
    assert!(cli.redact);
    assert_eq!(cli.verbose, 2);
}

#[test]
fn test_cli_defaults() {
    let args = args_of(&["phi-detector", "-i", "docs"]);
    let cli = Cli::parse_from(&args).unwrap();
    assert_eq!(cli.input, "docs");
    assert_eq!(cli.output, OutputFormat::Json);
    assert!(!cli.redact);
    assert_eq!(cli.verbose, 0);
}

#[test]
fn test_cli_missing_input() {
    let args = args_of(&["phi-detector", "--redact"]);
    match Cli::parse_from(&args) {
        Err(CliError::MissingInput) => {}
        other => panic!("expected MissingInput, got {:?}", other),
    }
}

#[test]
fn test_cli_missing_value() {
    let args = args_of(&["phi-detector", "--input"]);
    match Cli::parse_from(&args) {
        Err(CliError::MissingValue(flag)) => assert_eq!(flag, "--input"),
        other => panic!("expected MissingValue, got {:?}", other),
    }
}

#[test]
fn test_cli_invalid_output_value() {
    let args = args_of(&["phi-detector", "--input", "x", "--output", "xml"]);
    match Cli::parse_from(&args) {
        Err(CliError::InvalidValue(v)) => assert_eq!(v, "xml"),
        other => panic!("expected InvalidValue, got {:?}", other),
    }
}

#[test]
fn test_cli_unknown_argument() {
    let args = args_of(&["phi-detector", "--input", "x", "--frobnicate"]);
    match Cli::parse_from(&args) {
        Err(CliError::UnknownArgument(a)) => assert_eq!(a, "--frobnicate"),
        other => panic!("expected UnknownArgument, got {:?}", other),
    }
}

#[test]
fn test_cli_verbose_accumulates() {
    let args = args_of(&["phi-detector", "-i", "x", "-v", "--verbose", "-vvv"]);
    let cli = Cli::parse_from(&args).unwrap();
    assert_eq!(cli.verbose, 5);
}
