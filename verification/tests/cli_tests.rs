use patchiest::cli::{fatal_report, is_blank, parse_args, refuse_blank, select_payload};
use patchiest::models::{CompilerPayload, CompilerStatus, DialecticAction};

fn args(list: &[&str]) -> Vec<String> {
    list.iter().map(|a| a.to_string()).collect()
}

#[test]
fn parse_args_reads_flag_and_first_file() {
    let a = parse_args(&args(&["patchiest", "--dry-run", "in.json", "other.json"]));
    assert!(a.dry_run);
    assert_eq!(a.input_file, Some("in.json".to_string()));
}

#[test]
fn parse_args_skips_program_name() {
    let a = parse_args(&args(&["--dry-run"]));
    assert!(!a.dry_run);
    assert_eq!(a.input_file, None);
    let b = parse_args(&Vec::new());
    assert!(!b.dry_run);
    assert_eq!(b.input_file, None);
    let c = parse_args(&args(&["patchiest", "payload.json", "--dry-run"]));
    assert!(c.dry_run);
    assert_eq!(c.input_file, Some("payload.json".to_string()));
}

#[test]
fn blank_input_is_detected() {
    assert!(is_blank(""));
    assert!(is_blank(" \n\t\u{3000}"));
    assert!(!is_blank("  {} "));
}

#[test]
fn fatal_report_has_one_error() {
    let m = fatal_report("Empty input provided.");
    assert_eq!(m.status, CompilerStatus::Fatal);
    assert_eq!(m.errors, vec!["Empty input provided.".to_string()]);
    assert_eq!(m.mutations, 0);
    assert!(m.warnings.is_empty());
}

#[test]
fn select_payload_keeps_payload_and_forces_dry_run() {
    let p = CompilerPayload {
        file_path: Some("a.rs".to_string()),
        source: Some("fn main() {}".to_string()),
        intent: vec![DialecticAction::Unsupported],
        dry_run: false,
    };
    let out = select_payload(Some(p), None, true).ok().unwrap();
    assert!(out.dry_run);
    assert_eq!(out.file_path, Some("a.rs".to_string()));
    assert_eq!(out.intent.len(), 1);
}

#[test]
fn select_payload_wraps_bare_action() {
    let out = select_payload(None, Some((DialecticAction::Unsupported, Some("test.rs".to_string()))), false)
        .ok()
        .unwrap();
    assert_eq!(out.file_path, Some("test.rs".to_string()));
    assert_eq!(out.source, None);
    assert_eq!(out.intent.len(), 1);
    assert!(!out.dry_run);
}

#[test]
fn select_payload_refuses_neither() {
    match select_payload(None, None, false) {
        Err(m) => {
            assert_eq!(m.status, CompilerStatus::Fatal);
            assert_eq!(m.errors, vec!["Invalid JSON payload sequence.".to_string()]);
        }
        Ok(_) => panic!("expected a refusal"),
    }
}

#[test]
fn blank_input_is_refused() {
    let m = refuse_blank("   \n").unwrap();
    assert_eq!(m.status, CompilerStatus::Fatal);
    assert_eq!(m.errors, vec!["Empty input provided.".to_string()]);
    assert!(refuse_blank("{}").is_none());
}
