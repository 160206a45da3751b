use patchiest::models::{CompilerMeta, CompilerStatus};

#[test]
fn models_test_compiler_meta_new() {
    let meta = CompilerMeta::new();
    assert_eq!(meta.status, CompilerStatus::Success);
    assert_eq!(meta.mutations, 0);
    assert!(meta.read_buffer.is_some());
}

#[test]
fn tests_test_compiler_meta_new() {
    let meta = CompilerMeta::new();
    assert_eq!(meta.status, CompilerStatus::Success);
    assert_eq!(meta.mutations, 0);
    assert!(meta.read_buffer.is_some());
}

#[test]
fn compiler_meta_new_is_empty() {
    let meta = CompilerMeta::new();
    assert!(meta.warnings.is_empty());
    assert!(meta.errors.is_empty());
    assert!(meta.read_buffer.unwrap().is_empty());
}
