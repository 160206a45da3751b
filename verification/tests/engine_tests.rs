use patchiest::engine::{disk_read_path, execute_payload, finish_write, source_path, EngineOutcome};
use patchiest::models::{
    ActionMutations, ActionTarget, ArgValue, CompilerMeta, CompilerPayload, CompilerStatus,
    DialecticAction, ReadValue,
};
use patchiest::registry::RecipeRegistry;

fn no_target() -> ActionTarget {
    ActionTarget {
        name: None,
        function_name: None,
        hardcoded_dependency: None,
        named_import: None,
        node_name: None,
        recipe_name: None,
    }
}

fn no_mutations() -> ActionMutations {
    ActionMutations {
        rename: None,
        inject_args: None,
        target_arg_index: None,
        enforce_explicit_type: None,
        generate_interface: None,
        target_param_index: None,
        extract_to_parameter: None,
        replace_with: None,
        module_specifier: None,
        ensure_import: None,
        is_type_only: None,
        extract: None,
        options: None,
        target_files: None,
    }
}

fn payload(path: Option<&str>, source: Option<&str>, intent: Vec<DialecticAction>, dry_run: bool) -> CompilerPayload {
    CompilerPayload {
        file_path: path.map(|p| p.to_string()),
        source: source.map(|s| s.to_string()),
        intent,
        dry_run,
    }
}

fn run(p: CompilerPayload, disk: Option<String>) -> EngineOutcome {
    let registry = RecipeRegistry::new();
    execute_payload(p, &registry, disk).expect("the actions run to the end")
}

fn finished(outcome: EngineOutcome) -> CompilerMeta {
    match outcome {
        EngineOutcome::Finished(meta) => meta,
        EngineOutcome::WriteBack { .. } => panic!("unexpected write-back"),
    }
}

fn rename_foo_to_bar() -> DialecticAction {
    DialecticAction::MutateCall {
        target: ActionTarget { name: Some("foo".to_string()), ..no_target() },
        mutations: ActionMutations { rename: Some("bar".to_string()), ..no_mutations() },
    }
}

fn read(node: &str, extract: &str) -> DialecticAction {
    DialecticAction::ReadTopology {
        target: ActionTarget { node_name: Some(node.to_string()), ..no_target() },
        mutations: ActionMutations { extract: Some(extract.to_string()), ..no_mutations() },
    }
}

fn buffer_has(meta: &CompilerMeta, key: &str) -> bool {
    meta.read_buffer.as_ref().unwrap().iter().any(|(k, _)| k == key)
}

#[test]
fn test_execute_payload_empty_source_fatal() {
    let p = payload(Some("nonexistent.rs"), None, vec![], false);
    let meta = finished(run(p, None));
    assert_eq!(meta.status, CompilerStatus::Fatal);
    assert!(meta.errors[0].contains("not found or empty"));
}

#[test]
fn test_execute_payload_mutate_call() {
    let p = payload(Some("test.rs"), Some("fn main() { foo(); }"), vec![rename_foo_to_bar()], true);
    let meta = finished(run(p, None));
    assert_eq!(meta.status, CompilerStatus::DryRunComplete);
    assert!(meta.mutations >= 1);
}

#[test]
fn test_execute_payload_translate_dialect() {
    let action = DialecticAction::TranslateDialect {
        target: ActionTarget { function_name: Some("foo".to_string()), ..no_target() },
        mutations: ActionMutations {
            enforce_explicit_type: Some("IFoo".to_string()),
            generate_interface: Some(vec!["a: string".to_string()]),
            ..no_mutations()
        },
    };
    let p = payload(Some("test.ts"), Some("function foo(a: any) { return a; }"), vec![action], true);
    let meta = finished(run(p, None));
    assert_eq!(meta.status, CompilerStatus::DryRunComplete);
    assert_eq!(meta.mutations, 1);
}

#[test]
fn test_execute_payload_restructure_topology() {
    let action = DialecticAction::RestructureTopology {
        target: ActionTarget {
            function_name: Some("foo".to_string()),
            hardcoded_dependency: Some("bar".to_string()),
            ..no_target()
        },
        mutations: ActionMutations { extract_to_parameter: Some("baz".to_string()), ..no_mutations() },
    };
    let p = payload(Some("test.rs"), Some("fn foo() { bar; }"), vec![action], true);
    let meta = finished(run(p, None));
    assert_eq!(meta.status, CompilerStatus::DryRunComplete);
    assert_eq!(meta.mutations, 1);
}

#[test]
fn test_execute_payload_manage_import() {
    let action = DialecticAction::ManageImport {
        target: ActionTarget { named_import: Some("A".to_string()), ..no_target() },
        mutations: ActionMutations { replace_with: Some("B".to_string()), ..no_mutations() },
    };
    let p = payload(Some("test.rs"), Some("use mod::A;"), vec![action], true);
    let meta = finished(run(p, None));
    assert_eq!(meta.status, CompilerStatus::DryRunComplete);
    assert_eq!(meta.mutations, 1);
}

#[test]
fn test_execute_payload_read_topology() {
    let p = payload(Some("test.rs"), Some("fn foo() {}"), vec![read("foo", "FULL_NODE")], false);
    let meta = finished(run(p, None));
    assert_eq!(meta.status, CompilerStatus::ReadComplete);
    assert!(buffer_has(&meta, "foo"));
}

#[test]
fn test_execute_payload_execute_recipe() {
    let action = DialecticAction::ExecuteRecipe {
        target: ActionTarget { recipe_name: Some("cjs-to-esm".to_string()), ..no_target() },
        mutations: no_mutations(),
    };
    let p = payload(Some("test.rs"), Some("fn main() {}"), vec![action], true);
    let meta = finished(run(p, None));
    assert_eq!(meta.status, CompilerStatus::DryRunComplete);
    assert!(meta.warnings[0].contains("no-op"));
}

#[test]
fn test_execute_payload_unsupported() {
    let p = payload(Some("test.rs"), Some("fn main() {}"), vec![DialecticAction::Unsupported], true);
    let meta = finished(run(p, None));
    assert_eq!(meta.status, CompilerStatus::DryRunComplete);
    assert!(meta.warnings[0].contains("Unsupported action encountered"));
}

#[test]
fn test_execute_payload_mutate_call_missing_name() {
    let action = DialecticAction::MutateCall {
        target: no_target(),
        mutations: ActionMutations { rename: Some("bar".to_string()), ..no_mutations() },
    };
    let p = payload(Some("test.rs"), Some("fn main() { foo(); }"), vec![action], true);
    let meta = finished(run(p, None));
    assert_eq!(meta.status, CompilerStatus::RollbackInitiated);
    assert!(meta.errors[0].contains("missing target.name"));
}

#[test]
fn test_execute_payload_translate_dialect_missing_target() {
    let action = DialecticAction::TranslateDialect {
        target: ActionTarget { function_name: Some("foo".to_string()), ..no_target() },
        mutations: no_mutations(),
    };
    let p = payload(Some("test.ts"), Some("function bar() { }"), vec![action], true);
    let meta = finished(run(p, None));
    assert_eq!(meta.status, CompilerStatus::DryRunComplete);
    assert!(meta.warnings[0].contains("Target 'foo' missing"));
}

#[test]
fn test_execute_payload_translate_dialect_interface_exists() {
    let action = DialecticAction::TranslateDialect {
        target: ActionTarget { function_name: Some("foo".to_string()), ..no_target() },
        mutations: ActionMutations {
            enforce_explicit_type: Some("IFoo".to_string()),
            generate_interface: Some(vec!["b".to_string(), "a: string".to_string()]),
            ..no_mutations()
        },
    };
    let p = payload(
        Some("test.ts"),
        Some("interface IFoo {}\nfunction foo(a: any) { return a; }"),
        vec![action],
        true,
    );
    let meta = finished(run(p, None));
    assert_eq!(meta.status, CompilerStatus::DryRunComplete);
}

#[test]
fn test_execute_payload_manage_import_ensure_missing_inside_existing() {
    let action = DialecticAction::ManageImport {
        target: no_target(),
        mutations: ActionMutations {
            module_specifier: Some("mod".to_string()),
            ensure_import: Some("B".to_string()),
            is_type_only: Some(false),
            ..no_mutations()
        },
    };
    let p = payload(Some("test.ts"), Some("import { A } from 'mod';"), vec![action], true);
    let meta = finished(run(p, None));
    assert_eq!(meta.mutations, 1);
}

#[test]
fn test_execute_payload_manage_import_type_only_new() {
    let action = DialecticAction::ManageImport {
        target: no_target(),
        mutations: ActionMutations {
            module_specifier: Some("mod".to_string()),
            ensure_import: Some("B".to_string()),
            is_type_only: Some(true),
            ..no_mutations()
        },
    };
    let p = payload(Some("test.ts"), Some("fn main() { }"), vec![action], true);
    let meta = finished(run(p, None));
    assert_eq!(meta.mutations, 1);
}

#[test]
fn test_execute_payload_read_topology_system() {
    let p = payload(Some("test.rs"), Some("fn main() {}"), vec![read("SYSTEM", "AVAILABLE_RECIPES")], false);
    let meta = finished(run(p, None));
    assert!(buffer_has(&meta, "AVAILABLE_RECIPES"));
}

#[test]
fn test_execute_payload_read_topology_signature_deps() {
    let p = payload(
        Some("test.rs"),
        Some("fn foo() { bar(); }"),
        vec![
            read("foo", "SIGNATURE"),
            read("foo", "DEPENDENCIES"),
            read("foo", "INVALID_CMD"),
            read("unknown", "SIGNATURE"),
        ],
        false,
    );
    let meta = finished(run(p, None));
    assert_eq!(meta.status, CompilerStatus::ReadComplete);
    assert!(buffer_has(&meta, "foo"));
    assert!(meta.warnings.iter().any(|w| w.contains("Unknown extraction command: INVALID_CMD")));
    assert!(meta.warnings.iter().any(|w| w.contains("not found in spatial topology")));
}

#[test]
fn test_execute_payload_execute_recipe_not_found() {
    let action = DialecticAction::ExecuteRecipe {
        target: ActionTarget { recipe_name: Some("nonexistent_recipe".to_string()), ..no_target() },
        mutations: no_mutations(),
    };
    let p = payload(Some("test.rs"), Some("fn main() {}"), vec![action], true);
    let meta = finished(run(p, None));
    assert_eq!(meta.status, CompilerStatus::DryRunComplete);
    assert!(meta.warnings[0].contains("not found in registry"));
}

#[test]
fn test_execute_payload_success_write() {
    let p = payload(Some("not_temp.rs"), Some("fn main() { foo(); }"), vec![rename_foo_to_bar()], false);
    match run(p, None) {
        EngineOutcome::WriteBack { meta, path, contents } => {
            assert_eq!(path, "not_temp.rs");
            assert_eq!(contents, "fn main() { bar(); }");
            let meta = finish_write(meta, None);
            assert_eq!(meta.status, CompilerStatus::Success);
        }
        EngineOutcome::Finished(_) => panic!("expected a write-back"),
    }
}

#[test]
fn test_execute_payload_write_fail() {
    let path = "/invalid_path_for_write.rs";
    let p = payload(Some(path), Some("fn main() { foo(); }"), vec![rename_foo_to_bar()], false);
    match run(p, None) {
        EngineOutcome::WriteBack { meta, .. } => {
            let meta = finish_write(meta, Some("Permission denied (os error 13)".to_string()));
            assert_eq!(meta.status, CompilerStatus::RollbackInitiated);
            assert!(meta.errors[0].contains("Failed to write"));
        }
        EngineOutcome::Finished(_) => panic!("expected a write-back"),
    }
}

#[test]
fn test_execute_payload_no_intent_no_mutations() {
    let p = payload(None, Some("fn main() {}"), vec![], false);
    let meta = finished(run(p, None));
    assert_eq!(meta.status, CompilerStatus::NoMutations);
}

#[test]
fn test_execute_payload_empty_source_explicit_fatal() {
    let p = payload(Some("empty_file.rs"), Some(""), vec![], false);
    let meta = finished(run(p, None));
    assert_eq!(meta.status, CompilerStatus::Fatal);
}

#[test]
fn test_execute_payload_path_exists_but_no_source() {
    let p = payload(Some("exists_test.rs"), None, vec![], false);
    let meta = finished(run(p, Some("fn main() {}".to_string())));
    assert_eq!(meta.status, CompilerStatus::NoMutations);
}

#[test]
fn test_execute_payload_translate_dialect_type_injection_warning() {
    let action = DialecticAction::TranslateDialect {
        target: ActionTarget { function_name: Some("foo".to_string()), ..no_target() },
        mutations: ActionMutations { enforce_explicit_type: Some("IFoo".to_string()), ..no_mutations() },
    };
    let p = payload(Some("test.ts"), Some("function foo() {}"), vec![action], true);
    let meta = finished(run(p, None));
    assert!(meta.warnings.iter().any(|w| w.contains("Type injection")));
}

#[test]
fn test_execute_payload_manage_import_ensure_no_mod_spec() {
    let action = DialecticAction::ManageImport {
        target: no_target(),
        mutations: ActionMutations { ensure_import: Some("A".to_string()), ..no_mutations() },
    };
    let p = payload(Some("test.ts"), Some(""), vec![action], true);
    let meta = finished(run(p, None));
    assert_eq!(meta.mutations, 0);
}

#[test]
fn test_execute_payload_translate_dialect_any_type() {
    let action = DialecticAction::TranslateDialect {
        target: ActionTarget { function_name: Some("foo".to_string()), ..no_target() },
        mutations: ActionMutations {
            enforce_explicit_type: Some("IFoo".to_string()),
            generate_interface: Some(vec!["a".to_string()]),
            ..no_mutations()
        },
    };
    let p = payload(Some("test.ts"), Some("function foo(a: any) { return a; }"), vec![action], true);
    let meta = finished(run(p, None));
    assert_eq!(meta.mutations, 1);
}

#[test]
fn test_execute_payload_temp_rs_success() {
    let p = payload(None, Some("fn main() { foo(); }"), vec![rename_foo_to_bar()], false);
    let meta = finished(run(p, None));
    assert_eq!(meta.status, CompilerStatus::Success);
}

// ---------------------------------------------------------------------------
// Further cases
// ---------------------------------------------------------------------------

#[test]
fn missing_file_error_names_the_path() {
    let meta = finished(run(payload(None, None, vec![], false), Some(String::new())));
    assert_eq!(meta.errors, vec!["File 'temp.rs' not found or empty.".to_string()]);
    assert_eq!(meta.mutations, 0);
}

#[test]
fn dry_run_never_writes_back() {
    let p = payload(Some("real.rs"), Some("fn main() { foo(); }"), vec![rename_foo_to_bar()], true);
    let meta = finished(run(p, None));
    assert_eq!(meta.status, CompilerStatus::DryRunComplete);
}

#[test]
fn errors_roll_back_every_mutation() {
    let missing = DialecticAction::MutateCall { target: no_target(), mutations: no_mutations() };
    let p = payload(Some("real.rs"), Some("fn main() { foo(); }"), vec![rename_foo_to_bar(), missing], false);
    let meta = finished(run(p, None));
    assert_eq!(meta.status, CompilerStatus::RollbackInitiated);
    assert_eq!(meta.mutations, 0);
    assert_eq!(meta.errors, vec!["MUTATE_CALL missing target.name".to_string()]);
}

#[test]
fn write_back_carries_the_edited_text() {
    let action = DialecticAction::MutateCall {
        target: ActionTarget { name: Some("foo".to_string()), ..no_target() },
        mutations: ActionMutations {
            inject_args: Some(vec![("timeout".to_string(), ArgValue::Encoded("30".to_string()))]),
            ..no_mutations()
        },
    };
    let p = payload(Some("src/example.rs"), Some("fn main() { let x = foo(); }"), vec![action], false);
    match run(p, None) {
        EngineOutcome::WriteBack { meta, path, contents } => {
            assert_eq!(path, "src/example.rs");
            assert_eq!(contents, "fn main() { let x = foo(timeout=30); }");
            assert_eq!(meta.status, CompilerStatus::Success);
            assert!(meta.mutations >= 1);
        }
        EngineOutcome::Finished(_) => panic!("expected a write-back"),
    }
}

#[test]
fn read_only_payload_changes_nothing() {
    let recipe = DialecticAction::ExecuteRecipe {
        target: ActionTarget { recipe_name: Some("react-class-to-hooks".to_string()), ..no_target() },
        mutations: no_mutations(),
    };
    let p = payload(
        Some("real.rs"),
        Some("fn foo() { bar(); }"),
        vec![read("foo", "FULL_NODE"), recipe, DialecticAction::Unsupported],
        false,
    );
    let meta = finished(run(p, None));
    assert_eq!(meta.status, CompilerStatus::ReadComplete);
    assert_eq!(meta.mutations, 0);
    assert_eq!(meta.warnings.len(), 2);
}

#[test]
fn read_buffer_keeps_the_latest_value_per_key() {
    let p = payload(
        Some("test.rs"),
        Some("fn foo() { bar(); bar(); }"),
        vec![read("foo", "FULL_NODE"), read("foo", "DEPENDENCIES")],
        false,
    );
    let meta = finished(run(p, None));
    let buffer = meta.read_buffer.unwrap();
    assert_eq!(buffer.len(), 1);
    match &buffer[0].1 {
        ReadValue::Texts(names) => assert_eq!(names, &vec!["foo".to_string(), "bar".to_string()]),
        _ => panic!("expected a list of names"),
    }
}

#[test]
fn read_signature_is_first_line() {
    let p = payload(Some("test.rs"), Some("fn foo() {\n    bar();\n}"), vec![read("foo", "SIGNATURE")], false);
    let meta = finished(run(p, None));
    let buffer = meta.read_buffer.unwrap();
    match &buffer[0].1 {
        ReadValue::Fields(fields) => {
            assert_eq!(fields, &vec![("signature".to_string(), "fn foo() {".to_string())])
        }
        _ => panic!("expected a signature record"),
    }
}

#[test]
fn available_recipes_lists_names_and_descriptions() {
    let p = payload(Some("test.rs"), Some("x"), vec![read("SYSTEM", "AVAILABLE_RECIPES")], false);
    let meta = finished(run(p, None));
    let buffer = meta.read_buffer.unwrap();
    match &buffer[0].1 {
        ReadValue::Records(rs) => {
            assert_eq!(rs.len(), 2);
            assert_eq!(rs[0][0], ("name".to_string(), "cjs-to-esm".to_string()));
            assert_eq!(rs[0][1].0, "description");
        }
        _ => panic!("expected records"),
    }
}

#[test]
fn interface_is_generated_once() {
    let action = || DialecticAction::TranslateDialect {
        target: ActionTarget { function_name: Some("foo".to_string()), ..no_target() },
        mutations: ActionMutations {
            enforce_explicit_type: Some("IFoo".to_string()),
            generate_interface: Some(vec!["a: string".to_string(), "b".to_string()]),
            ..no_mutations()
        },
    };
    let p = payload(Some("a.ts"), Some("function foo(a) { return a; }"), vec![action(), action()], false);
    match run(p, None) {
        EngineOutcome::WriteBack { meta, contents, .. } => {
            assert_eq!(meta.mutations, 1);
            assert_eq!(contents.matches("interface IFoo").count(), 1);
        }
        EngineOutcome::Finished(_) => panic!("expected a write-back"),
    }
}

#[test]
fn interface_text_layout() {
    let action = DialecticAction::TranslateDialect {
        target: ActionTarget { function_name: Some("foo".to_string()), ..no_target() },
        mutations: ActionMutations {
            generate_interface: Some(vec![" a : string ".to_string(), "b".to_string()]),
            ..no_mutations()
        },
    };
    let action2 = DialecticAction::TranslateDialect {
        target: ActionTarget { function_name: Some("foo".to_string()), ..no_target() },
        mutations: ActionMutations {
            enforce_explicit_type: Some("Props".to_string()),
            generate_interface: Some(vec![" a : string ".to_string(), "b".to_string()]),
            ..no_mutations()
        },
    };
    let src = "function foo(a) { return a; }";
    let p = payload(Some("out.ts"), Some(src), vec![action, action2], false);
    match run(p, None) {
        EngineOutcome::WriteBack { contents, .. } => {
            assert_eq!(
                contents,
                format!("\ninterface Props {{\n  a: string;\n  b: any;\n}}\n{}", src)
            );
        }
        EngineOutcome::Finished(_) => panic!("expected a write-back"),
    }
}

#[test]
fn ensure_import_adds_statement_when_module_missing() {
    let action = DialecticAction::ManageImport {
        target: no_target(),
        mutations: ActionMutations {
            module_specifier: Some("mod".to_string()),
            ensure_import: Some("B".to_string()),
            is_type_only: Some(true),
            ..no_mutations()
        },
    };
    let p = payload(Some("x.ts"), Some("let x = 1;"), vec![action], false);
    match run(p, None) {
        EngineOutcome::WriteBack { contents, .. } => {
            assert_eq!(contents, "import type  { B } from 'mod';\nlet x = 1;");
        }
        EngineOutcome::Finished(_) => panic!("expected a write-back"),
    }
}

#[test]
fn ensure_import_extends_existing_import() {
    let action = DialecticAction::ManageImport {
        target: no_target(),
        mutations: ActionMutations {
            module_specifier: Some("mod".to_string()),
            ensure_import: Some("B".to_string()),
            ..no_mutations()
        },
    };
    let p = payload(Some("x.ts"), Some("import { A } from 'mod';"), vec![action], false);
    match run(p, None) {
        EngineOutcome::WriteBack { contents, .. } => {
            assert_eq!(contents, "import { A , B} from 'mod';");
        }
        EngineOutcome::Finished(_) => panic!("expected a write-back"),
    }
}

#[test]
fn restructure_replaces_dependency_with_parameter() {
    let action = DialecticAction::RestructureTopology {
        target: ActionTarget {
            function_name: Some("foo".to_string()),
            hardcoded_dependency: Some("bar".to_string()),
            ..no_target()
        },
        mutations: ActionMutations { extract_to_parameter: Some("baz".to_string()), ..no_mutations() },
    };
    let p = payload(Some("a.rs"), Some("fn foo() { bar; }"), vec![action], false);
    match run(p, None) {
        EngineOutcome::WriteBack { contents, meta, .. } => {
            assert_eq!(contents, "fn foo() { baz; }");
            assert_eq!(meta.mutations, 1);
        }
        EngineOutcome::Finished(_) => panic!("expected a write-back"),
    }
}

#[test]
fn unchanged_text_is_not_written() {
    let action = DialecticAction::MutateCall {
        target: ActionTarget { name: Some("foo".to_string()), ..no_target() },
        mutations: ActionMutations { rename: Some("foo".to_string()), ..no_mutations() },
    };
    let p = payload(Some("a.rs"), Some("fn main() { foo(); }"), vec![action], false);
    let meta = finished(run(p, None));
    assert_eq!(meta.status, CompilerStatus::NoMutations);
    assert_eq!(meta.mutations, 0);
}

#[test]
fn paths_for_disk_reads() {
    let inline = payload(Some("a.rs"), Some("x"), vec![], false);
    assert_eq!(disk_read_path(&inline), None);
    let on_disk = payload(None, None, vec![], false);
    assert_eq!(disk_read_path(&on_disk), Some("temp.rs".to_string()));
    assert_eq!(source_path(&inline), "a.rs");
}

#[test]
fn each_nameless_call_reports_an_error() {
    let nameless = || DialecticAction::MutateCall { target: no_target(), mutations: no_mutations() };
    let p = payload(Some("real.rs"), Some("fn main() {}"), vec![nameless(), DialecticAction::Unsupported, nameless()], false);
    let meta = finished(run(p, None));
    assert_eq!(meta.status, CompilerStatus::RollbackInitiated);
    assert_eq!(meta.errors.len(), 2);
    assert!(meta.errors.iter().all(|e| e == "MUTATE_CALL missing target.name"));
    assert!(meta.read_buffer.is_some());
}

#[test]
fn reports_always_carry_a_read_buffer() {
    let fatal = finished(run(payload(None, Some(""), vec![], false), None));
    assert!(fatal.read_buffer.is_some());
    let dry = finished(run(payload(None, Some("fn main() { foo(); }"), vec![rename_foo_to_bar()], true), None));
    assert!(dry.read_buffer.is_some());
    assert_ne!(dry.status, CompilerStatus::PartialFail);
}

fn rename_foo_to(new_name: &str) -> DialecticAction {
    DialecticAction::MutateCall {
        target: ActionTarget { name: Some("foo".to_string()), ..no_target() },
        mutations: ActionMutations { rename: Some(new_name.to_string()), ..no_mutations() },
    }
}

#[test]
fn rename_writes_the_renamed_call_once() {
    let p = payload(Some("out.rs"), Some("fn main() { foo(); }"), vec![rename_foo_to("barbaz")], false);
    match run(p, None) {
        EngineOutcome::WriteBack { meta, path, contents } => {
            assert_eq!(path, "out.rs");
            assert_eq!(contents, "fn main() { barbaz(); }");
            assert_eq!(meta.mutations, 1);
            let meta = finish_write(meta, None);
            assert_eq!(meta.status, CompilerStatus::Success);
            assert_eq!(meta.mutations, 1);
        }
        EngineOutcome::Finished(_) => panic!("expected a write-back"),
    }
}

#[test]
fn rename_reaches_every_call_in_an_expression() {
    let p = payload(
        Some("out.rs"),
        Some("fn main() { let x = foo(1) + foo(2); foo(3).len(); }"),
        vec![rename_foo_to("barbaz")],
        false,
    );
    match run(p, None) {
        EngineOutcome::WriteBack { meta, contents, .. } => {
            assert_eq!(contents, "fn main() { let x = barbaz(1) + barbaz(2); barbaz(3).len(); }");
            assert_eq!(meta.mutations, 3);
        }
        EngineOutcome::Finished(_) => panic!("expected a write-back"),
    }
}

#[test]
fn inject_into_the_call_itself() {
    let action = DialecticAction::MutateCall {
        target: ActionTarget { name: Some("foo".to_string()), ..no_target() },
        mutations: ActionMutations {
            inject_args: Some(vec![("timeout".to_string(), ArgValue::Encoded("30".to_string()))]),
            ..no_mutations()
        },
    };
    let p = payload(Some("out.rs"), Some("fn main() { foo(); }"), vec![action], false);
    match run(p, None) {
        EngineOutcome::WriteBack { meta, contents, .. } => {
            assert_eq!(contents, "fn main() { foo(timeout=30); }");
            assert_eq!(meta.mutations, 1);
        }
        EngineOutcome::Finished(_) => panic!("expected a write-back"),
    }
}
