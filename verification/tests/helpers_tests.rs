use patchiest::edits::apply_edits_checked;
use patchiest::helpers::{apply_edits, render_value, resolve_callable_topology, transform_call_snippet};
use patchiest::models::ArgValue;
use patchiest::syntax::{language_for, lower, parse_source};

#[test]
fn test_apply_edits() {
    let mut source = "Hello World".to_string();
    let edits = vec![(0, 5, "Hi".to_string()), (6, 11, "Universe".to_string())];
    apply_edits(&mut source, edits);
    assert_eq!(source, "Hi Universe");
}

#[test]
fn test_render_value() {
    assert_eq!(render_value(&ArgValue::Text("foo".to_string())), "\"foo\"");
    assert_eq!(render_value(&ArgValue::Encoded("123".to_string())), "123");
    assert_eq!(render_value(&ArgValue::Encoded("true".to_string())), "true");
}

#[test]
fn test_transform_call_snippet_rename() {
    let snippet = "foo()";
    let out = transform_call_snippet(snippet, "foo", Some("bar"), None);
    assert_eq!(out, "bar()");
}

#[test]
fn test_transform_call_snippet_inject() {
    let snippet = "foo()";
    let args = vec![("a".to_string(), ArgValue::Encoded("1".to_string()))];
    let out = transform_call_snippet(snippet, "foo", None, Some(&args));
    assert_eq!(out, "foo(a=1)");
}

#[test]
fn test_resolve_callable_topology() {
    let source = "fn foo() { bar(); }";
    let nodes = parse_source(language_for("main.rs"), source);
    let node = resolve_callable_topology(&nodes, "bar");
    assert!(node.is_some());
    assert!(nodes[node.unwrap()].text.contains("fn foo"));
}

#[test]
fn test_resolve_callable_topology_none() {
    let source = "fn foo() { bar(); }";
    let nodes = parse_source(language_for("main.rs"), source);
    let node = resolve_callable_topology(&nodes, "baz");
    assert!(node.is_none());
}

#[test]
fn test_apply_edits_overlapping() {
    let mut source = "Hello World".to_string();
    let edits = vec![(0, 5, "Hi".to_string()), (0, 2, "Hey".to_string())];
    apply_edits(&mut source, edits);
}

#[test]
fn test_apply_edits_out_of_bounds() {
    let mut source = "Hello".to_string();
    let edits = vec![(0, 10, "World".to_string())];
    apply_edits(&mut source, edits.clone());
    assert_eq!(source, "Hello");

    let mut source = "Hello".to_string();
    let edits = vec![(10, 5, "World".to_string())];
    apply_edits(&mut source, edits);
    assert_eq!(source, "Hello");
}

#[test]
fn test_transform_call_snippet_no_parentheses() {
    let snippet = "foo";
    let out = transform_call_snippet(snippet, "foo", Some("bar"), None);
    assert_eq!(out, "bar");

    let args = vec![("a".to_string(), ArgValue::Encoded("1".to_string()))];
    let out = transform_call_snippet(snippet, "foo", None, Some(&args));
    assert_eq!(out, "foo");
}

#[test]
fn test_transform_call_snippet_rename_mismatch() {
    let snippet = "foo()";
    let out = transform_call_snippet(snippet, "bar", Some("baz"), None);
    assert_eq!(out, "foo()");
}

#[test]
fn test_transform_call_snippet_empty_args() {
    let snippet = "foo()";
    let args: Vec<(String, ArgValue)> = Vec::new();
    let out = transform_call_snippet(snippet, "foo", None, Some(&args));
    assert_eq!(out, "foo()");
}

#[test]
fn test_resolve_callable_topology_no_parent_match() {
    let source = "baz;";
    let nodes = parse_source(language_for("main.rs"), source);
    let node = resolve_callable_topology(&nodes, "baz");
    assert!(node.is_none());
}

// Edits listed in any order each replace their own range of the original text.
#[test]
fn apply_edits_in_any_order_use_original_positions() {
    let mut source = "Hello World".to_string();
    let edits = vec![(6, 11, "Universe".to_string()), (0, 5, "Hi".to_string())];
    apply_edits(&mut source, edits);
    assert_eq!(source, "Hi Universe");
}

#[test]
fn apply_edits_insertion_at_front() {
    let mut source = "fn main() {}".to_string();
    apply_edits(&mut source, vec![(0, 0, "// top\n".to_string())]);
    assert_eq!(source, "// top\nfn main() {}");
}

#[test]
fn apply_edits_no_edits_keeps_text() {
    let mut source = "unchanged".to_string();
    apply_edits(&mut source, Vec::new());
    assert_eq!(source, "unchanged");
}

#[test]
fn apply_edits_checked_refuses_split_character() {
    let source = "é".to_string();
    assert_eq!(apply_edits_checked(&source, vec![(1, 2, "x".to_string())]), None);
    assert_eq!(
        apply_edits_checked(&source, vec![(0, 2, "e".to_string())]),
        Some("e".to_string())
    );
}

#[test]
fn apply_edits_multibyte_boundaries() {
    let mut source = "héllo wörld".to_string();
    // "wörld" occupies bytes 7..13.
    apply_edits(&mut source, vec![(7, 13, "world".to_string()), (0, 1, "H".to_string())]);
    assert_eq!(source, "Héllo world");
}

#[test]
fn apply_edits_equal_starts_keep_given_order() {
    let mut source = "ab".to_string();
    apply_edits(&mut source, vec![(1, 1, "X".to_string()), (1, 1, "Y".to_string())]);
    assert_eq!(source, "aYXb");
}

#[test]
fn render_value_escapes_quotes() {
    assert_eq!(render_value(&ArgValue::Text("say \"hi\"".to_string())), "\"say \\\"hi\\\"\"");
    assert_eq!(render_value(&ArgValue::Encoded("{\"k\":1}".to_string())), "{\"k\":1}");
}

#[test]
fn transform_call_snippet_inject_after_existing() {
    let args = vec![
        ("a".to_string(), ArgValue::Encoded("1".to_string())),
        ("b".to_string(), ArgValue::Text("x".to_string())),
    ];
    let out = transform_call_snippet("foo(z)", "foo", Some("bar"), Some(&args));
    assert_eq!(out, "bar(z, a=1, b=\"x\")");
}

#[test]
fn transform_call_snippet_rename_after_leading_space() {
    let out = transform_call_snippet("  foo(1)", "foo", Some("bar"), None);
    assert_eq!(out, "  bar(1)");
}

#[test]
fn transform_call_snippet_rename_round_trip() {
    let once = transform_call_snippet(" foo(1)", "foo", Some("bar"), None);
    let back = transform_call_snippet(&once, "bar", Some("foo"), None);
    assert_eq!(back, " foo(1)");
}

#[test]
fn transform_call_snippet_no_changes_requested() {
    assert_eq!(transform_call_snippet("foo(1)", "foo", None, None), "foo(1)");
}

#[test]
fn resolved_node_is_a_callable() {
    let source = "struct S; impl S { fn m(&self) { helper(); } }";
    let nodes = parse_source(language_for("lib.rs"), source);
    let i = resolve_callable_topology(&nodes, "helper").unwrap();
    assert!(lower(&nodes[i].kind).contains("function"));
    assert!(nodes[i].text.starts_with("fn m"));
}

#[test]
fn parse_source_depth_first_order() {
    let nodes = parse_source(language_for("main.rs"), "fn foo() {}");
    assert!(!nodes.is_empty());
    assert_eq!(nodes[0].depth, 0);
    assert_eq!(nodes[0].start, 0);
    assert_eq!(nodes[0].text, "fn foo() {}");
    assert!(nodes.iter().skip(1).all(|n| n.depth >= 1));
}

#[test]
fn language_for_follows_extension() {
    let ts = parse_source(language_for("a.ts"), "function foo() {}");
    assert!(ts.iter().any(|n| n.kind == "function_declaration"));
    let rs = parse_source(language_for("no_extension"), "fn foo() {}");
    assert!(rs.iter().any(|n| n.kind == "function_item"));
}

#[test]
fn lower_maps_case() {
    assert_eq!(lower("Call_Expression"), "call_expression");
}

#[test]
fn apply_edits_ascii_overlapping_result() {
    let mut source = "Hello World".to_string();
    apply_edits(&mut source, vec![(0, 5, "Hi".to_string()), (0, 2, "Hey".to_string())]);
    assert_eq!(source, "Hey World");
    assert!(source.is_ascii());
}

#[test]
fn apply_edits_drops_a_batch_out_of_range() {
    let mut source = "abc".to_string();
    apply_edits(&mut source, vec![(3, 1, "x".to_string()), (0, 99, "y".to_string())]);
    assert_eq!(source, "abc");
}

#[test]
fn transform_is_rename_then_inject() {
    let args = vec![("a".to_string(), ArgValue::Encoded("1".to_string()))];
    let whole = transform_call_snippet("foo(x)", "foo", Some("bar"), Some(&args));
    let renamed = transform_call_snippet("foo(x)", "foo", Some("bar"), None);
    let then = transform_call_snippet(&renamed, "foo", None, Some(&args));
    assert_eq!(whole, "bar(x, a=1)");
    assert_eq!(whole, then);
}

#[test]
fn resolved_node_contains_target_and_has_children() {
    let source = "fn outer() { let v = helper(1); }";
    let nodes = parse_source(language_for("lib.rs"), source);
    let i = resolve_callable_topology(&nodes, "helper").unwrap();
    assert!(nodes[i].text.contains("helper"));
    assert!(!nodes[i].leaf);
}
