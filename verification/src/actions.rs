//! What each protocol action does to a syntax tree: the messages, edits and
//! read results it yields.
use crate::edits::{Edit, TextEdit, edited, edits_view, law_empty_and_front_insertion};
use crate::engine::{ActionEffect, EffectView, empty_effect, no_effect, warning_effect, warning_only};
use crate::helpers::{
    ArgsOpt, args_view, opt_args_view, opt_view, resolve_callable_topology, resolved_callable,
    transform_call_snippet_checked, transform_defined, transformed,
};
use crate::models::{
    ActionMutations, ActionTarget, ArgValue, DialecticAction, ReadValue, ReadValueView, pairs_view,
    strings_view,
};
use crate::registry::{RecipeRegistry, recipe_named, recipe_views};
use crate::syntax::{
    SyntaxNode, SyntaxNodeView, lemma_subtree_end_bounds, lemma_subtree_within_range, lower, lowercase, nodes_view,
    parse_source, subtree_end, subtree_end_index, syntax_tree, tree_shaped,
};
use ast_grep_language::SupportLang;
use crate::text::{
    chars_of, concat3, contains, contains_text, occurs_at, extend_chars, first_line, first_line_of,
    replace_all, replace_text, rfind_char, same_text, split_char, split_on, starts_with, string_of,
    sub_chars, trim, trimmed,
};
use vstd::prelude::*;

verus! {

broadcast use vstd::string::group_string_axioms;

// ---------------------------------------------------------------------------
// Shared pieces
// ---------------------------------------------------------------------------
/// An optional text, or the empty text.
pub open spec fn text_or_empty(o: Option<String>) -> Seq<char> {
    match o {
        Some(s) => s@,
        None => Seq::empty(),
    }
}

/// The meaning of an optional text.
pub open spec fn opt_text(o: Option<String>) -> Option<Seq<char>> {
    match o {
        Some(s) => Some(s@),
        None => None,
    }
}

/// An optional text, or the empty text.
fn str_or_empty(o: &Option<String>) -> (s: &str)
    ensures
        s@ == text_or_empty(*o),
{
    proof {
        reveal_strlit("");
    }
    match o {
        Some(s) => s.as_str(),
        None => "",
    }
}

/// An optional text as an optional slice.
fn opt_str(o: &Option<String>) -> (s: Option<&str>)
    ensures
        opt_view(s) == opt_text(*o),
{
    match o {
        Some(s) => Some(s.as_str()),
        None => None,
    }
}

/// An optional argument list as an optional reference.
fn opt_args(o: &Option<Vec<(String, ArgValue)>>) -> (a: Option<&Vec<(String, ArgValue)>>)
    ensures
        opt_args_view(a) == args_opt(*o),
{
    match o {
        Some(v) => Some(v),
        None => None,
    }
}

/// The meaning of optional named arguments held by value.
pub open spec fn args_opt(o: Option<Vec<(String, ArgValue)>>) -> ArgsOpt {
    match o {
        Some(a) => Some(args_view(a@)),
        None => None,
    }
}

/// The characters of a node kind, lower-cased.
fn lowered(kind: &str) -> (out: Vec<char>)
    ensures
        out@ == lowercase(kind@),
{
    let low = lower(kind);
    chars_of(low.as_str())
}

/// Whether `word` occurs in `text`.
fn has_word(text: &[char], word: &str) -> (b: bool)
    ensures
        b == contains_text(text@, word@),
{
    let w = chars_of(word);
    contains(text, &w)
}

// ---------------------------------------------------------------------------
// MUTATE_CALL
// ---------------------------------------------------------------------------
/// A lower-cased kind that names a call or an expression.
pub open spec fn is_call_kind(k: Seq<char>) -> bool {
    contains_text(k, "call"@) || contains_text(k, "expression"@)
}

/// A node whose kind is a call or expression and whose text starts with the
/// call name and holds a `(`.
pub open spec fn call_candidate(n: SyntaxNodeView, name: Seq<char>) -> bool {
    is_call_kind(lowercase(n.kind)) && name.is_prefix_of(n.text) && contains_text(n.text, "("@)
}

/// Node `j`'s byte range lies within node `i`'s.
pub open spec fn encloses(nodes: Seq<SyntaxNodeView>, i: int, j: int) -> bool {
    nodes[i].start <= nodes[j].start && nodes[j].end <= nodes[i].end
}

/// A candidate that is the call itself: no later candidate (in pre-order,
/// a node within it, such as the call inside an expression statement or the
/// first call of a method chain) lies within its range.  Only these are
/// rewritten, so that a call and the nodes wrapping it are not rewritten
/// over each other.
pub open spec fn innermost_call(nodes: Seq<SyntaxNodeView>, i: int, name: Seq<char>) -> bool {
    &&& call_candidate(nodes[i], name)
    &&& !exists|j: int|
        i < j < nodes.len() && #[trigger] call_candidate(nodes[j], name) && encloses(nodes, i, j)
}

/// The edit node `i` yields: its text rewritten, when it is an innermost
/// call and the rewrite changes it.
pub open spec fn call_edit(
    nodes: Seq<SyntaxNodeView>,
    i: int,
    name: Seq<char>,
    rename: Option<Seq<char>>,
    args: ArgsOpt,
) -> Option<TextEdit> {
    let n = nodes[i];
    if innermost_call(nodes, i, name) {
        let r = transformed(n.text, name, rename, args);
        if r != n.text {
            Some((n.start, n.end, r))
        } else {
            None
        }
    } else {
        None
    }
}

/// The edits of the first `k` nodes, in order.
pub open spec fn call_edits(
    nodes: Seq<SyntaxNodeView>,
    k: int,
    name: Seq<char>,
    rename: Option<Seq<char>>,
    args: ArgsOpt,
) -> Seq<TextEdit>
    decreases k,
{
    if k <= 0 {
        Seq::empty()
    } else {
        call_edits(nodes, k - 1, name, rename, args) + match call_edit(
            nodes,
            k - 1,
            name,
            rename,
            args,
        ) {
            Some(e) => seq![e],
            None => Seq::empty(),
        }
    }
}

/// An innermost call whose rewrite would slice its argument list backwards.
pub open spec fn call_breaks(
    nodes: Seq<SyntaxNodeView>,
    i: int,
    name: Seq<char>,
    rename: Option<Seq<char>>,
    args: ArgsOpt,
) -> bool {
    innermost_call(nodes, i, name) && !transform_defined(nodes[i].text, name, rename, args)
}

/// `MUTATE_CALL`: without a call name, an error; otherwise one edit per
/// innermost call (a call or expression node that starts with the name and
/// holds a `(`, with no such node within it) that changes when rewritten.
/// Nothing when some such rewrite is undefined.
pub open spec fn mutate_call_spec(
    nodes: Seq<SyntaxNodeView>,
    target: ActionTarget,
    m: ActionMutations,
) -> Option<EffectView> {
    let name = text_or_empty(target.name);
    let rename = opt_text(m.rename);
    let args = args_opt(m.inject_args);
    if name.len() == 0 {
        Some(EffectView { errors: seq!["MUTATE_CALL missing target.name"@], ..no_effect() })
    } else if exists|i: int| 0 <= i < nodes.len() && #[trigger] call_breaks(nodes, i, name, rename, args) {
        None
    } else {
        Some(
            EffectView {
                edits: call_edits(nodes, nodes.len() as int, name, rename, args),
                ..no_effect()
            },
        )
    }
}

/// Which nodes are call candidates for the name.
fn call_candidates(nodes: &Vec<SyntaxNode>, name: &str) -> (out: Vec<bool>)
    ensures
        out@.len() == nodes@.len(),
        forall|i: int|
            0 <= i < nodes@.len() ==> #[trigger] out@[i] == call_candidate(
                nodes_view(nodes@)[i],
                name@,
            ),
{
    let ghost nv = nodes_view(nodes@);
    let name_chars = chars_of(name);
    let paren = chars_of("(");
    let mut out: Vec<bool> = Vec::new();
    let mut i: usize = 0;
    while i < nodes.len()
        invariant
            i <= nodes@.len(),
            nv == nodes_view(nodes@),
            name_chars@ == name@,
            paren@ == "("@,
            out@.len() == i,
            forall|k: int| 0 <= k < i ==> #[trigger] out@[k] == call_candidate(nv[k], name@),
        decreases nodes@.len() - i,
    {
        let node = &nodes[i];
        assert(nv[i as int] == node.view());
        let low = lowered(node.kind.as_str());
        let is_call = has_word(&low, "call") || has_word(&low, "expression");
        let text = chars_of(node.text.as_str());
        let c = is_call && starts_with(&text, &name_chars) && contains(&text, &paren);
        out.push(c);
        i = i + 1;
    }
    out
}

/// Whether some later candidate lies within node `i`'s range.
fn encloses_later(nodes: &Vec<SyntaxNode>, cand: &Vec<bool>, i: usize) -> (b: bool)
    requires
        i < nodes@.len(),
        cand@.len() == nodes@.len(),
    ensures
        b == exists|j: int|
            i < j < nodes@.len() && #[trigger] cand@[j] && encloses(nodes_view(nodes@), i as int, j),
{
    let ghost nv = nodes_view(nodes@);
    let n = nodes.len();
    let mut j: usize = i + 1;
    while j < n
        invariant
            n == nodes@.len(),
            i < j <= nodes@.len(),
            cand@.len() == nodes@.len(),
            nv == nodes_view(nodes@),
            forall|k: int| i < k < j ==> !(#[trigger] cand@[k] && encloses(nv, i as int, k)),
        decreases nodes@.len() - j,
    {
        assert(nv[i as int] == nodes@[i as int].view());
        assert(nv[j as int] == nodes@[j as int].view());
        if cand[j] && nodes[i].start <= nodes[j].start && nodes[j].end <= nodes[i].end {
            return true;
        }
        j = j + 1;
    }
    false
}

/// The outcome of `MUTATE_CALL` on the given nodes.
pub fn mutate_call(nodes: &Vec<SyntaxNode>, target: &ActionTarget, m: &ActionMutations) -> (out:
    Option<ActionEffect>)
    ensures
        match out {
            Some(e) => mutate_call_spec(nodes_view(nodes@), *target, *m) == Some(e.view()),
            None => mutate_call_spec(nodes_view(nodes@), *target, *m) is None,
        },
{
    let ghost nv = nodes_view(nodes@);
    let name = str_or_empty(&target.name);
    let mut e = empty_effect();
    if name.is_empty() {
        e.errors.push("MUTATE_CALL missing target.name".to_string());
        assert(e.view().errors =~= seq!["MUTATE_CALL missing target.name"@]);
        return Some(e);
    }
    let rename = opt_str(&m.rename);
    let args = opt_args(&m.inject_args);
    let ghost rv = opt_text(m.rename);
    let ghost av = args_opt(m.inject_args);
    let cand = call_candidates(nodes, name);
    let mut i: usize = 0;
    while i < nodes.len()
        invariant
            i <= nodes@.len(),
            nv == nodes_view(nodes@),
            name@.len() > 0,
            name@ == text_or_empty(target.name),
            rv == opt_text(m.rename),
            av == args_opt(m.inject_args),
            opt_view(rename) == rv,
            opt_args_view(args) == av,
            cand@.len() == nodes@.len(),
            forall|k: int| 0 <= k < nodes@.len() ==> #[trigger] cand@[k] == call_candidate(nv[k], name@),
            e.view() == (EffectView { edits: call_edits(nv, i as int, name@, rv, av), ..no_effect() }),
            forall|j: int| 0 <= j < i ==> !#[trigger] call_breaks(nv, j, name@, rv, av),
        decreases nodes@.len() - i,
    {
        let node = &nodes[i];
        assert(nv[i as int] == node.view());
        let ghost prev = e.edits@;
        let inner = cand[i] && !encloses_later(nodes, &cand, i);
        assert(inner == innermost_call(nv, i as int, name@)) by {
            if !inner && cand[i as int] {
                let j = choose|j: int|
                    i < j < nodes@.len() && #[trigger] cand@[j] && encloses(nv, i as int, j);
                assert(call_candidate(nv[j], name@));
            }
            if inner {
                assert forall|j: int|
                    i < j < nv.len() && #[trigger] call_candidate(nv[j], name@) implies !encloses(
                    nv,
                    i as int,
                    j,
                ) by {
                    assert(cand@[j]);
                }
            }
        }
        if inner {
            match transform_call_snippet_checked(node.text.as_str(), name, rename, args) {
                None => {
                    assert(call_breaks(nv, i as int, name@, rv, av));
                    return None;
                },
                Some(replaced) => {
                    if replaced != node.text {
                        let ghost before = e.edits@;
                        e.edits.push((node.start, node.end, replaced));
                        assert(edits_view(e.edits@) =~= edits_view(before).push(
                            (node.start, node.end, replaced@),
                        ));
                    }
                },
            }
        }
        assert(edits_view(e.edits@) =~= edits_view(prev) + (match call_edit(
            nv,
            i as int,
            name@,
            rv,
            av,
        ) {
            Some(s) => seq![s],
            None => Seq::empty(),
        }));
        i = i + 1;
    }
    Some(e)
}

// ---------------------------------------------------------------------------
// TRANSLATE_DIALECT
// ---------------------------------------------------------------------------
/// One interface member line: `  name: type;` for a `name:type` property,
/// `  prop: any;` for anything else; parts and property are trimmed.
pub open spec fn prop_line(prop: Seq<char>) -> Seq<char> {
    let parts = split_on(prop, ':');
    if parts.len() == 2 {
        "  "@ + trim(parts[0]) + ": "@ + trim(parts[1]) + ";\n"@
    } else {
        "  "@ + trim(prop) + ": any;\n"@
    }
}

/// The member lines of all properties, in order.
pub open spec fn prop_lines(props: Seq<Seq<char>>) -> Seq<char>
    decreases props.len(),
{
    if props.len() == 0 {
        Seq::empty()
    } else {
        prop_lines(props.drop_last()) + prop_line(props.last())
    }
}

/// An interface declaration with the given name and properties.
pub open spec fn interface_text(name: Seq<char>, props: Seq<Seq<char>>) -> Seq<char> {
    "\ninterface "@ + name + " {\n"@ + prop_lines(props) + "}\n"@
}

/// The warning given whenever an explicit type is requested.
pub open spec fn type_warning() -> Seq<char> {
    "Type injection (enforce_explicit_type) uses naive matching. AST surgery on parameters is complex."@
}

/// `TRANSLATE_DIALECT`: when the function is found and properties are given,
/// an interface named by the explicit type is inserted at the start of the
/// text unless the text already contains that type name (with no explicit
/// type the empty name is always contained); an explicit type also brings a
/// warning.  When the function is not found, a warning.
pub open spec fn translate_spec(
    nodes: Seq<SyntaxNodeView>,
    source: Seq<char>,
    target: ActionTarget,
    m: ActionMutations,
) -> EffectView {
    let f = text_or_empty(target.function_name);
    if resolved_callable(nodes, f) is Some {
        let edits = match m.generate_interface {
            Some(props) => if contains_text(source, text_or_empty(m.enforce_explicit_type)) {
                Seq::<TextEdit>::empty()
            } else {
                seq![
                    (
                        0usize,
                        0usize,
                        interface_text(
                            match m.enforce_explicit_type {
                                Some(t) => t@,
                                None => "DynamicInterface"@,
                            },
                            strings_view(props@),
                        ),
                    ),
                ]
            },
            None => Seq::<TextEdit>::empty(),
        };
        EffectView {
            warnings: if m.enforce_explicit_type is Some {
                seq![type_warning()]
            } else {
                Seq::empty()
            },
            edits: edits,
            ..no_effect()
        }
    } else {
        warning_effect("Target '"@ + f + "' missing. Epistemological translation aborted."@)
    }
}

/// One interface member line, as `prop_line` says.
fn prop_line_chars(prop: &str) -> (out: Vec<char>)
    ensures
        out@ == prop_line(prop@),
{
    let cs = chars_of(prop);
    let parts = split_char(&cs, ':');
    let mut out = chars_of("  ");
    if parts.len() == 2 {
        let a = trimmed(&parts[0]);
        let b = trimmed(&parts[1]);
        extend_chars(&mut out, &a);
        extend_chars(&mut out, &chars_of(": "));
        extend_chars(&mut out, &b);
        extend_chars(&mut out, &chars_of(";\n"));
    } else {
        let a = trimmed(&cs);
        extend_chars(&mut out, &a);
        extend_chars(&mut out, &chars_of(": any;\n"));
    }
    out
}

/// The interface declaration, as `interface_text` says.
fn interface_chars(name: &str, props: &Vec<String>) -> (out: Vec<char>)
    ensures
        out@ == interface_text(name@, strings_view(props@)),
{
    let ghost pv = strings_view(props@);
    let mut lines: Vec<char> = Vec::new();
    let mut i: usize = 0;
    while i < props.len()
        invariant
            i <= props@.len(),
            pv == strings_view(props@),
            lines@ == prop_lines(pv.take(i as int)),
        decreases props@.len() - i,
    {
        assert(pv.take(i + 1).drop_last() =~= pv.take(i as int));
        assert(pv.take(i + 1).last() == props@[i as int]@);
        let line = prop_line_chars(props[i].as_str());
        extend_chars(&mut lines, &line);
        i = i + 1;
    }
    assert(pv.take(i as int) =~= pv);
    let mut out = chars_of("\ninterface ");
    extend_chars(&mut out, &chars_of(name));
    extend_chars(&mut out, &chars_of(" {\n"));
    extend_chars(&mut out, &lines);
    extend_chars(&mut out, &chars_of("}\n"));
    out
}

/// The outcome of `TRANSLATE_DIALECT`.
pub fn translate_dialect(
    nodes: &Vec<SyntaxNode>,
    source: &str,
    target: &ActionTarget,
    m: &ActionMutations,
) -> (e: ActionEffect)
    ensures
        e.view() == translate_spec(nodes_view(nodes@), source@, *target, *m),
{
    let f = str_or_empty(&target.function_name);
    match resolve_callable_topology(nodes, f) {
        None => warning_only(
            concat3("Target '", f, "' missing. Epistemological translation aborted."),
        ),
        Some(_) => {
            let mut e = empty_effect();
            match &m.generate_interface {
                Some(props) => {
                    let src = chars_of(source);
                    let ty = chars_of(str_or_empty(&m.enforce_explicit_type));
                    if !contains(&src, &ty) {
                        let name = match &m.enforce_explicit_type {
                            Some(t) => t.as_str(),
                            None => "DynamicInterface",
                        };
                        let iface = interface_chars(name, props);
                        e.edits.push((0, 0, string_of(&iface)));
                    }
                },
                None => {},
            }
            if m.enforce_explicit_type.is_some() {
                e.warnings.push(
                    "Type injection (enforce_explicit_type) uses naive matching. AST surgery on parameters is complex.".to_string(),
                );
            }
            proof {
                reveal_strlit("DynamicInterface");
            }
            assert(e.view().edits =~= translate_spec(
                nodes_view(nodes@),
                source@,
                *target,
                *m,
            ).edits);
            assert(e.view().warnings =~= translate_spec(
                nodes_view(nodes@),
                source@,
                *target,
                *m,
            ).warnings);
            e
        },
    }
}

/// Law: once `TRANSLATE_DIALECT` has found its function and produced its
/// edits for an explicit type, running it again on the edited text adds no
/// second interface, whatever syntax tree the new text has.
pub proof fn law_interface_generated_once(
    nodes: Seq<SyntaxNodeView>,
    later_nodes: Seq<SyntaxNodeView>,
    source: Seq<char>,
    target: ActionTarget,
    m: ActionMutations,
)
    requires
        m.enforce_explicit_type is Some,
        resolved_callable(nodes, text_or_empty(target.function_name)) is Some,
    ensures
        translate_spec(
            later_nodes,
            edited(source, translate_spec(nodes, source, target, m).edits),
            target,
            m,
        ).edits.len() == 0,
{
    let t = m.enforce_explicit_type->0@;
    let first = translate_spec(nodes, source, target, m);
    let after = edited(source, first.edits);
    if first.edits.len() == 0 {
        law_empty_and_front_insertion(source, Seq::empty());
        assert(first.edits =~= Seq::<TextEdit>::empty());
        if m.generate_interface is Some {
            assert(contains_text(source, t));
        }
    } else {
        let props = strings_view(m.generate_interface->0@);
        let iface = interface_text(t, props);
        assert(first.edits =~= seq![(0usize, 0usize, iface)]);
        law_empty_and_front_insertion(source, iface);
        assert(after == iface + source);
        reveal_strlit("\ninterface ");
        let k = "\ninterface "@.len() as int;
        assert((iface + source).subrange(k, k + t.len()) =~= t);
        assert(occurs_at(after, t, k));
        assert(contains_text(after, t));
    }
}

/// Law: when the function is not found, `TRANSLATE_DIALECT` changes nothing:
/// no edits, no errors, no read, and its only message is the warning that
/// names the missing function.
pub proof fn law_translate_needs_the_function(
    nodes: Seq<SyntaxNodeView>,
    source: Seq<char>,
    target: ActionTarget,
    m: ActionMutations,
)
    requires
        resolved_callable(nodes, text_or_empty(target.function_name)) is None,
    ensures
        translate_spec(nodes, source, target, m).edits.len() == 0,
        translate_spec(nodes, source, target, m).errors.len() == 0,
        translate_spec(nodes, source, target, m).entry is None,
        !translate_spec(nodes, source, target, m).read_action,
        translate_spec(nodes, source, target, m).warnings == seq![
            "Target '"@ + text_or_empty(target.function_name)
                + "' missing. Epistemological translation aborted."@,
        ],
{
}

// ---------------------------------------------------------------------------
// RESTRUCTURE_TOPOLOGY
// ---------------------------------------------------------------------------
/// A lower-cased kind that may stand for a use of a dependency.
pub open spec fn is_dependency_kind(k: Seq<char>) -> bool {
    contains_text(k, "new"@) || contains_text(k, "instantiation"@) || contains_text(k, "call"@)
        || contains_text(k, "identifier"@)
}

/// The edit replacing a node that uses the dependency by the parameter.
pub open spec fn dependency_edit(n: SyntaxNodeView, dep: Seq<char>, param: Seq<char>) -> Option<
    TextEdit,
> {
    if is_dependency_kind(lowercase(n.kind)) && contains_text(n.text, dep) {
        Some((n.start, n.end, param))
    } else {
        None
    }
}

/// `dependency_edit` as a function of the node.
pub open spec fn dependency_edit_fn(dep: Seq<char>, param: Seq<char>) -> spec_fn(
    SyntaxNodeView,
) -> Option<TextEdit> {
    |n: SyntaxNodeView| dependency_edit(n, dep, param)
}

/// The nodes of the subtree rooted at node `i`, in pre-order.
pub open spec fn subtree(nodes: Seq<SyntaxNodeView>, i: int) -> Seq<SyntaxNodeView> {
    nodes.subrange(i, subtree_end(nodes, i))
}

/// `RESTRUCTURE_TOPOLOGY`: within the function found (the node itself and
/// its descendants), every node whose kind may be a use and whose text
/// contains the dependency is replaced by the parameter name.
pub open spec fn restructure_spec(
    nodes: Seq<SyntaxNodeView>,
    target: ActionTarget,
    m: ActionMutations,
) -> EffectView {
    let f = text_or_empty(target.function_name);
    let dep = text_or_empty(target.hardcoded_dependency);
    let param = text_or_empty(m.extract_to_parameter);
    match resolved_callable(nodes, f) {
        None => no_effect(),
        Some(i) => EffectView {
            edits: subtree(nodes, i).filter_map(dependency_edit_fn(dep, param)),
            ..no_effect()
        },
    }
}

/// The outcome of `RESTRUCTURE_TOPOLOGY`.
pub fn restructure_topology(nodes: &Vec<SyntaxNode>, target: &ActionTarget, m: &ActionMutations) -> (e:
    ActionEffect)
    ensures
        e.view() == restructure_spec(nodes_view(nodes@), *target, *m),
{
    let ghost nv = nodes_view(nodes@);
    let f = str_or_empty(&target.function_name);
    let dep = str_or_empty(&target.hardcoded_dependency);
    let param = str_or_empty(&m.extract_to_parameter);
    let mut e = empty_effect();
    match resolve_callable_topology(nodes, f) {
        None => e,
        Some(root) => {
            proof {
                crate::helpers::lemma_resolved_in_range(nv, f@);
            }
            let end = subtree_end_index(nodes, root);
            let ghost sub = subtree(nv, root as int);
            let ghost g = dependency_edit_fn(dep@, param@);
            let dep_chars = chars_of(dep);
            let mut k: usize = root;
            while k < end
                invariant
                    root <= k <= end <= nodes@.len(),
                    nv == nodes_view(nodes@),
                    end == subtree_end(nv, root as int),
                    sub == nv.subrange(root as int, end as int),
                    dep_chars@ == dep@,
                    g == dependency_edit_fn(dep@, param@),
                    e.view() == (EffectView {
                        edits: sub.take(k - root).filter_map(g),
                        ..no_effect()
                    }),
                decreases end - k,
            {
                let node = &nodes[k];
                assert(sub[k - root] == node.view());
                proof {
                    sub.lemma_filter_map_take_succ(g, k - root);
                }
                let ghost prev = e.edits@;
                let low = lowered(node.kind.as_str());
                let is_use = has_word(&low, "new") || has_word(&low, "instantiation") || has_word(
                    &low,
                    "call",
                ) || has_word(&low, "identifier");
                let text = chars_of(node.text.as_str());
                if is_use && contains(&text, &dep_chars) {
                    e.edits.push((node.start, node.end, param.to_string()));
                }
                assert(edits_view(e.edits@) =~= edits_view(prev) + (match g(sub[k - root]) {
                    Some(s) => seq![s],
                    None => Seq::empty(),
                }));
                assert(sub.take(k + 1 - root) == sub.take((k - root) + 1));
                k = k + 1;
            }
            assert(sub.take(k - root) =~= sub);
            e
        },
    }
}

/// Every element of a `filter_map` is what the function gives for some element.
proof fn lemma_filter_map_source(s: Seq<SyntaxNodeView>, f: spec_fn(SyntaxNodeView) -> Option<TextEdit>)
    ensures
        forall|q: int|
            0 <= q < s.filter_map(f).len() ==> exists|k: int|
                0 <= k < s.len() && f(s[k]) == Some(#[trigger] s.filter_map(f)[q]),
    decreases s.len(),
{
    if s.len() > 0 {
        let rest = s.drop_last();
        lemma_filter_map_source(rest, f);
        assert forall|q: int| 0 <= q < s.filter_map(f).len() implies exists|k: int|
            0 <= k < s.len() && f(s[k]) == Some(#[trigger] s.filter_map(f)[q]) by {
            if q < rest.filter_map(f).len() {
                assert(s.filter_map(f)[q] == rest.filter_map(f)[q]);
                let k = choose|k: int|
                    0 <= k < rest.len() && f(rest[k]) == Some(#[trigger] rest.filter_map(f)[q]);
                assert(s[k] == rest[k]);
            } else {
                assert(f(s[s.len() - 1]) == Some(s.filter_map(f)[q]));
            }
        }
    }
}

/// Law: in the node list of any parse (`tree_shaped`), every edit
/// `RESTRUCTURE_TOPOLOGY` yields lies within the byte range of the function
/// found, and it yields none when no function is found: uses of the
/// dependency elsewhere are left alone.
pub proof fn law_restructure_stays_in_function(
    nodes: Seq<SyntaxNodeView>,
    target: ActionTarget,
    m: ActionMutations,
)
    requires
        tree_shaped(nodes),
    ensures
        match resolved_callable(nodes, text_or_empty(target.function_name)) {
            Some(i) => forall|q: int|
                0 <= q < restructure_spec(nodes, target, m).edits.len() ==> nodes[i].start
                    <= #[trigger] restructure_spec(nodes, target, m).edits[q].0
                    && restructure_spec(nodes, target, m).edits[q].1 <= nodes[i].end,
            None => restructure_spec(nodes, target, m).edits.len() == 0,
        },
{
    let f = text_or_empty(target.function_name);
    crate::helpers::lemma_resolved_in_range(nodes, f);
    if let Some(i) = resolved_callable(nodes, f) {
        let dep = text_or_empty(target.hardcoded_dependency);
        let param = text_or_empty(m.extract_to_parameter);
        let g = dependency_edit_fn(dep, param);
        let sub = subtree(nodes, i);
        lemma_subtree_end_bounds(nodes, i);
        let edits = sub.filter_map(g);
        assert(restructure_spec(nodes, target, m).edits == edits);
        lemma_filter_map_source(sub, g);
        assert forall|q: int| 0 <= q < edits.len() implies nodes[i].start <= #[trigger] edits[q].0
            && edits[q].1 <= nodes[i].end by {
            let k = choose|k: int| 0 <= k < sub.len() && g(sub[k]) == Some(#[trigger] edits[q]);
            assert(sub[k] == nodes[i + k]);
            lemma_subtree_within_range(nodes, i, i + k);
        }
    }
}

// ---------------------------------------------------------------------------
// MANAGE_IMPORT
// ---------------------------------------------------------------------------
/// A lower-cased kind that may be an import or declaration.
pub open spec fn is_import_kind(k: Seq<char>) -> bool {
    contains_text(k, "import"@) || contains_text(k, "declaration"@) || contains_text(k, "use"@)
}

/// The edit renaming the imported name within an import-like node.
pub open spec fn import_replace_edit(n: SyntaxNodeView, named: Seq<char>, with: Seq<char>) -> Option<
    TextEdit,
> {
    if is_import_kind(lowercase(n.kind)) && contains_text(n.text, named) {
        Some((n.start, n.end, replace_all(n.text, named, with)))
    } else {
        None
    }
}

/// `import_replace_edit` as a function of the node.
pub open spec fn import_replace_fn(named: Seq<char>, with: Seq<char>) -> spec_fn(
    SyntaxNodeView,
) -> Option<TextEdit> {
    |n: SyntaxNodeView| import_replace_edit(n, named, with)
}

/// An import or declaration node whose text mentions the module.
pub open spec fn is_module_import(n: SyntaxNodeView, module: Seq<char>) -> bool {
    (contains_text(lowercase(n.kind), "import"@) || contains_text(lowercase(n.kind), "declaration"@))
        && contains_text(n.text, module)
}

/// The first node from position `k` on that imports from the module.
pub open spec fn module_import_from(nodes: Seq<SyntaxNodeView>, module: Seq<char>, k: int) -> Option<
    int,
>
    decreases nodes.len() - k,
{
    if k < 0 || k >= nodes.len() {
        None
    } else if is_module_import(nodes[k], module) {
        Some(k)
    } else {
        module_import_from(nodes, module, k + 1)
    }
}

/// The import statement added when no node imports from the module.
pub open spec fn import_statement(ensure: Seq<char>, module: Seq<char>, type_only: bool) -> Seq<char> {
    "import "@ + (if type_only {
        "type "@
    } else {
        Seq::<char>::empty()
    }) + " { "@ + ensure + " } from '"@ + module + "';\n"@
}

/// Edits making sure `ensure` is imported from the module: added before the
/// last `}` of the first import from the module when that import does not
/// mention it; a new import statement at the start when none imports from
/// the module.
pub open spec fn ensure_import_edits(
    nodes: Seq<SyntaxNodeView>,
    ensure: Seq<char>,
    module: Seq<char>,
    type_only: bool,
) -> Seq<TextEdit> {
    match module_import_from(nodes, module, 0) {
        Some(i) => {
            let t = nodes[i].text;
            if contains_text(t, ensure) {
                Seq::empty()
            } else {
                match t.index_of_last('}') {
                    Some(b) => seq![(nodes[i].start, nodes[i].end, t.take(b) + ", "@ + ensure + t.skip(b))],
                    None => Seq::empty(),
                }
            }
        },
        None => seq![(0usize, 0usize, import_statement(ensure, module, type_only))],
    }
}

/// Law: when no node imports from the module, making sure a name is
/// imported adds exactly one statement, at the very start of the text:
/// `import  { name } from 'module';` followed by a newline, with `type `
/// after `import ` exactly when the import is type-only.
pub proof fn law_new_import_statement(
    nodes: Seq<SyntaxNodeView>,
    name: Seq<char>,
    module: Seq<char>,
    type_only: bool,
)
    requires
        forall|i: int| 0 <= i < nodes.len() ==> !is_module_import(#[trigger] nodes[i], module),
    ensures
        ensure_import_edits(nodes, name, module, type_only) == seq![
            (
                0usize,
                0usize,
                if type_only {
                    "import type  { "@ + name + " } from '"@ + module + "';\n"@
                } else {
                    "import  { "@ + name + " } from '"@ + module + "';\n"@
                },
            ),
        ],
        "import type "@.is_prefix_of(ensure_import_edits(nodes, name, module, type_only)[0].2)
            <==> type_only,
{
    lemma_no_module_import(nodes, module, 0);
    reveal_strlit("import ");
    reveal_strlit("type ");
    reveal_strlit(" { ");
    reveal_strlit("import type  { ");
    reveal_strlit("import  { ");
    reveal_strlit("import type ");
    let t = ensure_import_edits(nodes, name, module, type_only)[0].2;
    if type_only {
        assert("import "@ + "type "@ + " { "@ =~= "import type  { "@);
        assert(t =~= "import type  { "@ + name + " } from '"@ + module + "';\n"@);
        assert(t.take(12) =~= "import type "@);
    } else {
        assert("import "@ + Seq::<char>::empty() + " { "@ =~= "import  { "@);
        assert(t =~= "import  { "@ + name + " } from '"@ + module + "';\n"@);
        assert(t[7] == ' ');
        assert("import type "@[7] == 't');
    }
}

proof fn lemma_no_module_import(nodes: Seq<SyntaxNodeView>, module: Seq<char>, k: int)
    requires
        0 <= k,
        forall|i: int| 0 <= i < nodes.len() ==> !is_module_import(#[trigger] nodes[i], module),
    ensures
        module_import_from(nodes, module, k) is None,
    decreases nodes.len() - k,
{
    if k < nodes.len() {
        assert(!is_module_import(nodes[k], module));
        lemma_no_module_import(nodes, module, k + 1);
    }
}

/// `MANAGE_IMPORT`: with a replacement, every import-like node mentioning the
/// named import has each occurrence replaced; with a name to ensure and a
/// module, `ensure_import_edits`.
pub open spec fn manage_import_spec(
    nodes: Seq<SyntaxNodeView>,
    target: ActionTarget,
    m: ActionMutations,
) -> EffectView {
    let named = text_or_empty(target.named_import);
    let replaced = match m.replace_with {
        Some(w) => nodes.filter_map(import_replace_fn(named, w@)),
        None => Seq::empty(),
    };
    let ensured = match m.ensure_import {
        Some(en) => match m.module_specifier {
            Some(ms) => ensure_import_edits(
                nodes,
                en@,
                ms@,
                match m.is_type_only {
                    Some(b) => b,
                    None => false,
                },
            ),
            None => Seq::empty(),
        },
        None => Seq::empty(),
    };
    EffectView { edits: replaced + ensured, ..no_effect() }
}

/// The replacement edits of `MANAGE_IMPORT`.
fn import_replace_edits(nodes: &Vec<SyntaxNode>, named: &str, with: &str) -> (out: Vec<Edit>)
    ensures
        edits_view(out@) == nodes_view(nodes@).filter_map(import_replace_fn(named@, with@)),
{
    let ghost nv = nodes_view(nodes@);
    let ghost g = import_replace_fn(named@, with@);
    let named_chars = chars_of(named);
    let with_chars = chars_of(with);
    let mut out: Vec<Edit> = Vec::new();
    let mut i: usize = 0;
    while i < nodes.len()
        invariant
            i <= nodes@.len(),
            nv == nodes_view(nodes@),
            named_chars@ == named@,
            with_chars@ == with@,
            g == import_replace_fn(named@, with@),
            edits_view(out@) == nv.take(i as int).filter_map(g),
        decreases nodes@.len() - i,
    {
        let node = &nodes[i];
        assert(nv[i as int] == node.view());
        proof {
            nv.lemma_filter_map_take_succ(g, i as int);
        }
        let ghost prev = out@;
        let low = lowered(node.kind.as_str());
        let is_import = has_word(&low, "import") || has_word(&low, "declaration") || has_word(
            &low,
            "use",
        );
        let text = chars_of(node.text.as_str());
        if is_import && contains(&text, &named_chars) {
            let replaced = replace_text(&text, &named_chars, &with_chars);
            out.push((node.start, node.end, string_of(&replaced)));
        }
        assert(edits_view(out@) =~= edits_view(prev) + (match g(nv[i as int]) {
            Some(s) => seq![s],
            None => Seq::empty(),
        }));
        i = i + 1;
    }
    assert(nv.take(i as int) =~= nv);
    out
}

/// The edits of `ensure_import_edits`.
fn ensure_import_edit_list(nodes: &Vec<SyntaxNode>, ensure: &str, module: &str, type_only: bool) -> (out:
    Vec<Edit>)
    ensures
        edits_view(out@) == ensure_import_edits(nodes_view(nodes@), ensure@, module@, type_only),
{
    let ghost nv = nodes_view(nodes@);
    let module_chars = chars_of(module);
    let ensure_chars = chars_of(ensure);
    let mut out: Vec<Edit> = Vec::new();
    let mut i: usize = 0;
    while i < nodes.len()
        invariant
            i <= nodes@.len(),
            nv == nodes_view(nodes@),
            module_chars@ == module@,
            ensure_chars@ == ensure@,
            out@.len() == 0,
            module_import_from(nv, module@, 0) == module_import_from(nv, module@, i as int),
        decreases nodes@.len() - i,
    {
        let node = &nodes[i];
        assert(nv[i as int] == node.view());
        let low = lowered(node.kind.as_str());
        let is_decl = has_word(&low, "import") || has_word(&low, "declaration");
        let text = chars_of(node.text.as_str());
        if is_decl && contains(&text, &module_chars) {
            if !contains(&text, &ensure_chars) {
                match rfind_char(&text, '}') {
                    Some(b) => {
                        proof {
                            text@.index_of_last_ensures('}');
                        }
                        let mut new_text = sub_chars(&text, 0, b);
                        extend_chars(&mut new_text, &chars_of(", "));
                        extend_chars(&mut new_text, &ensure_chars);
                        let tail = sub_chars(&text, b, text.len());
                        extend_chars(&mut new_text, &tail);
                        out.push((node.start, node.end, string_of(&new_text)));
                        assert(edits_view(out@) =~= ensure_import_edits(
                            nv,
                            ensure@,
                            module@,
                            type_only,
                        ));
                    },
                    None => {},
                }
            }
            assert(edits_view(out@) =~= ensure_import_edits(nv, ensure@, module@, type_only));
            return out;
        }
        i = i + 1;
    }
    let stmt = if type_only {
        concat3("import ", "type ", " { ")
    } else {
        concat3("import ", "", " { ")
    };
    proof {
        reveal_strlit("");
    }
    let mut text = chars_of(stmt.as_str());
    extend_chars(&mut text, &ensure_chars);
    extend_chars(&mut text, &chars_of(" } from '"));
    extend_chars(&mut text, &module_chars);
    extend_chars(&mut text, &chars_of("';\n"));
    out.push((0, 0, string_of(&text)));
    assert(edits_view(out@) =~= ensure_import_edits(nv, ensure@, module@, type_only));
    out
}

/// The outcome of `MANAGE_IMPORT`.
pub fn manage_import(nodes: &Vec<SyntaxNode>, target: &ActionTarget, m: &ActionMutations) -> (e:
    ActionEffect)
    ensures
        e.view() == manage_import_spec(nodes_view(nodes@), *target, *m),
{
    let named = str_or_empty(&target.named_import);
    let mut e = empty_effect();
    let mut replaced = match &m.replace_with {
        Some(w) => import_replace_edits(nodes, named, w.as_str()),
        None => Vec::new(),
    };
    let mut ensured = match &m.ensure_import {
        Some(en) => match &m.module_specifier {
            Some(ms) => {
                let type_only = match m.is_type_only {
                    Some(b) => b,
                    None => false,
                };
                ensure_import_edit_list(nodes, en.as_str(), ms.as_str(), type_only)
            },
            None => Vec::new(),
        },
        None => Vec::new(),
    };
    let ghost r0 = edits_view(replaced@);
    let ghost e0 = edits_view(ensured@);
    replaced.append(&mut ensured);
    assert(edits_view(replaced@) =~= r0 + e0);
    e.edits = replaced;
    assert(e.view().edits =~= manage_import_spec(nodes_view(nodes@), *target, *m).edits);
    e
}

// ---------------------------------------------------------------------------
// READ_TOPOLOGY
// ---------------------------------------------------------------------------
/// The recipes as records with a name and a description.
pub open spec fn recipe_records(rs: Seq<(Seq<char>, Seq<char>)>) -> Seq<
    Seq<(Seq<char>, Seq<char>)>,
> {
    rs.map_values(
        |r: (Seq<char>, Seq<char>)| seq![("name"@, r.0), ("description"@, r.1)],
    )
}

/// The texts with later repetitions of a text left out.
pub open spec fn dedup(s: Seq<Seq<char>>) -> Seq<Seq<char>>
    decreases s.len(),
{
    if s.len() == 0 {
        s
    } else {
        let d = dedup(s.drop_last());
        if d.contains(s.last()) {
            d
        } else {
            d.push(s.last())
        }
    }
}

/// The text of a leaf whose kind contains `identifier`.
pub open spec fn identifier_leaf(n: SyntaxNodeView) -> Option<Seq<char>> {
    if n.leaf && contains_text(n.kind, "identifier"@) {
        Some(n.text)
    } else {
        None
    }
}

/// `identifier_leaf` as a function of the node.
pub open spec fn identifier_leaf_fn() -> spec_fn(SyntaxNodeView) -> Option<Seq<char>> {
    |n: SyntaxNodeView| identifier_leaf(n)
}

/// The distinct identifier texts of a list of nodes, in order of first use.
pub open spec fn dependency_names(nodes: Seq<SyntaxNodeView>) -> Seq<Seq<char>> {
    dedup(nodes.filter_map(identifier_leaf_fn()))
}

/// The warning for a node that cannot be found.
pub open spec fn node_missing_warning(name: Seq<char>) -> Seq<char> {
    "Diagnostic failed: Node '"@ + name + "' not found in spatial topology."@
}

/// `READ_TOPOLOGY`: marks the run as a read.  With an extraction command:
/// `SYSTEM`/`AVAILABLE_RECIPES` lists the recipes; otherwise the node is
/// looked up as a callable, and `FULL_NODE` reports its text, `SIGNATURE` its
/// first line, `DEPENDENCIES` the distinct identifiers in it; another command
/// or a node not found gives a warning.
pub open spec fn read_spec(
    nodes: Seq<SyntaxNodeView>,
    target: ActionTarget,
    m: ActionMutations,
    reg: Seq<(Seq<char>, Seq<char>)>,
) -> EffectView {
    let name = text_or_empty(target.node_name);
    let base = EffectView { read_action: true, ..no_effect() };
    match m.extract {
        None => base,
        Some(c) => {
            let cmd = c@;
            if name == "SYSTEM"@ && cmd == "AVAILABLE_RECIPES"@ {
                EffectView {
                    entry: Some(("AVAILABLE_RECIPES"@, ReadValueView::Records(recipe_records(reg)))),
                    ..base
                }
            } else {
                match resolved_callable(nodes, name) {
                    None => EffectView { warnings: seq![node_missing_warning(name)], ..base },
                    Some(i) => if cmd == "FULL_NODE"@ {
                        EffectView { entry: Some((name, ReadValueView::Text(nodes[i].text))), ..base }
                    } else if cmd == "SIGNATURE"@ {
                        EffectView {
                            entry: Some(
                                (
                                    name,
                                    ReadValueView::Fields(
                                        seq![("signature"@, first_line(nodes[i].text))],
                                    ),
                                ),
                            ),
                            ..base
                        }
                    } else if cmd == "DEPENDENCIES"@ {
                        EffectView {
                            entry: Some(
                                (name, ReadValueView::Texts(dependency_names(subtree(nodes, i)))),
                            ),
                            ..base
                        }
                    } else {
                        EffectView {
                            warnings: seq!["Unknown extraction command: "@ + cmd],
                            ..base
                        }
                    },
                }
            }
        },
    }
}

/// The recipes as name/description records.
fn recipe_record_list(registry: &RecipeRegistry) -> (out: Vec<Vec<(String, String)>>)
    ensures
        out@.map_values(|r: Vec<(String, String)>| pairs_view(r@)) == recipe_records(
            registry.view(),
        ),
{
    let list = registry.list();
    let ghost rv = recipe_views(list@);
    let mut out: Vec<Vec<(String, String)>> = Vec::new();
    let mut i: usize = 0;
    while i < list.len()
        invariant
            i <= list@.len(),
            rv == recipe_views(list@),
            rv == registry.view(),
            out@.len() == i,
            forall|j: int|
                0 <= j < i ==> #[trigger] pairs_view(out@[j]@) == recipe_records(rv)[j],
        decreases list@.len() - i,
    {
        let r = &list[i];
        let mut rec: Vec<(String, String)> = Vec::new();
        rec.push(("name".to_string(), r.name.clone()));
        rec.push(("description".to_string(), r.description.clone()));
        assert(rv[i as int] == r.view());
        assert(pairs_view(rec@) =~= recipe_records(rv)[i as int]);
        out.push(rec);
        i = i + 1;
    }
    assert(out@.map_values(|r: Vec<(String, String)>| pairs_view(r@)) =~= recipe_records(rv));
    out
}

/// The distinct identifier texts among the nodes `from..to`, in order.
fn dependency_name_list(nodes: &Vec<SyntaxNode>, from: usize, to: usize) -> (out: Vec<String>)
    requires
        from <= to <= nodes@.len(),
    ensures
        strings_view(out@) == dependency_names(nodes_view(nodes@).subrange(from as int, to as int)),
{
    let ghost sub = nodes_view(nodes@).subrange(from as int, to as int);
    let ghost g = identifier_leaf_fn();
    let ident = chars_of("identifier");
    let mut out: Vec<String> = Vec::new();
    let mut k: usize = from;
    while k < to
        invariant
            from <= k <= to <= nodes@.len(),
            sub == nodes_view(nodes@).subrange(from as int, to as int),
            g == identifier_leaf_fn(),
            ident@ == "identifier"@,
            strings_view(out@) == dedup(sub.take(k - from).filter_map(g)),
        decreases to - k,
    {
        let node = &nodes[k];
        assert(sub[k - from] == node.view());
        proof {
            sub.lemma_filter_map_take_succ(g, k - from);
        }
        let ghost before = strings_view(out@);
        let kind = chars_of(node.kind.as_str());
        if node.leaf && contains(&kind, &ident) {
            let t = node.text.clone();
            let mut seen = false;
            let mut j: usize = 0;
            while j < out.len()
                invariant
                    j <= out@.len(),
                    t@ == node.text@,
                    before == strings_view(out@),
                    seen == exists|q: int| 0 <= q < j && before[q] == t@,
                decreases out@.len() - j,
            {
                assert(before[j as int] == out@[j as int]@);
                if out[j] == t {
                    seen = true;
                }
                j = j + 1;
            }
            let ghost seq_before = sub.take(k - from).filter_map(g);
            let ghost seq_after = sub.take(k + 1 - from).filter_map(g);
            assert(sub.take(k + 1 - from) == sub.take((k - from) + 1));
            assert(seq_after == seq_before + seq![t@]);
            assert(seq_after.drop_last() =~= seq_before);
            assert(seq_after.last() == t@);
            if !seen {
                out.push(t);
                assert(strings_view(out@) =~= before.push(node.text@));
            } else {
                assert(before.contains(t@));
            }
        } else {
            assert(sub.take(k + 1 - from) == sub.take((k - from) + 1));
        }
        k = k + 1;
    }
    assert(sub.take(k - from) =~= sub);
    out
}

/// The outcome of `READ_TOPOLOGY`.
pub fn read_topology(
    nodes: &Vec<SyntaxNode>,
    target: &ActionTarget,
    m: &ActionMutations,
    registry: &RecipeRegistry,
) -> (e: ActionEffect)
    ensures
        e.view() == read_spec(nodes_view(nodes@), *target, *m, registry.view()),
{
    let ghost nv = nodes_view(nodes@);
    let name = str_or_empty(&target.node_name);
    let mut e = empty_effect();
    e.read_action = true;
    match &m.extract {
        None => e,
        Some(cmd) => {
            let name_chars = chars_of(name);
            let cmd_chars = chars_of(cmd.as_str());
            if same_text(&name_chars, &chars_of("SYSTEM")) && same_text(
                &cmd_chars,
                &chars_of("AVAILABLE_RECIPES"),
            ) {
                let records = recipe_record_list(registry);
                e.entry = Some(("AVAILABLE_RECIPES".to_string(), ReadValue::Records(records)));
                return e;
            }
            match resolve_callable_topology(nodes, name) {
                None => {
                    e.warnings.push(
                        concat3("Diagnostic failed: Node '", name, "' not found in spatial topology."),
                    );
                    assert(e.view().warnings =~= seq![node_missing_warning(name@)]);
                    e
                },
                Some(i) => {
                    proof {
                        crate::helpers::lemma_resolved_in_range(nv, name@);
                    }
                    assert(nv[i as int] == nodes@[i as int].view());
                    if same_text(&cmd_chars, &chars_of("FULL_NODE")) {
                        e.entry = Some((name.to_string(), ReadValue::Text(nodes[i].text.clone())));
                    } else if same_text(&cmd_chars, &chars_of("SIGNATURE")) {
                        let text = chars_of(nodes[i].text.as_str());
                        let line = first_line_of(&text);
                        let mut fields: Vec<(String, String)> = Vec::new();
                        fields.push(("signature".to_string(), string_of(&line)));
                        assert(pairs_view(fields@) =~= seq![("signature"@, first_line(nv[i as int].text))]);
                        e.entry = Some((name.to_string(), ReadValue::Fields(fields)));
                    } else if same_text(&cmd_chars, &chars_of("DEPENDENCIES")) {
                        let end = subtree_end_index(nodes, i);
                        let deps = dependency_name_list(nodes, i, end);
                        e.entry = Some((name.to_string(), ReadValue::Texts(deps)));
                    } else {
                        e.warnings.push(concat3("Unknown extraction command: ", cmd.as_str(), ""));
                        proof {
                            reveal_strlit("");
                        }
                        assert(e.view().warnings =~= seq!["Unknown extraction command: "@ + cmd@]);
                    }
                    e
                },
            }
        },
    }
}

// ---------------------------------------------------------------------------
// EXECUTE_RECIPE and unsupported actions
// ---------------------------------------------------------------------------
/// `EXECUTE_RECIPE`: a warning saying whether the recipe exists; recipes
/// do nothing yet.
pub open spec fn recipe_spec(target: ActionTarget, reg: Seq<(Seq<char>, Seq<char>)>) -> EffectView {
    let name = text_or_empty(target.recipe_name);
    if recipe_named(reg, name) is Some {
        warning_effect("Boutique recipe '"@ + name + "' invoked but no-op in this engine version."@)
    } else {
        warning_effect("Boutique recipe '"@ + name + "' not found in registry."@)
    }
}

/// The outcome of `EXECUTE_RECIPE`.
pub fn execute_recipe(target: &ActionTarget, registry: &RecipeRegistry) -> (e: ActionEffect)
    ensures
        e.view() == recipe_spec(*target, registry.view()),
{
    let name = str_or_empty(&target.recipe_name);
    match registry.get(name) {
        Some(_) => warning_only(
            concat3("Boutique recipe '", name, "' invoked but no-op in this engine version."),
        ),
        None => warning_only(concat3("Boutique recipe '", name, "' not found in registry.")),
    }
}

/// The warning for an action the engine does not know.
pub open spec fn unsupported_warning() -> Seq<char> {
    "Unsupported action encountered."@
}

// ---------------------------------------------------------------------------
// Any action
// ---------------------------------------------------------------------------
/// The outcome of one action on a source text in a language, with the given
/// recipes: the action's own outcome over the text's syntax tree.  Nothing
/// when a call rewrite of `MUTATE_CALL` is undefined.
pub open spec fn action_effect_spec(
    intent: DialecticAction,
    source: Seq<char>,
    lang: SupportLang,
    reg: Seq<(Seq<char>, Seq<char>)>,
) -> Option<EffectView> {
    let nodes = syntax_tree(lang, source);
    match intent {
        DialecticAction::Unsupported => Some(warning_effect(unsupported_warning())),
        DialecticAction::MutateCall { target, mutations } => mutate_call_spec(
            nodes,
            target,
            mutations,
        ),
        DialecticAction::TranslateDialect { target, mutations } => Some(
            translate_spec(nodes, source, target, mutations),
        ),
        DialecticAction::RestructureTopology { target, mutations } => Some(
            restructure_spec(nodes, target, mutations),
        ),
        DialecticAction::ManageImport { target, mutations } => Some(
            manage_import_spec(nodes, target, mutations),
        ),
        DialecticAction::ReadTopology { target, mutations } => Some(
            read_spec(nodes, target, mutations, reg),
        ),
        DialecticAction::ExecuteRecipe { target, .. } => Some(recipe_spec(target, reg)),
    }
}

/// The outcome of one action on `source`, parsed as `lang`.
pub fn action_effect(
    intent: &DialecticAction,
    source: &String,
    lang: SupportLang,
    registry: &RecipeRegistry,
) -> (out: Option<ActionEffect>)
    ensures
        match out {
            Some(e) => action_effect_spec(*intent, source@, lang, registry.view()) == Some(e.view()),
            None => action_effect_spec(*intent, source@, lang, registry.view()) is None,
        },
{
    match intent {
        DialecticAction::Unsupported => Some(
            warning_only("Unsupported action encountered.".to_string()),
        ),
        DialecticAction::MutateCall { target, mutations } => {
            let nodes = parse_source(lang, source.as_str());
            mutate_call(&nodes, target, mutations)
        },
        DialecticAction::TranslateDialect { target, mutations } => {
            let nodes = parse_source(lang, source.as_str());
            Some(translate_dialect(&nodes, source.as_str(), target, mutations))
        },
        DialecticAction::RestructureTopology { target, mutations } => {
            let nodes = parse_source(lang, source.as_str());
            Some(restructure_topology(&nodes, target, mutations))
        },
        DialecticAction::ManageImport { target, mutations } => {
            let nodes = parse_source(lang, source.as_str());
            Some(manage_import(&nodes, target, mutations))
        },
        DialecticAction::ReadTopology { target, mutations } => {
            let nodes = parse_source(lang, source.as_str());
            Some(read_topology(&nodes, target, mutations, registry))
        },
        DialecticAction::ExecuteRecipe { target, .. } => Some(execute_recipe(target, registry)),
    }
}

} // verus!
