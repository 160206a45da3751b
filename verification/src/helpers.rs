//! Snippet rewriting: rendering argument values and rewriting call snippets.
use crate::models::{ArgValue, ArgValueView};
use crate::syntax::{
    SyntaxNode, SyntaxNodeView, lemma_parent_scan, lower, lowercase, nodes_view, parent_index,
    lemma_climb, parent_of, tree_shaped,
};
use crate::text::{
    chars_of, contains, contains_text, count_leading_ws, extend_chars, find_char, is_white_space,
    leading_ws, lemma_contains_trans, lemma_first_index, lemma_last_index, lemma_leading_ws_bound, lemma_leading_ws_is, replace_all, replace_text, rfind_char,
    starts_with, string_of, sub_chars, trim, trimmed,
};
pub use crate::edits::apply_edits;
use vstd::prelude::*;

verus! {

broadcast use vstd::string::group_string_axioms;

// ---------------------------------------------------------------------------
// Specifications
// ---------------------------------------------------------------------------
/// How an argument value is written into source: a string in double quotes
/// with each `"` escaped as `\"`; any other value as its JSON text.
pub open spec fn rendered(v: ArgValueView) -> Seq<char> {
    match v {
        ArgValueView::Text(s) => seq!['"'] + replace_all(s, seq!['"'], seq!['\\', '"']) + seq!['"'],
        ArgValueView::Encoded(j) => j,
    }
}

/// The meaning of optional named arguments.
pub type ArgsOpt = Option<Seq<(Seq<char>, ArgValueView)>>;

/// The meaning of a list of named arguments.
pub open spec fn args_view(args: Seq<(String, ArgValue)>) -> Seq<(Seq<char>, ArgValueView)> {
    args.map_values(|a: (String, ArgValue)| (a.0@, a.1.view()))
}

/// One named argument written as `name=value`.
pub open spec fn arg_text(a: (Seq<char>, ArgValueView)) -> Seq<char> {
    a.0 + seq!['='] + rendered(a.1)
}

/// The named arguments written one after another, separated by `", "`.
pub open spec fn joined_args(args: Seq<(Seq<char>, ArgValueView)>) -> Seq<char>
    decreases args.len(),
{
    if args.len() == 0 {
        Seq::empty()
    } else if args.len() == 1 {
        arg_text(args[0])
    } else {
        joined_args(args.drop_last()) + seq![',', ' '] + arg_text(args.last())
    }
}

/// `text` with the call name `target`, found after any leading white space,
/// replaced by `new_name`; `text` unchanged when it does not start so.
pub open spec fn with_rename(text: Seq<char>, target: Seq<char>, new_name: Seq<char>) -> Seq<char> {
    let ws = leading_ws(text) as int;
    if target.is_prefix_of(text.skip(ws)) {
        text.take(ws) + new_name + text.skip(ws + target.len())
    } else {
        text
    }
}

/// Position of the first `(` of `text`, or 0 when it has none.
pub open spec fn open_paren(text: Seq<char>) -> int {
    match text.index_of_first('(') {
        Some(i) => i,
        None => 0,
    }
}

/// The text between the first `(` and the last `)` is well delimited: the
/// last `)` (if any) lies after the first `(` (or, with no `(`, is not the
/// first character).
pub open spec fn parens_ordered(text: Seq<char>) -> bool {
    match text.index_of_last(')') {
        None => true,
        Some(close) => open_paren(text) + 1 <= close,
    }
}

/// `text` with the arguments added before its last `)`, after a `", "` when
/// the parentheses already hold something other than white space; `text`
/// unchanged when there are no arguments or no `)`.
pub open spec fn with_injection(text: Seq<char>, args: Seq<(Seq<char>, ArgValueView)>) -> Seq<
    char,
> {
    if args.len() == 0 {
        text
    } else {
        match text.index_of_last(')') {
            None => text,
            Some(close) => {
                let has_existing = trim(text.subrange(open_paren(text) + 1, close)).len() > 0;
                text.take(close) + (if has_existing {
                    seq![',', ' ']
                } else {
                    Seq::empty()
                }) + joined_args(args) + text.skip(close)
            },
        }
    }
}

/// The snippet after the optional rename.
pub open spec fn after_rename(snippet: Seq<char>, target: Seq<char>, rename: Option<Seq<char>>) -> Seq<
    char,
> {
    match rename {
        Some(n) => with_rename(snippet, target, n),
        None => snippet,
    }
}

/// The rewritten call snippet: renamed, then given the extra arguments.
pub open spec fn transformed(
    snippet: Seq<char>,
    target: Seq<char>,
    rename: Option<Seq<char>>,
    args: Option<Seq<(Seq<char>, ArgValueView)>>,
) -> Seq<char> {
    let r = after_rename(snippet, target, rename);
    match args {
        Some(a) => with_injection(r, a),
        None => r,
    }
}

/// Rewriting the snippet does not slice its argument list backwards.
pub open spec fn transform_defined(
    snippet: Seq<char>,
    target: Seq<char>,
    rename: Option<Seq<char>>,
    args: Option<Seq<(Seq<char>, ArgValueView)>>,
) -> bool {
    match args {
        Some(a) => a.len() == 0 || parens_ordered(after_rename(snippet, target, rename)),
        None => true,
    }
}

/// The meaning of an optional text.
pub open spec fn opt_view(o: Option<&str>) -> Option<Seq<char>> {
    match o {
        Some(s) => Some(s@),
        None => None,
    }
}

/// The meaning of optional named arguments.
pub open spec fn opt_args_view(o: Option<&Vec<(String, ArgValue)>>) -> Option<
    Seq<(Seq<char>, ArgValueView)>,
> {
    match o {
        Some(a) => Some(args_view(a@)),
        None => None,
    }
}

// ---------------------------------------------------------------------------
// Executable operations
// ---------------------------------------------------------------------------
/// Characters of a value as written into source.
fn rendered_chars(v: &ArgValue) -> (out: Vec<char>)
    ensures
        out@ == rendered(v.view()),
{
    match v {
        ArgValue::Text(s) => {
            let cs = chars_of(s.as_str());
            let quote: Vec<char> = vec!['"'];
            let escaped: Vec<char> = vec!['\\', '"'];
            assert(quote@ =~= seq!['"']);
            assert(escaped@ =~= seq!['\\', '"']);
            let body = replace_text(&cs, &quote, &escaped);
            let mut out: Vec<char> = vec!['"'];
            extend_chars(&mut out, &body);
            out.push('"');
            assert(out@ =~= rendered(v.view()));
            out
        },
        ArgValue::Encoded(j) => chars_of(j.as_str()),
    }
}

/// A value as written into source: a string quoted with its `"` escaped,
/// any other value as its JSON text.
pub fn render_value(v: &ArgValue) -> (out: String)
    ensures
        out@ == rendered(v.view()),
{
    let cs = rendered_chars(v);
    string_of(&cs)
}

/// The arguments written as `name=value` pairs separated by `", "`.
fn joined_arg_chars(args: &Vec<(String, ArgValue)>) -> (out: Vec<char>)
    ensures
        out@ == joined_args(args_view(args@)),
{
    let ghost av = args_view(args@);
    let mut out: Vec<char> = Vec::new();
    let mut i: usize = 0;
    while i < args.len()
        invariant
            i <= args@.len(),
            av == args_view(args@),
            out@ == joined_args(av.take(i as int)),
        decreases args@.len() - i,
    {
        let ghost prev = out@;
        assert(av.take(i + 1).drop_last() =~= av.take(i as int));
        assert(av.take(i + 1).last() == av[i as int]);
        if i > 0 {
            out.push(',');
            out.push(' ');
        }
        let key = chars_of(args[i].0.as_str());
        extend_chars(&mut out, &key);
        out.push('=');
        let val = rendered_chars(&args[i].1);
        extend_chars(&mut out, &val);
        assert(arg_text(av[i as int]) == key@ + seq!['='] + val@);
        if i > 0 {
            assert(out@ =~= prev + seq![',', ' '] + arg_text(av[i as int]));
        } else {
            assert(out@ =~= arg_text(av[i as int]));
        }
        i = i + 1;
    }
    assert(av.take(args@.len() as int) =~= av);
    out
}

/// The characters of `text` renamed as `with_rename` says.
fn renamed_chars(text: Vec<char>, target: &[char], new_name: &[char]) -> (out: Vec<char>)
    ensures
        out@ == with_rename(text@, target@, new_name@),
{
    let ws = count_leading_ws(&text);
    let rest = sub_chars(&text, ws, text.len());
    assert(rest@ == text@.skip(ws as int));
    if starts_with(&rest, target) {
        let mut out = sub_chars(&text, 0, ws);
        extend_chars(&mut out, new_name);
        let tail = sub_chars(&text, ws + target.len(), text.len());
        extend_chars(&mut out, &tail);
        assert(out@ =~= with_rename(text@, target@, new_name@));
        out
    } else {
        text
    }
}

/// The characters of `text` with the arguments added as `with_injection` says,
/// or nothing when `text`'s parentheses are out of order.
fn injected_chars(text: Vec<char>, args: &Vec<(String, ArgValue)>) -> (out: Option<Vec<char>>)
    ensures
        out is Some <==> (args@.len() == 0 || parens_ordered(text@)),
        out matches Some(o) ==> o@ == with_injection(text@, args_view(args@)),
{
    if args.len() == 0 {
        return Some(text);
    }
    match rfind_char(&text, ')') {
        None => Some(text),
        Some(close) => {
            proof {
                text@.index_of_last_ensures(')');
                text@.index_of_first_ensures('(');
            }
            let open = match find_char(&text, '(') {
                Some(o) => o,
                None => 0,
            };
            if open >= close {
                return None;
            }
            let inner = sub_chars(&text, open + 1, close);
            let inner_trimmed = trimmed(&inner);
            let mut out = sub_chars(&text, 0, close);
            if inner_trimmed.len() > 0 {
                out.push(',');
                out.push(' ');
            }
            let joined = joined_arg_chars(args);
            extend_chars(&mut out, &joined);
            let tail = sub_chars(&text, close, text.len());
            extend_chars(&mut out, &tail);
            assert(out@ =~= with_injection(text@, args_view(args@)));
            Some(out)
        },
    }
}

/// The snippet rewritten as `transformed` says, or nothing when the rewrite
/// would slice the argument list backwards.
pub fn transform_call_snippet_checked(
    snippet: &str,
    target_name: &str,
    rename: Option<&str>,
    inject_args: Option<&Vec<(String, ArgValue)>>,
) -> (out: Option<String>)
    ensures
        out is Some <==> transform_defined(
            snippet@,
            target_name@,
            opt_view(rename),
            opt_args_view(inject_args),
        ),
        out matches Some(o) ==> o@ == transformed(
            snippet@,
            target_name@,
            opt_view(rename),
            opt_args_view(inject_args),
        ),
{
    let mut out = chars_of(snippet);
    match rename {
        Some(new_name) => {
            let target = chars_of(target_name);
            let name = chars_of(new_name);
            out = renamed_chars(out, &target, &name);
        },
        None => {},
    }
    match inject_args {
        Some(args) => match injected_chars(out, args) {
            Some(o) => Some(string_of(&o)),
            None => None,
        },
        None => Some(string_of(&out)),
    }
}

/// Rewrites a call snippet: when `rename` is given and the snippet (after
/// leading white space) starts with `target_name`, that name is replaced;
/// when arguments are given, they are written as `name=value` before the last
/// `)`, after a `", "` if the parentheses already hold something.
pub fn transform_call_snippet(
    snippet: &str,
    target_name: &str,
    rename: Option<&str>,
    inject_args: Option<&Vec<(String, ArgValue)>>,
) -> (out: String)
    requires
        transform_defined(snippet@, target_name@, opt_view(rename), opt_args_view(inject_args)),
    ensures
        out@ == transformed(snippet@, target_name@, opt_view(rename), opt_args_view(inject_args)),
{
    match transform_call_snippet_checked(snippet, target_name, rename, inject_args) {
        Some(o) => o,
        None => String::new(),
    }
}

// ---------------------------------------------------------------------------
// Finding the callable that encloses a name
// ---------------------------------------------------------------------------
/// A (lower-cased) node kind that names a callable or a declaration.
pub open spec fn is_callable_kind(k: Seq<char>) -> bool {
    ||| contains_text(k, "function"@)
    ||| contains_text(k, "method"@)
    ||| contains_text(k, "class"@)
    ||| contains_text(k, "declaration"@)
    ||| contains_text(k, "definition"@)
}

/// The nearest proper ancestor of node `i` whose lower-cased kind names a
/// callable or a declaration.
pub open spec fn callable_ancestor(nodes: Seq<SyntaxNodeView>, i: int) -> Option<int>
    decreases i,
{
    if 0 <= i < nodes.len() {
        match parent_of(nodes, i) {
            Some(p) => if 0 <= p < i {
                if is_callable_kind(lowercase(nodes[p].kind)) {
                    Some(p)
                } else {
                    callable_ancestor(nodes, p)
                }
            } else {
                None
            },
            None => None,
        }
    } else {
        None
    }
}

/// Searching from node `k` on: the callable enclosing the first leaf whose
/// text is `target` and which has such an ancestor.
pub open spec fn resolve_from(nodes: Seq<SyntaxNodeView>, target: Seq<char>, k: int) -> Option<int>
    decreases nodes.len() - k,
{
    if k < 0 || k >= nodes.len() {
        None
    } else if nodes[k].leaf && nodes[k].text == target && callable_ancestor(nodes, k) is Some {
        callable_ancestor(nodes, k)
    } else {
        resolve_from(nodes, target, k + 1)
    }
}

/// The callable or declaration enclosing the first leaf whose text is
/// `target` (leaves with no such ancestor are passed over).
pub open spec fn resolved_callable(nodes: Seq<SyntaxNodeView>, target: Seq<char>) -> Option<int> {
    resolve_from(nodes, target, 0)
}

proof fn lemma_resolve_from_in_range(nodes: Seq<SyntaxNodeView>, target: Seq<char>, k: int)
    ensures
        resolve_from(nodes, target, k) matches Some(p) ==> 0 <= p < nodes.len(),
    decreases nodes.len() - k,
{
    if 0 <= k < nodes.len() {
        lemma_callable_ancestor_in_range(nodes, k);
        lemma_resolve_from_in_range(nodes, target, k + 1);
    }
}

proof fn lemma_callable_ancestor_in_range(nodes: Seq<SyntaxNodeView>, i: int)
    ensures
        callable_ancestor(nodes, i) matches Some(p) ==> 0 <= p < nodes.len(),
    decreases i,
{
    if 0 <= i < nodes.len() {
        if let Some(p) = parent_of(nodes, i) {
            if 0 <= p < i {
                lemma_callable_ancestor_in_range(nodes, p);
            }
        }
    }
}

/// The node found for a name is one of the nodes.
pub proof fn lemma_resolved_in_range(nodes: Seq<SyntaxNodeView>, target: Seq<char>)
    ensures
        resolved_callable(nodes, target) matches Some(p) ==> 0 <= p < nodes.len(),
{
    lemma_resolve_from_in_range(nodes, target, 0);
}

/// Whether a node kind, lower-cased, names a callable or a declaration.
fn callable_kind(kind: &str) -> (b: bool)
    ensures
        b == is_callable_kind(lowercase(kind@)),
{
    let low_s = lower(kind);
    let low = chars_of(low_s.as_str());
    contains(&low, &chars_of("function")) || contains(&low, &chars_of("method")) || contains(
        &low,
        &chars_of("class"),
    ) || contains(&low, &chars_of("declaration")) || contains(&low, &chars_of("definition"))
}

/// Position of the nearest proper ancestor of node `i` whose kind names a
/// callable or a declaration.
fn callable_ancestor_index(nodes: &Vec<SyntaxNode>, i: usize) -> (r: Option<usize>)
    requires
        i < nodes@.len(),
    ensures
        match r {
            Some(p) => callable_ancestor(nodes_view(nodes@), i as int) == Some(p as int),
            None => callable_ancestor(nodes_view(nodes@), i as int) is None,
        },
{
    let ghost nv = nodes_view(nodes@);
    let mut cur = i;
    loop
        invariant
            cur < nodes@.len(),
            nv == nodes_view(nodes@),
            callable_ancestor(nv, i as int) == callable_ancestor(nv, cur as int),
        decreases cur,
    {
        match parent_index(nodes, cur) {
            None => {
                return None;
            },
            Some(p) => {
                proof {
                    lemma_parent_scan(nv, nv[cur as int].depth as int, cur - 1);
                }
                assert(nv[p as int] == nodes@[p as int].view());
                if callable_kind(nodes[p].kind.as_str()) {
                    return Some(p);
                }
                cur = p;
            },
        }
    }
}

/// Position of the callable or declaration that encloses the first leaf whose
/// text is `target`; leaves with no such ancestor are passed over.
pub fn resolve_callable_topology(nodes: &Vec<SyntaxNode>, target: &str) -> (r: Option<usize>)
    ensures
        match r {
            Some(p) => resolved_callable(nodes_view(nodes@), target@) == Some(p as int),
            None => resolved_callable(nodes_view(nodes@), target@) is None,
        },
{
    let ghost nv = nodes_view(nodes@);
    let key = target.to_string();
    let mut k: usize = 0;
    while k < nodes.len()
        invariant
            k <= nodes@.len(),
            nv == nodes_view(nodes@),
            key@ == target@,
            resolved_callable(nv, target@) == resolve_from(nv, target@, k as int),
        decreases nodes@.len() - k,
    {
        assert(nv[k as int] == nodes@[k as int].view());
        if nodes[k].leaf && nodes[k].text == key {
            match callable_ancestor_index(nodes, k) {
                Some(p) => {
                    return Some(p);
                },
                None => {},
            }
        }
        k = k + 1;
    }
    None
}

// ---------------------------------------------------------------------------
// Laws
// ---------------------------------------------------------------------------
/// Law: a rewrite with no rename and no arguments (or an empty list of
/// them) leaves the snippet as it is, and so does a rename whose target does
/// not begin the snippet (after its leading white space).
pub proof fn law_transform_without_changes(
    snippet: Seq<char>,
    target: Seq<char>,
    new_name: Seq<char>,
)
    ensures
        transformed(snippet, target, None, None) == snippet,
        transformed(snippet, target, None, Some(Seq::empty())) == snippet,
        !target.is_prefix_of(snippet.skip(leading_ws(snippet) as int)) ==> transformed(
            snippet,
            target,
            Some(new_name),
            None,
        ) == snippet,
{
}

/// Law: renaming a call and renaming it back gives the original snippet,
/// when the new name is not empty and does not begin with white space.
pub proof fn law_rename_round_trip(snippet: Seq<char>, old_name: Seq<char>, new_name: Seq<char>)
    requires
        new_name.len() > 0,
        !is_white_space(new_name[0]),
        old_name.is_prefix_of(snippet.skip(leading_ws(snippet) as int)),
    ensures
        with_rename(with_rename(snippet, old_name, new_name), new_name, old_name) == snippet,
{
    let ws = leading_ws(snippet) as int;
    lemma_leading_ws_bound(snippet);
    let renamed = snippet.take(ws) + new_name + snippet.skip(ws + old_name.len());
    assert(with_rename(snippet, old_name, new_name) == renamed);
    assert forall|j: int| 0 <= j < ws implies is_white_space(#[trigger] renamed[j]) by {
        assert(renamed[j] == snippet[j]);
    }
    assert(renamed[ws] == new_name[0]);
    lemma_leading_ws_is(renamed, ws);
    assert(renamed.skip(ws).take(new_name.len() as int) =~= new_name);
    assert(new_name.is_prefix_of(renamed.skip(ws)));
    assert(renamed.take(ws) + old_name + renamed.skip(ws + new_name.len()) =~= snippet) by {
        assert(snippet.skip(ws).take(old_name.len() as int) =~= old_name);
        assert forall|j: int| 0 <= j < old_name.len() implies snippet[ws + j] == old_name[j] by {
            assert(snippet.skip(ws)[j] == snippet[ws + j]);
        }
    }
}

proof fn lemma_callable_ancestor_found(nodes: Seq<SyntaxNodeView>, i: int)
    ensures
        callable_ancestor(nodes, i) matches Some(p) ==> 0 <= p < i && is_callable_kind(
            lowercase(nodes[p].kind),
        ),
    decreases i,
{
    if 0 <= i < nodes.len() {
        if let Some(p) = parent_of(nodes, i) {
            if 0 <= p < i {
                lemma_callable_ancestor_found(nodes, p);
            }
        }
    }
}

proof fn lemma_resolve_from_found(nodes: Seq<SyntaxNodeView>, target: Seq<char>, k: int)
    ensures
        resolve_from(nodes, target, k) matches Some(p) ==> is_callable_kind(
            lowercase(nodes[p].kind),
        ) && exists|j: int|
            k <= j < nodes.len() && p < j && #[trigger] nodes[j].leaf && nodes[j].text == target,
    decreases nodes.len() - k,
{
    if 0 <= k < nodes.len() {
        lemma_callable_ancestor_found(nodes, k);
        lemma_resolve_from_found(nodes, target, k + 1);
        if nodes[k].leaf && nodes[k].text == target && callable_ancestor(nodes, k) is Some {
            assert(nodes[k].leaf);
        }
    }
}

/// Law: the node found for a name is a callable or declaration (by its
/// lower-cased kind) that comes before a leaf whose text is the name, and no
/// node is found when no leaf has that text.
pub proof fn law_resolved_node_is_enclosing_callable(nodes: Seq<SyntaxNodeView>, target: Seq<char>)
    ensures
        resolved_callable(nodes, target) matches Some(p) ==> is_callable_kind(
            lowercase(nodes[p].kind),
        ) && exists|j: int|
            0 <= j < nodes.len() && p < j && #[trigger] nodes[j].leaf && nodes[j].text == target,
        (forall|j: int| 0 <= j < nodes.len() ==> !(#[trigger] nodes[j].leaf && nodes[j].text == target))
            ==> resolved_callable(nodes, target) is None,
{
    lemma_resolve_from_found(nodes, target, 0);
}

/// Law: a rewrite is the rename followed by the injection of arguments into
/// the renamed snippet, and it is defined exactly when that injection is.
pub proof fn law_transform_is_rename_then_inject(
    snippet: Seq<char>,
    target: Seq<char>,
    rename: Option<Seq<char>>,
    args: Option<Seq<(Seq<char>, ArgValueView)>>,
)
    ensures
        transformed(snippet, target, rename, args) == transformed(
            transformed(snippet, target, rename, None),
            target,
            None,
            args,
        ),
        transform_defined(snippet, target, rename, args) == transform_defined(
            transformed(snippet, target, rename, None),
            target,
            None,
            args,
        ),
{
}

/// In a tree-shaped walk a parent is not a leaf, and a node's text lies
/// within its parent's.
proof fn lemma_parent_facts(nodes: Seq<SyntaxNodeView>, c: int)
    requires
        tree_shaped(nodes),
        0 <= c < nodes.len(),
    ensures
        parent_of(nodes, c) matches Some(p) ==> !nodes[p].leaf && contains_text(
            nodes[p].text,
            nodes[c].text,
        ),
{
    if let Some(p) = parent_of(nodes, c) {
        let d = nodes[c].depth as int;
        lemma_parent_scan(nodes, d, c - 1);
        assert(0 <= p < c);
        assert(parent_of(nodes, c) matches Some(q) ==> contains_text(nodes[q].text, nodes[c].text));
        if p + 1 < c {
            assert(nodes[p + 1].depth <= nodes[p].depth + 1);
            if nodes[p + 1].depth < d {
                lemma_climb(nodes, p + 1, c, d);
                let j = choose|j: int| p + 1 <= j < c && #[trigger] nodes[j].depth + 1 == d;
                assert(nodes[j].depth + 1 != d);
            }
        }
        assert(nodes[p + 1].depth == nodes[p].depth + 1);
        assert(nodes[p].leaf <==> !(p + 1 < nodes.len() && nodes[p + 1].depth == nodes[p].depth
            + 1));
    }
}

proof fn lemma_callable_ancestor_encloses(nodes: Seq<SyntaxNodeView>, i: int)
    requires
        tree_shaped(nodes),
    ensures
        callable_ancestor(nodes, i) matches Some(p) ==> !nodes[p].leaf && contains_text(
            nodes[p].text,
            nodes[i].text,
        ),
    decreases i,
{
    if 0 <= i < nodes.len() {
        if let Some(q) = parent_of(nodes, i) {
            if 0 <= q < i {
                lemma_parent_facts(nodes, i);
                lemma_callable_ancestor_encloses(nodes, q);
                if !is_callable_kind(lowercase(nodes[q].kind)) {
                    if let Some(p) = callable_ancestor(nodes, q) {
                        lemma_contains_trans(nodes[p].text, nodes[q].text, nodes[i].text);
                    }
                }
            }
        }
    }
}

proof fn lemma_resolve_from_encloses(nodes: Seq<SyntaxNodeView>, target: Seq<char>, k: int)
    requires
        tree_shaped(nodes),
    ensures
        resolve_from(nodes, target, k) matches Some(p) ==> !nodes[p].leaf && contains_text(
            nodes[p].text,
            target,
        ),
    decreases nodes.len() - k,
{
    if 0 <= k < nodes.len() {
        lemma_callable_ancestor_encloses(nodes, k);
        lemma_resolve_from_encloses(nodes, target, k + 1);
    }
}

/// Law: in the node list of any parse (`parse_source` ensures `tree_shaped`),
/// the node found for a name is not a leaf and its text contains the name.
pub proof fn law_resolved_node_contains_target(nodes: Seq<SyntaxNodeView>, target: Seq<char>)
    requires
        tree_shaped(nodes),
    ensures
        resolved_callable(nodes, target) matches Some(p) ==> !nodes[p].leaf && contains_text(
            nodes[p].text,
            target,
        ),
{
    lemma_resolve_from_encloses(nodes, target, 0);
}

/// Law: injecting arguments into a call `name(inner)` (a name without `(`,
/// the argument list closing at the snippet's last character, `inner` free to
/// hold parentheses of its own) keeps everything up to that final `)` and
/// puts the arguments right before it, after `", "` when `inner` holds more
/// than white space.
pub proof fn law_inject_before_final_paren(
    name: Seq<char>,
    inner: Seq<char>,
    args: Seq<(Seq<char>, ArgValueView)>,
)
    requires
        !name.contains('('),
        args.len() > 0,
    ensures
        ({
            let snippet = name + seq!['('] + inner + seq![')'];
            &&& transform_defined(snippet, name, None, Some(args))
            &&& transformed(snippet, name, None, Some(args)) == name + seq!['('] + inner + (if trim(
                inner,
            ).len() > 0 {
                seq![',', ' ']
            } else {
                Seq::empty()
            }) + joined_args(args) + seq![')']
        }),
{
    let snippet = name + seq!['('] + inner + seq![')'];
    let close = snippet.len() - 1;
    let open = name.len() as int;
    assert(snippet[close] == ')');
    lemma_last_index(snippet, ')', close);
    assert(snippet[open] == '(');
    assert forall|j: int| 0 <= j < open implies snippet[j] != '(' by {
        assert(snippet[j] == name[j]);
        if snippet[j] == '(' {
            assert(name.contains('('));
        }
    }
    lemma_first_index(snippet, '(', open);
    assert(snippet.subrange(open + 1, close) =~= inner);
    assert(snippet.take(close) =~= name + seq!['('] + inner);
    assert(snippet.skip(close) =~= seq![')']);
}

/// A leaf of the list whose text is `target`.
pub open spec fn matching_leaf(nodes: Seq<SyntaxNodeView>, target: Seq<char>, j: int) -> bool {
    0 <= j < nodes.len() && nodes[j].leaf && nodes[j].text == target
}

proof fn lemma_resolve_from_first(nodes: Seq<SyntaxNodeView>, target: Seq<char>, k: int)
    requires
        0 <= k,
    ensures
        match resolve_from(nodes, target, k) {
            Some(p) => exists|j: int|
                k <= j && #[trigger] matching_leaf(nodes, target, j) && callable_ancestor(nodes, j)
                    == Some(p) && forall|m: int|
                    k <= m < j && #[trigger] matching_leaf(nodes, target, m) ==> callable_ancestor(
                        nodes,
                        m,
                    ) is None,
            None => forall|m: int|
                k <= m && #[trigger] matching_leaf(nodes, target, m) ==> callable_ancestor(nodes, m)
                    is None,
        },
    decreases nodes.len() - k,
{
    if k < nodes.len() {
        lemma_resolve_from_first(nodes, target, k + 1);
        if matching_leaf(nodes, target, k) && callable_ancestor(nodes, k) is Some {
            assert(matching_leaf(nodes, target, k));
        } else {
            match resolve_from(nodes, target, k + 1) {
                Some(p) => {
                    let j = choose|j: int|
                        k + 1 <= j && #[trigger] matching_leaf(nodes, target, j) && callable_ancestor(
                            nodes,
                            j,
                        ) == Some(p) && forall|m: int|
                            k + 1 <= m < j && #[trigger] matching_leaf(nodes, target, m)
                                ==> callable_ancestor(nodes, m) is None;
                    assert(k <= j && matching_leaf(nodes, target, j));
                },
                None => {},
            }
        }
    }
}

/// Law: the node found for a name is the callable enclosing the first leaf
/// with that text that has one: it is the callable ancestor of a matching
/// leaf, and every earlier matching leaf has no callable ancestor; no node is
/// found exactly when no matching leaf has one.
pub proof fn law_resolves_first_matching_leaf(nodes: Seq<SyntaxNodeView>, target: Seq<char>)
    ensures
        match resolved_callable(nodes, target) {
            Some(p) => exists|j: int|
                #[trigger] matching_leaf(nodes, target, j) && callable_ancestor(nodes, j) == Some(p)
                    && forall|m: int|
                    0 <= m < j && #[trigger] matching_leaf(nodes, target, m) ==> callable_ancestor(
                        nodes,
                        m,
                    ) is None,
            None => forall|m: int|
                #[trigger] matching_leaf(nodes, target, m) ==> callable_ancestor(nodes, m) is None,
        },
{
    lemma_resolve_from_first(nodes, target, 0);
}

} // verus!
