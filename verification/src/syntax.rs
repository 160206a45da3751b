//! The syntax tree of a source text, as plain values.
//!
//! Parsing is done by `ast-grep`; the tree comes back as the list of its
//! nodes in depth-first pre-order (a node before its children, children in
//! source order), each with its kind, byte range, text, whether it has
//! children, and its depth (the number of its ancestors).  A node's parent is
//! then the nearest node before it that is one level shallower, and its
//! descendants are the nodes right after it that are deeper than it.
use ast_grep_language::{Language, LanguageExt, SupportLang};
use std::str::FromStr;
use crate::text::contains_text;
use vstd::utf8::is_ascii_chars;
use vstd::prelude::*;

verus! {

broadcast use vstd::string::group_string_axioms;

/// The languages `ast-grep` parses.
#[verifier::external_type_specification]
#[verifier::external_body]
pub struct ExSupportLang(SupportLang);

/// One node of a syntax tree.
#[derive(Debug)]
pub struct SyntaxNode {
    pub kind: String,
    pub start: usize,
    pub end: usize,
    pub leaf: bool,
    pub depth: usize,
    pub text: String,
}

/// The meaning of a syntax node.
pub struct SyntaxNodeView {
    pub kind: Seq<char>,
    pub start: usize,
    pub end: usize,
    pub leaf: bool,
    pub depth: usize,
    pub text: Seq<char>,
}

impl SyntaxNode {
    pub open spec fn view(&self) -> SyntaxNodeView {
        SyntaxNodeView {
            kind: self.kind@,
            start: self.start,
            end: self.end,
            leaf: self.leaf,
            depth: self.depth,
            text: self.text@,
        }
    }
}

/// The meaning of a list of nodes.
pub open spec fn nodes_view(ns: Seq<SyntaxNode>) -> Seq<SyntaxNodeView> {
    ns.map_values(|n: SyntaxNode| n.view())
}

// ---------------------------------------------------------------------------
// Names for what the parser computes
// ---------------------------------------------------------------------------
/// The language `ast-grep` associates with a file path (by its extension).
pub uninterp spec fn language_of_path(path: Seq<char>) -> Option<SupportLang>;

/// The language `ast-grep` knows by a name or alias.
pub uninterp spec fn language_named(name: Seq<char>) -> Option<SupportLang>;

/// The nodes of the syntax tree `ast-grep` builds for a source text, in
/// depth-first pre-order.
pub uninterp spec fn syntax_tree(lang: SupportLang, source: Seq<char>) -> Seq<SyntaxNodeView>;

/// The lower-case form of a text (Unicode case mapping).
pub uninterp spec fn lowercase(s: Seq<char>) -> Seq<char>;

/// ASCII text with each of `A`..`Z` turned into its lower-case letter.
pub open spec fn ascii_lowercase(s: Seq<char>) -> Seq<char> {
    s.map_values(|c: char| if 'A' <= c <= 'Z' { ((c as u32) + 32) as char } else { c })
}

// ---------------------------------------------------------------------------
// Trusted calls
// ---------------------------------------------------------------------------
/// `SupportLang::from_path`: the language whose file extensions include the
/// path's extension, if any.  Its result is named, not described.
#[verifier::external_body]
fn language_from_path(path: &str) -> (l: Option<SupportLang>)
    ensures
        l == language_of_path(path@),
{
    SupportLang::from_path(path)
}

/// `SupportLang::from_str`: the language with this name or alias, ignoring
/// ASCII case.  `rust` is one of Rust's aliases in the crate's alias table, so
/// that name always resolves; nothing else is stated.
#[verifier::external_body]
fn language_from_name(name: &str) -> (l: Option<SupportLang>)
    ensures
        l == language_named(name@),
        name@ == "rust"@ ==> l is Some,
{
    SupportLang::from_str(name).ok()
}

/// `LanguageExt::ast_grep` followed by a depth-first walk (`Node::dfs`) of the
/// tree from its root, each node converted to its kind, byte range, whether
/// it is a leaf, the number of its ancestors, and its text.  The contract
/// names the result, and states only what the walk shows of any tree
/// (`tree_shaped`): the walk is in pre-order, going down one level at a time
/// (`dfs` steps to the first child or on to a sibling or an ancestor's
/// sibling, and the depth counts `ancestors`), a node is a leaf exactly when
/// it has no children (`is_leaf` is `child_count() == 0`, and a node's first
/// child is visited right after it), and a node's text, a slice of the source
/// by its byte range, lies within its parent's, whose range encloses it.
/// Nothing is said of which kinds or ranges the parser produces.
#[verifier::external_body]
fn parse_nodes(lang: SupportLang, source: &str) -> (nodes: Vec<SyntaxNode>)
    ensures
        nodes_view(nodes@) == syntax_tree(lang, source@),
        tree_shaped(nodes_view(nodes@)),
{
    let grep = lang.ast_grep(source);
    let root = grep.root();
    let mut nodes = Vec::new();
    for n in root.dfs() {
        let r = n.range();
        let (kind, text) = (n.kind().to_string(), n.text().to_string());
        let depth = n.ancestors().count();
        nodes.push(SyntaxNode { kind, start: r.start, end: r.end, leaf: n.is_leaf(), depth, text });
    }
    nodes
}

/// `str::to_lowercase`; the result is named, and for ASCII text it is stated:
/// each of `A`..`Z` becomes its lower-case letter, every other ASCII
/// character stays (the Unicode lower-case mapping of ASCII).
#[verifier::external_body]
fn to_lower(s: &str) -> (out: String)
    ensures
        out@ == lowercase(s@),
        is_ascii_chars(s@) ==> out@ == ascii_lowercase(s@),
{
    s.to_lowercase()
}

// ---------------------------------------------------------------------------
// Verified interface
// ---------------------------------------------------------------------------
/// The language used for a path: the one its extension names, Rust otherwise.
pub open spec fn language_for_path(path: Seq<char>) -> SupportLang {
    match language_of_path(path) {
        Some(l) => l,
        None => language_named("rust"@)->0,
    }
}

/// The language used for a file path: the one its extension names, Rust
/// when the extension names none.
pub fn language_for(path: &str) -> (l: SupportLang)
    ensures
        l == language_for_path(path@),
{
    match language_from_path(path) {
        Some(l) => l,
        None => {
            let fallback = language_from_name("rust");
            fallback.unwrap()
        },
    }
}

/// The syntax tree of `source` in language `lang`, as its nodes in pre-order.
pub fn parse_source(lang: SupportLang, source: &str) -> (nodes: Vec<SyntaxNode>)
    ensures
        nodes_view(nodes@) == syntax_tree(lang, source@),
        tree_shaped(nodes_view(nodes@)),
{
    parse_nodes(lang, source)
}

/// The lower-case form of a node kind.
pub fn lower(s: &str) -> (out: String)
    ensures
        out@ == lowercase(s@),
        is_ascii_chars(s@) ==> out@ == ascii_lowercase(s@),
{
    to_lower(s)
}

/// The shape of a pre-order walk of a tree: each node is at most one level
/// deeper than the one before it; a node is a leaf exactly when the next node
/// is one level deeper (its first child); a node's byte range lies within its
/// parent's range, and its text within its parent's text.
pub open spec fn tree_shaped(nodes: Seq<SyntaxNodeView>) -> bool {
    &&& forall|i: int| 0 < i < nodes.len() ==> #[trigger] nodes[i].depth <= nodes[i - 1].depth + 1
    &&& forall|i: int|
        0 <= i < nodes.len() ==> (#[trigger] nodes[i].leaf <==> !(i + 1 < nodes.len() && nodes[i
            + 1].depth == nodes[i].depth + 1))
    &&& forall|i: int|
        0 <= i < nodes.len() ==> (#[trigger] parent_of(nodes, i) matches Some(p) ==> contains_text(
            nodes[p].text,
            nodes[i].text,
        ) && nodes[p].start <= nodes[i].start && nodes[i].end <= nodes[p].end)
}

/// The nearest node before position `j + 1` whose depth is `d - 1`.
pub open spec fn parent_scan(nodes: Seq<SyntaxNodeView>, d: int, j: int) -> Option<int>
    decreases j + 1,
{
    if j < 0 {
        None
    } else if nodes[j].depth + 1 == d {
        Some(j)
    } else {
        parent_scan(nodes, d, j - 1)
    }
}

/// The parent of node `i`: the nearest earlier node one level shallower.
pub open spec fn parent_of(nodes: Seq<SyntaxNodeView>, i: int) -> Option<int> {
    parent_scan(nodes, nodes[i].depth as int, i - 1)
}

/// The end of the subtree of node `i`: the first position after `i` whose
/// node is not deeper than node `i` (or the end of the list).
pub open spec fn subtree_scan(nodes: Seq<SyntaxNodeView>, i: int, j: int) -> int
    decreases nodes.len() - j,
{
    if j >= nodes.len() || j < 0 {
        nodes.len() as int
    } else if nodes[j].depth <= nodes[i].depth {
        j
    } else {
        subtree_scan(nodes, i, j + 1)
    }
}

/// The nodes of the subtree rooted at node `i` are those from `i` up to (not
/// including) this position.
pub open spec fn subtree_end(nodes: Seq<SyntaxNodeView>, i: int) -> int {
    subtree_scan(nodes, i, i + 1)
}

pub proof fn lemma_parent_scan(nodes: Seq<SyntaxNodeView>, d: int, j: int)
    requires
        j < nodes.len(),
    ensures
        match parent_scan(nodes, d, j) {
            Some(p) => 0 <= p <= j && nodes[p].depth + 1 == d && forall|k: int|
                p < k <= j ==> nodes[k].depth + 1 != d,
            None => forall|k: int| 0 <= k <= j ==> nodes[k].depth + 1 != d,
        },
    decreases j + 1,
{
    if j >= 0 && nodes[j].depth + 1 != d {
        lemma_parent_scan(nodes, d, j - 1);
    }
}

/// Position of the parent of node `i`, if it has one.
pub fn parent_index(nodes: &Vec<SyntaxNode>, i: usize) -> (p: Option<usize>)
    requires
        i < nodes@.len(),
    ensures
        match p {
            Some(k) => parent_of(nodes_view(nodes@), i as int) == Some(k as int),
            None => parent_of(nodes_view(nodes@), i as int) is None,
        },
{
    let ghost nv = nodes_view(nodes@);
    let d = nodes[i].depth;
    let mut j: usize = i;
    while j > 0
        invariant
            j <= i < nodes@.len(),
            nv == nodes_view(nodes@),
            d == nv[i as int].depth,
            parent_of(nv, i as int) == parent_scan(nv, d as int, j - 1),
        decreases j,
    {
        assert(nv[j - 1] == nodes@[j - 1].view());
        if nodes[j - 1].depth < d && nodes[j - 1].depth + 1 == d {
            return Some(j - 1);
        }
        j = j - 1;
    }
    None
}

/// Position just past the last node of the subtree rooted at node `i`.
pub fn subtree_end_index(nodes: &Vec<SyntaxNode>, i: usize) -> (e: usize)
    requires
        i < nodes@.len(),
    ensures
        e as int == subtree_end(nodes_view(nodes@), i as int),
        i < e <= nodes@.len(),
{
    let ghost nv = nodes_view(nodes@);
    let n = nodes.len();
    let mut j: usize = i + 1;
    while j < nodes.len() && nodes[j].depth > nodes[i].depth
        invariant
            i < j <= nodes@.len(),
            nv == nodes_view(nodes@),
            subtree_end(nv, i as int) == subtree_scan(nv, i as int, j as int),
        decreases nodes@.len() - j,
    {
        assert(nv[j as int] == nodes@[j as int].view());
        assert(nv[i as int] == nodes@[i as int].view());
        j = j + 1;
    }
    proof {
        if j < nodes@.len() {
            assert(nv[j as int] == nodes@[j as int].view());
            assert(nv[i as int] == nodes@[i as int].view());
        }
    }
    j
}

/// The nodes scanned past, from `k` up to where the subtree of `i` ends, are
/// deeper than node `i`.
proof fn lemma_subtree_scan_deeper(nodes: Seq<SyntaxNodeView>, i: int, k: int)
    requires
        0 <= i < nodes.len(),
        i < k,
    ensures
        k <= subtree_scan(nodes, i, k) <= nodes.len() || (k > nodes.len() && subtree_scan(
            nodes,
            i,
            k,
        ) == nodes.len()),
        forall|m: int|
            k <= m < subtree_scan(nodes, i, k) ==> #[trigger] nodes[m].depth > nodes[i].depth,
    decreases nodes.len() - k,
{
    if k < nodes.len() && nodes[k].depth > nodes[i].depth {
        lemma_subtree_scan_deeper(nodes, i, k + 1);
    }
}

/// The subtree of a node holds the node and ends within the list.
pub proof fn lemma_subtree_end_bounds(nodes: Seq<SyntaxNodeView>, i: int)
    requires
        0 <= i < nodes.len(),
    ensures
        i < subtree_end(nodes, i) <= nodes.len(),
{
    lemma_subtree_scan_deeper(nodes, i, i + 1);
}

/// Going from a node shallower than `d` to a later node at least `d` deep
/// passes a node at depth `d - 1`.
pub proof fn lemma_climb(nodes: Seq<SyntaxNodeView>, a: int, c: int, d: int)
    requires
        tree_shaped(nodes),
        0 <= a < c < nodes.len(),
        nodes[a].depth < d,
        nodes[c].depth >= d,
    ensures
        exists|j: int| a <= j < c && #[trigger] nodes[j].depth + 1 == d,
    decreases c - a,
{
    assert(nodes[a + 1].depth <= nodes[a].depth + 1);
    if nodes[a + 1].depth >= d {
        assert(nodes[a].depth + 1 == d);
    } else {
        lemma_climb(nodes, a + 1, c, d);
        let j = choose|j: int| a + 1 <= j < c && #[trigger] nodes[j].depth + 1 == d;
        assert(a <= j < c && nodes[j].depth + 1 == d);
    }
}

/// In a tree-shaped walk every node of the subtree of node `i` lies within
/// node `i`'s byte range.
pub proof fn lemma_subtree_within_range(nodes: Seq<SyntaxNodeView>, i: int, j: int)
    requires
        tree_shaped(nodes),
        0 <= i <= j < subtree_end(nodes, i),
        i < nodes.len(),
    ensures
        subtree_end(nodes, i) <= nodes.len(),
        nodes[i].start <= nodes[j].start && nodes[j].end <= nodes[i].end,
    decreases j,
{
    lemma_subtree_scan_deeper(nodes, i, i + 1);
    if j > i {
        let d = nodes[j].depth as int;
        assert(nodes[j].depth > nodes[i].depth);
        lemma_climb(nodes, i, j, d);
        let w = choose|w: int| i <= w < j && #[trigger] nodes[w].depth + 1 == d;
        lemma_parent_scan(nodes, d, j - 1);
        let p = parent_of(nodes, j)->0;
        assert(parent_of(nodes, j) matches Some(q) ==> nodes[q].start <= nodes[j].start
            && nodes[j].end <= nodes[q].end);
        if p < w {
            assert(nodes[w].depth + 1 != d);
        }
        assert(i <= p < j);
        if p > i {
            lemma_subtree_within_range(nodes, i, p);
        }
    }
}

} // verus!
