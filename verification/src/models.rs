//! The protocol's data: actions, payloads, and the result of running them.
use vstd::prelude::*;

verus! {

/// The outcome of running a payload.
#[derive(Debug, Clone, Copy, PartialEq, Eq, Structural)]
pub enum CompilerStatus {
    Success,
    PartialFail,
    Fatal,
    RollbackInitiated,
    DryRunComplete,
    NoMutations,
    ReadComplete,
}

/// A JSON value handed to an action as an argument, as the engine reads it:
/// a JSON string by its contents, any other value by its compact JSON text.
#[derive(Debug, Clone)]
pub enum ArgValue {
    Text(String),
    Encoded(String),
}

/// The meaning of an argument value.
pub enum ArgValueView {
    Text(Seq<char>),
    Encoded(Seq<char>),
}

impl ArgValue {
    pub open spec fn view(&self) -> ArgValueView {
        match self {
            ArgValue::Text(s) => ArgValueView::Text(s@),
            ArgValue::Encoded(s) => ArgValueView::Encoded(s@),
        }
    }
}

/// A value reported in the read buffer.
#[derive(Debug, Clone)]
pub enum ReadValue {
    /// A JSON string.
    Text(String),
    /// A JSON object whose members are strings.
    Fields(Vec<(String, String)>),
    /// A JSON array of strings.
    Texts(Vec<String>),
    /// A JSON array of objects whose members are strings.
    Records(Vec<Vec<(String, String)>>),
}

/// The meaning of a read-buffer value.
pub enum ReadValueView {
    Text(Seq<char>),
    Fields(Seq<(Seq<char>, Seq<char>)>),
    Texts(Seq<Seq<char>>),
    Records(Seq<Seq<(Seq<char>, Seq<char>)>>),
}

/// The meaning of a list of string pairs.
pub open spec fn pairs_view(ps: Seq<(String, String)>) -> Seq<(Seq<char>, Seq<char>)> {
    ps.map_values(|p: (String, String)| (p.0@, p.1@))
}

/// The meaning of a list of strings.
pub open spec fn strings_view(ss: Seq<String>) -> Seq<Seq<char>> {
    ss.map_values(|s: String| s@)
}

impl ReadValue {
    pub open spec fn view(&self) -> ReadValueView {
        match self {
            ReadValue::Text(s) => ReadValueView::Text(s@),
            ReadValue::Fields(ps) => ReadValueView::Fields(pairs_view(ps@)),
            ReadValue::Texts(ss) => ReadValueView::Texts(strings_view(ss@)),
            ReadValue::Records(rs) => ReadValueView::Records(
                rs@.map_values(|r: Vec<(String, String)>| pairs_view(r@)),
            ),
        }
    }
}

/// The meaning of a read buffer: its entries, keyed by name, in insertion order.
pub open spec fn buffer_view(entries: Seq<(String, ReadValue)>) -> Seq<(Seq<char>, ReadValueView)> {
    entries.map_values(|e: (String, ReadValue)| (e.0@, e.1.view()))
}

/// The report of a run.
#[derive(Debug)]
pub struct CompilerMeta {
    pub status: CompilerStatus,
    pub mutations: usize,
    pub warnings: Vec<String>,
    pub errors: Vec<String>,
    pub read_buffer: Option<Vec<(String, ReadValue)>>,
}

/// The meaning of a report.
pub struct MetaView {
    pub status: CompilerStatus,
    pub mutations: nat,
    pub warnings: Seq<Seq<char>>,
    pub errors: Seq<Seq<char>>,
    pub read_buffer: Option<Seq<(Seq<char>, ReadValueView)>>,
}

impl CompilerMeta {
    pub open spec fn view(&self) -> MetaView {
        MetaView {
            status: self.status,
            mutations: self.mutations as nat,
            warnings: strings_view(self.warnings@),
            errors: strings_view(self.errors@),
            read_buffer: match &self.read_buffer {
                Some(b) => Some(buffer_view(b@)),
                None => None,
            },
        }
    }

    /// A fresh report: `Success`, no mutations, no messages, an empty read buffer.
    pub fn new() -> (meta: Self)
        ensures
            meta.view() == (MetaView {
                status: CompilerStatus::Success,
                mutations: 0,
                warnings: Seq::empty(),
                errors: Seq::empty(),
                read_buffer: Some(Seq::empty()),
            }),
    {
        let meta = CompilerMeta {
            status: CompilerStatus::Success,
            mutations: 0,
            warnings: Vec::new(),
            errors: Vec::new(),
            read_buffer: Some(Vec::new()),
        };
        assert(meta.view().warnings =~= Seq::<Seq<char>>::empty());
        assert(meta.view().errors =~= Seq::<Seq<char>>::empty());
        assert(buffer_view(Seq::<(String, ReadValue)>::empty()) =~= Seq::empty());
        meta
    }
}

/// Where an action applies.
#[derive(Debug)]
pub struct ActionTarget {
    pub name: Option<String>,
    pub function_name: Option<String>,
    pub hardcoded_dependency: Option<String>,
    pub named_import: Option<String>,
    pub node_name: Option<String>,
    pub recipe_name: Option<String>,
}

/// What an action changes or reads.
#[derive(Debug)]
pub struct ActionMutations {
    pub rename: Option<String>,
    /// Arguments to add to a call, in the order they are to be written.  A
    /// list decoded from a JSON object has distinct keys in sorted order;
    /// any list is accepted and written as it is.
    pub inject_args: Option<Vec<(String, ArgValue)>>,
    pub target_arg_index: Option<usize>,
    pub enforce_explicit_type: Option<String>,
    pub generate_interface: Option<Vec<String>>,
    pub target_param_index: Option<usize>,
    pub extract_to_parameter: Option<String>,
    pub replace_with: Option<String>,
    pub module_specifier: Option<String>,
    pub ensure_import: Option<String>,
    pub is_type_only: Option<bool>,
    pub extract: Option<String>,
    pub options: Option<Vec<(String, ArgValue)>>,
    pub target_files: Option<Vec<String>>,
}

/// One action of the protocol.
#[derive(Debug)]
pub enum DialecticAction {
    MutateCall { target: ActionTarget, mutations: ActionMutations },
    TranslateDialect { target: ActionTarget, mutations: ActionMutations },
    RestructureTopology { target: ActionTarget, mutations: ActionMutations },
    ManageImport { target: ActionTarget, mutations: ActionMutations },
    ReadTopology { target: ActionTarget, mutations: ActionMutations },
    ExecuteRecipe { target: ActionTarget, mutations: ActionMutations },
    Unsupported,
}

/// A request: the file, its text when given inline, the actions to run in
/// order, and whether to leave the file untouched.
#[derive(Debug)]
pub struct CompilerPayload {
    pub file_path: Option<String>,
    pub source: Option<String>,
    pub intent: Vec<DialecticAction>,
    pub dry_run: bool,
}

} // verus!
