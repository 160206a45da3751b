//! The decisions of the command line: which arguments mean what, when the
//! input is refused, and which payload a parsed input stands for.  Reading
//! the input and decoding its JSON happen outside this module; the results
//! are handed in as plain values.
use crate::engine::{
    OutcomeView, execute_spec, fresh_meta, is_nameless_call, law_dry_run_completes,
    law_dry_run_never_writes, pristine_text,
};
use crate::models::{CompilerMeta, CompilerPayload, CompilerStatus, DialecticAction, MetaView};
use crate::text::{chars_of, concat2, same_text, trim, trimmed};
use vstd::prelude::*;

verus! {

broadcast use vstd::string::group_string_axioms;

/// What the command-line arguments ask for.
pub struct CliArgs {
    /// `--dry-run` was given.
    pub dry_run: bool,
    /// The file to read the input from, if one was named.
    pub input_file: Option<String>,
}

/// The dry-run flag.
pub open spec fn dry_run_flag() -> Seq<char> {
    "--dry-run"@
}

/// The first argument from position `k` on that is not the dry-run flag.
pub open spec fn input_from(args: Seq<Seq<char>>, k: int) -> Option<Seq<char>>
    decreases args.len() - k,
{
    if k < 0 || k >= args.len() {
        None
    } else if args[k] == dry_run_flag() {
        input_from(args, k + 1)
    } else {
        Some(args[k])
    }
}

/// The arguments after the program name ask for a dry run when one of them
/// is the flag, and name the input file by the first one that is not.
pub open spec fn args_spec(args: Seq<Seq<char>>) -> (bool, Option<Seq<char>>) {
    (
        exists|i: int| 1 <= i < args.len() && args[i] == dry_run_flag(),
        input_from(args, 1),
    )
}

/// The meaning of a list of arguments.
pub open spec fn args_view(args: Seq<String>) -> Seq<Seq<char>> {
    args.map_values(|a: String| a@)
}

/// Reads the command-line arguments (the first being the program's name).
pub fn parse_args(args: &Vec<String>) -> (out: CliArgs)
    ensures
        (out.dry_run, match out.input_file {
            Some(f) => Some(f@),
            None => None,
        }) == args_spec(args_view(args@)),
{
    let ghost av = args_view(args@);
    let flag = chars_of("--dry-run");
    let mut dry_run = false;
    let mut input_file: Option<String> = None;
    if args.len() == 0 {
        return CliArgs { dry_run, input_file };
    }
    let mut i: usize = 1;
    while i < args.len()
        invariant
            1 <= i <= args@.len(),
            av == args_view(args@),
            flag@ == dry_run_flag(),
            dry_run == exists|j: int| 1 <= j < i && av[j] == dry_run_flag(),
            match input_file {
                Some(f) => input_from(av, 1) == Some(f@),
                None => input_from(av, 1) == input_from(av, i as int),
            },
        decreases args@.len() - i,
    {
        assert(av[i as int] == args@[i as int]@);
        let arg = chars_of(args[i].as_str());
        if same_text(&arg, &flag) {
            dry_run = true;
        } else if input_file.is_none() {
            input_file = Some(args[i].clone());
        }
        i = i + 1;
    }
    assert(input_from(av, i as int) is None);
    CliArgs { dry_run, input_file }
}

/// The input holds nothing but white space.
pub open spec fn blank(input: Seq<char>) -> bool {
    trim(input).len() == 0
}

/// Whether the input is blank, as `str::trim` sees it.
pub fn is_blank(input: &str) -> (b: bool)
    ensures
        b == blank(input@),
{
    let t = trimmed(&chars_of(input));
    t.len() == 0
}

/// A fatal report with one error.
pub open spec fn fatal_spec(message: Seq<char>) -> MetaView {
    MetaView { status: CompilerStatus::Fatal, errors: seq![message], ..fresh_meta() }
}

/// A fresh report marked fatal, with `message` as its only error.
pub fn fatal_report(message: &str) -> (meta: CompilerMeta)
    ensures
        meta.view() == fatal_spec(message@),
{
    let mut meta = CompilerMeta::new();
    meta.status = CompilerStatus::Fatal;
    meta.errors.push(concat2(message, ""));
    proof {
        reveal_strlit("");
    }
    assert(meta.view().errors =~= seq![message@]);
    meta
}

/// The report for blank input.
pub open spec fn empty_input_error() -> Seq<char> {
    "Empty input provided."@
}

/// The refusal of blank input: a fatal report when the input holds nothing
/// but white space, nothing otherwise.
pub fn refuse_blank(input: &str) -> (out: Option<CompilerMeta>)
    ensures
        out is Some <==> blank(input@),
        out matches Some(m) ==> m.view() == fatal_spec(empty_input_error()),
{
    if is_blank(input) {
        let m = fatal_report("Empty input provided.");
        proof {
            reveal_strlit("Empty input provided.");
        }
        Some(m)
    } else {
        None
    }
}

/// The report for input that is neither a payload nor an action.
pub open spec fn invalid_payload_error() -> Seq<char> {
    "Invalid JSON payload sequence."@
}

/// The payload an input stands for.  `parsed` is the input decoded as a
/// payload, `bare` the input decoded as a single action together with its
/// `file_path` member when it has a string there.  A payload is taken as it
/// is; a bare action becomes a payload of that one action on that path, with
/// no inline source.  Either way the dry-run flag of the command line forces
/// a dry run.  Input that is neither is refused with a fatal report.
pub fn select_payload(
    parsed: Option<CompilerPayload>,
    bare: Option<(DialecticAction, Option<String>)>,
    dry_run_cli: bool,
) -> (out: Result<CompilerPayload, CompilerMeta>)
    ensures
        match out {
            Ok(p) => match parsed {
                Some(q) => p.file_path == q.file_path && p.source == q.source && p.intent
                    == q.intent && p.dry_run == (q.dry_run || dry_run_cli),
                None => bare matches Some(b) && p.file_path == b.1 && p.source is None
                    && p.intent@ == seq![b.0] && p.dry_run == dry_run_cli,
            },
            Err(m) => parsed is None && bare is None && m.view() == fatal_spec(
                invalid_payload_error(),
            ),
        },
{
    match parsed {
        Some(mut p) => {
            if dry_run_cli {
                p.dry_run = true;
            }
            Ok(p)
        },
        None => match bare {
            Some((action, file_path)) => {
                let mut intent = Vec::new();
                intent.push(action);
                assert(intent@ =~= seq![action]);
                Ok(CompilerPayload { file_path, source: None, intent, dry_run: dry_run_cli })
            },
            None => Err(fatal_report("Invalid JSON payload sequence.")),
        },
    }
}

/// Law: when the arguments hold `--dry-run`, the payload run is a dry run
/// whatever its own `dryRun` says (it is the payload `select_payload` makes
/// of a decoded payload `q`): nothing is written, and on a non-empty text
/// with no nameless `MUTATE_CALL` the run completes as a dry run.
pub proof fn law_dry_run_flag_overrides(
    args: Seq<Seq<char>>,
    q: CompilerPayload,
    reg: Seq<(Seq<char>, Seq<char>)>,
    disk: Option<String>,
)
    requires
        args_spec(args).0,
    ensures
        ({
            let p = CompilerPayload { dry_run: q.dry_run || args_spec(args).0, ..q };
            &&& p.dry_run
            &&& execute_spec(p, reg, disk) matches Some(o) ==> o is Finished
            &&& (pristine_text(q.source, disk).len() > 0 && forall|i: int|
                0 <= i < q.intent@.len() ==> !is_nameless_call(#[trigger] q.intent@[i]))
                ==> (execute_spec(p, reg, disk) matches Some(o) ==> o matches OutcomeView::Finished(
                m,
            ) && m.status == CompilerStatus::DryRunComplete)
        }),
{
    let p = CompilerPayload { dry_run: q.dry_run || args_spec(args).0, ..q };
    law_dry_run_never_writes(p, reg, disk);
    if pristine_text(q.source, disk).len() > 0 && forall|i: int|
        0 <= i < q.intent@.len() ==> !is_nameless_call(#[trigger] q.intent@[i]) {
        law_dry_run_completes(p, reg, disk);
    }
}

} // verus!
