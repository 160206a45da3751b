//! Running a payload: each action reads the current text's syntax tree and
//! yields messages, edits and read results; the edits are applied before the
//! next action runs; at the end the report's status is decided.
use crate::edits::{
    Edit, TextEdit, apply_edits_checked, edited, edits_apply_cleanly, edits_view,
};
use crate::actions::{action_effect, action_effect_spec, text_or_empty};
use crate::models::{
    CompilerMeta, CompilerPayload, CompilerStatus, DialecticAction, MetaView, ReadValue,
    ReadValueView, buffer_view, strings_view,
};
use crate::registry::RecipeRegistry;
use crate::syntax::{language_for, language_for_path};
use crate::text::{chars_of, concat3, same_text};
use ast_grep_language::SupportLang;
use vstd::prelude::*;

verus! {

broadcast use vstd::string::group_string_axioms;

// ---------------------------------------------------------------------------
// What one action produces
// ---------------------------------------------------------------------------
/// The outcome of one action before it is folded into the run: messages to
/// add, edits to apply, a read-buffer entry to set, and whether the action
/// was a read.
pub struct ActionEffect {
    pub warnings: Vec<String>,
    pub errors: Vec<String>,
    pub edits: Vec<Edit>,
    pub entry: Option<(String, ReadValue)>,
    pub read_action: bool,
}

/// The meaning of an action's outcome.
pub struct EffectView {
    pub warnings: Seq<Seq<char>>,
    pub errors: Seq<Seq<char>>,
    pub edits: Seq<TextEdit>,
    pub entry: Option<(Seq<char>, ReadValueView)>,
    pub read_action: bool,
}

impl ActionEffect {
    pub open spec fn view(&self) -> EffectView {
        EffectView {
            warnings: strings_view(self.warnings@),
            errors: strings_view(self.errors@),
            edits: edits_view(self.edits@),
            entry: match &self.entry {
                Some(e) => Some((e.0@, e.1.view())),
                None => None,
            },
            read_action: self.read_action,
        }
    }
}

/// An outcome with no messages, no edits and no entry.
pub open spec fn no_effect() -> EffectView {
    EffectView {
        warnings: Seq::empty(),
        errors: Seq::empty(),
        edits: Seq::empty(),
        entry: None,
        read_action: false,
    }
}

/// An outcome that only adds a warning.
pub open spec fn warning_effect(w: Seq<char>) -> EffectView {
    EffectView { warnings: seq![w], ..no_effect() }
}

/// An exec outcome with nothing in it.
pub fn empty_effect() -> (e: ActionEffect)
    ensures
        e.view() == no_effect(),
{
    let e = ActionEffect {
        warnings: Vec::new(),
        errors: Vec::new(),
        edits: Vec::new(),
        entry: None,
        read_action: false,
    };
    assert(e.view().warnings =~= Seq::<Seq<char>>::empty());
    assert(e.view().errors =~= Seq::<Seq<char>>::empty());
    assert(e.view().edits =~= Seq::<TextEdit>::empty());
    e
}

/// An exec outcome that only adds the warning `w`.
pub fn warning_only(w: String) -> (e: ActionEffect)
    ensures
        e.view() == warning_effect(w@),
{
    let mut e = empty_effect();
    e.warnings.push(w);
    assert(e.view().warnings =~= seq![w@]);
    e
}

// ---------------------------------------------------------------------------
// The state of a run
// ---------------------------------------------------------------------------
/// The text as it stands, the report so far, and whether a read ran.
pub struct RunState {
    pub source: String,
    pub meta: CompilerMeta,
    pub has_read_action: bool,
}

/// The meaning of a run's state.
pub struct RunView {
    pub source: Seq<char>,
    pub meta: MetaView,
    pub has_read_action: bool,
}

impl RunState {
    pub open spec fn view(&self) -> RunView {
        RunView {
            source: self.source@,
            meta: self.meta.view(),
            has_read_action: self.has_read_action,
        }
    }
}

/// The keys of a read buffer.
pub open spec fn buffer_keys(b: Seq<(Seq<char>, ReadValueView)>) -> Seq<Seq<char>> {
    b.map_values(|e: (Seq<char>, ReadValueView)| e.0)
}

/// The read buffer with `k` set to `v`: an existing entry for `k` keeps its
/// place and takes the new value; otherwise the entry is added at the end.
pub open spec fn buffer_insert(
    b: Seq<(Seq<char>, ReadValueView)>,
    k: Seq<char>,
    v: ReadValueView,
) -> Seq<(Seq<char>, ReadValueView)> {
    match buffer_keys(b).index_of_first(k) {
        Some(i) => b.update(i, (k, v)),
        None => b.push((k, v)),
    }
}

/// The run after one action's outcome: messages appended, the mutation count
/// raised by the number of edits, the edits applied to the text, the entry
/// set in the read buffer.  Nothing when an edit would split a character,
/// the count would pass `usize::MAX`, or an entry meets no read buffer.
pub open spec fn apply_effect_spec(st: RunView, e: EffectView) -> Option<RunView> {
    if (e.entry is Some && st.meta.read_buffer is None) || st.meta.mutations + e.edits.len()
        > usize::MAX || (e.edits.len() > 0 && !edits_apply_cleanly(st.source, e.edits)) {
        None
    } else {
        Some(
            RunView {
                source: if e.edits.len() > 0 {
                    edited(st.source, e.edits)
                } else {
                    st.source
                },
                meta: MetaView {
                    status: st.meta.status,
                    mutations: st.meta.mutations + e.edits.len(),
                    warnings: st.meta.warnings + e.warnings,
                    errors: st.meta.errors + e.errors,
                    read_buffer: match e.entry {
                        None => st.meta.read_buffer,
                        Some(kv) => Some(buffer_insert(st.meta.read_buffer->0, kv.0, kv.1)),
                    },
                },
                has_read_action: st.has_read_action || e.read_action,
            },
        )
    }
}

/// Sets `key` to `value` in the read buffer.
fn insert_entry(buffer: &mut Vec<(String, ReadValue)>, key: String, value: ReadValue)
    ensures
        buffer_view(final(buffer)@) == buffer_insert(buffer_view(old(buffer)@), key@, value.view()),
{
    let ghost keys = buffer_keys(buffer_view(buffer@));
    let mut i: usize = 0;
    while i < buffer.len()
        invariant
            i <= buffer@.len(),
            buffer@ == old(buffer)@,
            keys == buffer_keys(buffer_view(buffer@)),
            forall|j: int| 0 <= j < i ==> keys[j] != key@,
        decreases buffer@.len() - i,
    {
        assert(keys[i as int] == buffer@[i as int].0@);
        if buffer[i].0 == key {
            proof {
                keys.index_of_first_ensures(key@);
                assert(keys[i as int] == key@);
                assert(keys.contains(key@));
                assert(keys.index_of_first(key@) == Some(i as int));
            }
            let ghost before = buffer@;
            let ghost kv = (key@, value.view());
            buffer.set(i, (key, value));
            assert(buffer_view(buffer@) =~= buffer_view(before).update(i as int, kv));
            return;
        }
        i = i + 1;
    }
    proof {
        keys.index_of_first_ensures(key@);
        if keys.contains(key@) {
            let k = choose|k: int| 0 <= k < keys.len() && keys[k] == key@;
            assert(keys[k] == key@);
        }
    }
    let ghost before = buffer@;
    let ghost kv = (key@, value.view());
    buffer.push((key, value));
    assert(buffer_view(buffer@) =~= buffer_view(before).push(kv));
}

/// Folds one action's outcome into the run, as `apply_effect_spec` says.
pub fn apply_effect(st: RunState, e: ActionEffect) -> (out: Option<RunState>)
    ensures
        match out {
            Some(s) => apply_effect_spec(st.view(), e.view()) == Some(s.view()),
            None => apply_effect_spec(st.view(), e.view()) is None,
        },
{
    let ghost sv = st.view();
    let ghost ev = e.view();
    let mut st = st;
    let mut e = e;
    if e.entry.is_some() && st.meta.read_buffer.is_none() {
        return None;
    }
    let n = e.edits.len();
    let count = match st.meta.mutations.checked_add(n) {
        Some(c) => c,
        None => {
            return None;
        },
    };
    if n > 0 {
        match apply_edits_checked(&st.source, e.edits) {
            Some(t) => {
                st.source = t;
            },
            None => {
                return None;
            },
        }
    }
    st.meta.mutations = count;
    let ghost w0 = st.meta.warnings@;
    let ghost e0 = st.meta.errors@;
    st.meta.warnings.append(&mut e.warnings);
    st.meta.errors.append(&mut e.errors);
    assert(strings_view(st.meta.warnings@) =~= strings_view(w0) + ev.warnings);
    assert(strings_view(st.meta.errors@) =~= strings_view(e0) + ev.errors);
    match e.entry {
        Some(kv) => {
            match &mut st.meta.read_buffer {
                Some(b) => {
                    insert_entry(b, kv.0, kv.1);
                },
                None => {},
            }
        },
        None => {},
    }
    st.has_read_action = st.has_read_action || e.read_action;
    Some(st)
}

// ---------------------------------------------------------------------------
// Running the actions in order
// ---------------------------------------------------------------------------
/// The run after the actions in order, each on the text as the ones before
/// it left it.  Nothing when some action's outcome is undefined or cannot be
/// folded in.
pub open spec fn run_spec(
    intents: Seq<DialecticAction>,
    st: RunView,
    lang: SupportLang,
    reg: Seq<(Seq<char>, Seq<char>)>,
) -> Option<RunView>
    decreases intents.len(),
{
    if intents.len() == 0 {
        Some(st)
    } else {
        match run_spec(intents.drop_last(), st, lang, reg) {
            None => None,
            Some(s) => match action_effect_spec(intents.last(), s.source, lang, reg) {
                None => None,
                Some(e) => apply_effect_spec(s, e),
            },
        }
    }
}

/// Runs the actions in order, as `run_spec` says.
pub fn run_intents(
    intents: &Vec<DialecticAction>,
    start: RunState,
    lang: SupportLang,
    registry: &RecipeRegistry,
) -> (out: Option<RunState>)
    ensures
        match out {
            Some(s) => run_spec(intents@, start.view(), lang, registry.view()) == Some(s.view()),
            None => run_spec(intents@, start.view(), lang, registry.view()) is None,
        },
{
    let ghost st0 = start.view();
    let mut st = start;
    let mut i: usize = 0;
    while i < intents.len()
        invariant
            i <= intents@.len(),
            st0 == start.view(),
            run_spec(intents@.take(i as int), st0, lang, registry.view()) == Some(st.view()),
        decreases intents@.len() - i,
    {
        let ghost pre = intents@.take(i as int);
        assert(intents@.take(i + 1).drop_last() =~= pre);
        assert(intents@.take(i + 1).last() == intents@[i as int]);
        let step = action_effect(&intents[i], &st.source, lang, registry);
        let next = match step {
            Some(e) => apply_effect(st, e),
            None => None,
        };
        match next {
            Some(s) => {
                st = s;
            },
            None => {
                proof {
                    lemma_run_stays_undefined(intents@, i as int + 1, st0, lang, registry.view());
                }
                return None;
            },
        }
        i = i + 1;
    }
    assert(intents@.take(i as int) =~= intents@);
    Some(st)
}

/// Once a prefix of the actions cannot run, no longer prefix can.
proof fn lemma_run_stays_undefined(
    intents: Seq<DialecticAction>,
    k: int,
    st: RunView,
    lang: SupportLang,
    reg: Seq<(Seq<char>, Seq<char>)>,
)
    requires
        0 <= k <= intents.len(),
        run_spec(intents.take(k), st, lang, reg) is None,
    ensures
        run_spec(intents, st, lang, reg) is None,
    decreases intents.len() - k,
{
    if k < intents.len() {
        assert(intents.take(k + 1).drop_last() =~= intents.take(k));
        lemma_run_stays_undefined(intents, k + 1, st, lang, reg);
    } else {
        assert(intents.take(k) =~= intents);
    }
}

// ---------------------------------------------------------------------------
// A whole payload
// ---------------------------------------------------------------------------
/// The path a payload works on: the one it names, `temp.rs` when it names none.
pub open spec fn payload_path(file_path: Option<String>) -> Seq<char> {
    match file_path {
        Some(p) => p@,
        None => "temp.rs"@,
    }
}

/// The text a run starts from: the inline source when given, else what was
/// read from the file (nothing when the file was not there).
pub open spec fn pristine_text(source: Option<String>, disk: Option<String>) -> Seq<char> {
    match source {
        Some(s) => s@,
        None => match disk {
            Some(d) => d@,
            None => Seq::empty(),
        },
    }
}

/// The meaning of a fresh report.
pub open spec fn fresh_meta() -> MetaView {
    MetaView {
        status: CompilerStatus::Success,
        mutations: 0,
        warnings: Seq::empty(),
        errors: Seq::empty(),
        read_buffer: Some(Seq::empty()),
    }
}

/// How a run ends: with its report, or with the edited text still to be
/// written to the file before the report is final.
pub enum EngineOutcome {
    Finished(CompilerMeta),
    WriteBack { meta: CompilerMeta, path: String, contents: String },
}

/// The meaning of how a run ends.
pub enum OutcomeView {
    Finished(MetaView),
    WriteBack { meta: MetaView, path: Seq<char>, contents: Seq<char> },
}

impl EngineOutcome {
    pub open spec fn view(&self) -> OutcomeView {
        match self {
            EngineOutcome::Finished(m) => OutcomeView::Finished(m.view()),
            EngineOutcome::WriteBack { meta, path, contents } => OutcomeView::WriteBack {
                meta: meta.view(),
                path: path@,
                contents: contents@,
            },
        }
    }
}

/// The report with another status.
pub open spec fn with_status(m: MetaView, status: CompilerStatus) -> MetaView {
    MetaView { status, ..m }
}

/// The end of a run: any error rolls it back (no mutations counted); a dry
/// run completes as such; mutations that changed the text succeed, and,
/// unless the path is `temp.rs` or empty, the text is to be written back;
/// otherwise the run was a read or changed nothing.
pub open spec fn finish_spec(
    st: RunView,
    pristine: Seq<char>,
    path: Seq<char>,
    dry_run: bool,
) -> OutcomeView {
    let m = st.meta;
    if m.errors.len() > 0 {
        OutcomeView::Finished(
            MetaView { status: CompilerStatus::RollbackInitiated, mutations: 0, ..m },
        )
    } else if dry_run {
        OutcomeView::Finished(with_status(m, CompilerStatus::DryRunComplete))
    } else if m.mutations > 0 && st.source != pristine {
        if path == "temp.rs"@ || path.len() == 0 {
            OutcomeView::Finished(with_status(m, CompilerStatus::Success))
        } else {
            OutcomeView::WriteBack {
                meta: with_status(m, CompilerStatus::Success),
                path,
                contents: st.source,
            }
        }
    } else if st.has_read_action {
        OutcomeView::Finished(with_status(m, CompilerStatus::ReadComplete))
    } else {
        OutcomeView::Finished(with_status(m, CompilerStatus::NoMutations))
    }
}

/// The error reported for a missing or empty file.
pub open spec fn missing_file_error(path: Seq<char>) -> Seq<char> {
    "File '"@ + path + "' not found or empty."@
}

/// Running a payload with the given recipes, `disk` being what the file held
/// when the payload gave no source (`None` when there was no file): an empty
/// starting text is fatal; otherwise the actions run in order on the text in
/// the language the path names (Rust by default) and the run ends as
/// `finish_spec` says.  Nothing when the actions cannot run.
pub open spec fn execute_spec(
    payload: CompilerPayload,
    reg: Seq<(Seq<char>, Seq<char>)>,
    disk: Option<String>,
) -> Option<OutcomeView> {
    let path = payload_path(payload.file_path);
    let pristine = pristine_text(payload.source, disk);
    if pristine.len() == 0 {
        Some(
            OutcomeView::Finished(
                MetaView {
                    status: CompilerStatus::Fatal,
                    errors: seq![missing_file_error(path)],
                    ..fresh_meta()
                },
            ),
        )
    } else {
        match run_spec(payload.intent@, start_state(pristine), language_for_path(path), reg) {
            None => None,
            Some(st) => Some(finish_spec(st, pristine, path, payload.dry_run)),
        }
    }
}

/// The path a payload works on.
pub fn source_path(payload: &CompilerPayload) -> (p: String)
    ensures
        p@ == payload_path(payload.file_path),
{
    match &payload.file_path {
        Some(p) => p.clone(),
        None => "temp.rs".to_string(),
    }
}

/// The file to read before running: the payload's path when it gives no
/// source inline, nothing otherwise.
pub fn disk_read_path(payload: &CompilerPayload) -> (p: Option<String>)
    ensures
        p is Some <==> payload.source is None,
        p is Some ==> p->0@ == payload_path(payload.file_path),
{
    match &payload.source {
        Some(_) => None,
        None => Some(source_path(payload)),
    }
}

/// Ends a run, as `finish_spec` says.
fn finish(st: RunState, pristine: &String, path: String, dry_run: bool) -> (out: EngineOutcome)
    ensures
        out.view() == finish_spec(st.view(), pristine@, path@, dry_run),
{
    let mut st = st;
    if st.meta.errors.len() > 0 {
        st.meta.status = CompilerStatus::RollbackInitiated;
        st.meta.mutations = 0;
        EngineOutcome::Finished(st.meta)
    } else if dry_run {
        st.meta.status = CompilerStatus::DryRunComplete;
        EngineOutcome::Finished(st.meta)
    } else if st.meta.mutations > 0 && st.source != *pristine {
        st.meta.status = CompilerStatus::Success;
        let p = chars_of(path.as_str());
        if same_text(&p, &chars_of("temp.rs")) || path.as_str().is_empty() {
            EngineOutcome::Finished(st.meta)
        } else {
            EngineOutcome::WriteBack { meta: st.meta, path, contents: st.source }
        }
    } else if st.has_read_action {
        st.meta.status = CompilerStatus::ReadComplete;
        EngineOutcome::Finished(st.meta)
    } else {
        st.meta.status = CompilerStatus::NoMutations;
        EngineOutcome::Finished(st.meta)
    }
}

/// Runs a payload with the given recipes.  `disk` is what the payload's file
/// held, read by the caller when the payload gives no source
/// (`disk_read_path`); `None` when there was no such file.  `None` comes
/// back exactly when the actions cannot run to the end: an edit would split
/// a character, a call rewrite meets a `)` before its `(`, or the mutation
/// count would pass `usize::MAX`.
pub fn execute_payload(
    payload: CompilerPayload,
    registry: &RecipeRegistry,
    disk: Option<String>,
) -> (out: Option<EngineOutcome>)
    ensures
        match out {
            Some(o) => execute_spec(payload, registry.view(), disk) == Some(o.view()),
            None => execute_spec(payload, registry.view(), disk) is None,
        },
{
    let path = source_path(&payload);
    let pristine = match payload.source {
        Some(s) => s,
        None => match disk {
            Some(d) => d,
            None => String::new(),
        },
    };
    if pristine.as_str().is_empty() {
        let mut meta = CompilerMeta::new();
        meta.status = CompilerStatus::Fatal;
        meta.errors.push(concat3("File '", path.as_str(), "' not found or empty."));
        assert(meta.view().errors =~= seq![missing_file_error(path@)]);
        return Some(EngineOutcome::Finished(meta));
    }
    let lang = language_for(path.as_str());
    let start = RunState { source: pristine.clone(), meta: CompilerMeta::new(), has_read_action: false };
    match run_intents(&payload.intent, start, lang, registry) {
        None => None,
        Some(st) => Some(finish(st, &pristine, path, payload.dry_run)),
    }
}

/// The write-back's error message.
pub open spec fn write_error(reason: Seq<char>) -> Seq<char> {
    "Failed to write to file: "@ + reason
}

/// The report once the write-back is done: unchanged when it worked; rolled
/// back, with no mutations and the reason added to the errors, when it
/// failed.
pub open spec fn after_write_spec(m: MetaView, failure: Option<Seq<char>>) -> MetaView {
    match failure {
        None => m,
        Some(reason) => MetaView {
            status: CompilerStatus::RollbackInitiated,
            mutations: 0,
            errors: m.errors.push(write_error(reason)),
            ..m
        },
    }
}

/// Completes the report of a run that wrote its text back, given why the
/// write failed (`None` when it worked).
pub fn finish_write(meta: CompilerMeta, failure: Option<String>) -> (out: CompilerMeta)
    ensures
        out.view() == after_write_spec(
            meta.view(),
            match failure {
                Some(f) => Some(f@),
                None => None,
            },
        ),
{
    let mut meta = meta;
    match failure {
        None => meta,
        Some(reason) => {
            meta.status = CompilerStatus::RollbackInitiated;
            let ghost e0 = meta.errors@;
            meta.errors.push(concat3("Failed to write to file: ", reason.as_str(), ""));
            proof {
                reveal_strlit("");
            }
            assert(strings_view(meta.errors@) =~= strings_view(e0).push(write_error(reason@)));
            meta.mutations = 0;
            meta
        },
    }
}

// ---------------------------------------------------------------------------
// Laws
// ---------------------------------------------------------------------------
/// The value the read buffer holds for `k`, if any: the entry found first.
pub open spec fn buffer_lookup(
    b: Seq<(Seq<char>, ReadValueView)>,
    k: Seq<char>,
) -> Option<ReadValueView> {
    match buffer_keys(b).index_of_first(k) {
        Some(i) => Some(b[i].1),
        None => None,
    }
}

/// Law: after a read result is set in the read buffer, looking its key up
/// gives that result, every other key gives what it gave before, and keys
/// that were distinct stay distinct.
pub proof fn law_buffer_reads_back(
    b: Seq<(Seq<char>, ReadValueView)>,
    k: Seq<char>,
    v: ReadValueView,
    other: Seq<char>,
)
    ensures
        buffer_lookup(buffer_insert(b, k, v), k) == Some(v),
        other != k ==> buffer_lookup(buffer_insert(b, k, v), other) == buffer_lookup(b, other),
        buffer_keys(b).no_duplicates() ==> buffer_keys(buffer_insert(b, k, v)).no_duplicates(),
{
    let keys = buffer_keys(b);
    let b2 = buffer_insert(b, k, v);
    let keys2 = buffer_keys(b2);
    keys.index_of_first_ensures(k);
    keys.index_of_first_ensures(other);
    match keys.index_of_first(k) {
        Some(i) => {
            assert(keys2 =~= keys.update(i, k));
        },
        None => {
            assert(keys2 =~= keys.push(k));
        },
    }
    keys2.index_of_first_ensures(k);
    keys2.index_of_first_ensures(other);
    if keys2.index_of_first(k) is None {
        match keys.index_of_first(k) {
            Some(i) => assert(keys2[i] == k),
            None => assert(keys2[keys.len() as int] == k),
        }
    }
    let p = keys2.index_of_first(k)->0;
    match keys.index_of_first(k) {
        Some(i) => {
            assert(keys2[i] == k);
            if p < i {
                assert(keys2[p] == keys[p]);
            }
            assert(p == i);
        },
        None => {
            assert(p == keys.len());
        },
    }
    if other != k {
        match keys.index_of_first(other) {
            Some(j) => {
                assert(keys2[j] == other);
                let q = keys2.index_of_first(other)->0;
                assert(keys[q] == other || q == keys.len());
                assert(q == j);
                assert(b2[j] == b[j]);
            },
            None => {
                if keys2.index_of_first(other) is Some {
                    let q = keys2.index_of_first(other)->0;
                    assert(keys[q] == other || q >= keys.len());
                }
            },
        }
    }
    if keys.no_duplicates() {
        match keys.index_of_first(k) {
            Some(i) => {
                assert forall|x: int, y: int|
                    0 <= x < keys2.len() && 0 <= y < keys2.len() && x != y implies keys2[x]
                    != keys2[y] by {
                    if x == i {
                        assert(keys2[x] == keys[i]);
                    }
                    if y == i {
                        assert(keys2[y] == keys[i]);
                    }
                }
            },
            None => {
                assert forall|x: int, y: int|
                    0 <= x < keys2.len() && 0 <= y < keys2.len() && x != y implies keys2[x]
                    != keys2[y] by {
                    if x == keys.len() {
                        assert(!keys.contains(k));
                        assert(keys[y] == keys2[y]);
                    }
                    if y == keys.len() {
                        assert(!keys.contains(k));
                        assert(keys[x] == keys2[x]);
                    }
                }
            },
        }
    }
}

/// Law: a dry run never asks for the file to be written; it completes as a
/// dry run unless an error rolled it back or the text was empty.
pub proof fn law_dry_run_never_writes(
    payload: CompilerPayload,
    reg: Seq<(Seq<char>, Seq<char>)>,
    disk: Option<String>,
)
    requires
        payload.dry_run,
    ensures
        match execute_spec(payload, reg, disk) {
            Some(OutcomeView::Finished(m)) => m.status == CompilerStatus::DryRunComplete
                || m.status == CompilerStatus::RollbackInitiated || m.status
                == CompilerStatus::Fatal,
            Some(OutcomeView::WriteBack { .. }) => false,
            None => true,
        },
{
}

/// Law: a report with errors counts no mutations and is rolled back (or is
/// fatal); a write-back is asked for only after an error-free, non-dry run
/// whose mutations changed the text, for a real path, with the changed text.
pub proof fn law_status_contract(
    payload: CompilerPayload,
    reg: Seq<(Seq<char>, Seq<char>)>,
    disk: Option<String>,
)
    ensures
        match execute_spec(payload, reg, disk) {
            Some(OutcomeView::Finished(m)) => m.errors.len() > 0 ==> m.mutations == 0 && (m.status
                == CompilerStatus::RollbackInitiated || m.status == CompilerStatus::Fatal),
            Some(OutcomeView::WriteBack { meta, path, contents }) => {
                &&& !payload.dry_run
                &&& meta.errors.len() == 0
                &&& meta.status == CompilerStatus::Success
                &&& meta.mutations > 0
                &&& contents != pristine_text(payload.source, disk)
                &&& path == payload_path(payload.file_path)
                &&& path != "temp.rs"@
                &&& path.len() > 0
            },
            None => true,
        },
{
}

/// The actions that never edit the text.
pub open spec fn is_read_only(a: DialecticAction) -> bool {
    ||| a is ReadTopology
    ||| a is ExecuteRecipe
    ||| a is Unsupported
}

/// A read-only action yields no edits and no errors.
proof fn lemma_read_only_effect(
    a: DialecticAction,
    source: Seq<char>,
    lang: SupportLang,
    reg: Seq<(Seq<char>, Seq<char>)>,
)
    requires
        is_read_only(a),
    ensures
        action_effect_spec(a, source, lang, reg) matches Some(e) && e.edits.len() == 0
            && e.errors.len() == 0,
{
}

/// A run of read-only actions keeps the text, the mutation count and the
/// errors, and always completes.
proof fn lemma_read_only_run(
    intents: Seq<DialecticAction>,
    st: RunView,
    lang: SupportLang,
    reg: Seq<(Seq<char>, Seq<char>)>,
)
    requires
        forall|i: int| 0 <= i < intents.len() ==> is_read_only(#[trigger] intents[i]),
        st.meta.read_buffer is Some,
        st.meta.mutations <= usize::MAX,
    ensures
        run_spec(intents, st, lang, reg) matches Some(s) && s.source == st.source
            && s.meta.mutations == st.meta.mutations && s.meta.errors == st.meta.errors
            && s.meta.read_buffer is Some,
    decreases intents.len(),
{
    if intents.len() > 0 {
        let pre = intents.drop_last();
        assert forall|i: int| 0 <= i < pre.len() implies is_read_only(#[trigger] pre[i]) by {
            assert(pre[i] == intents[i]);
        }
        lemma_read_only_run(pre, st, lang, reg);
        let s = run_spec(pre, st, lang, reg)->0;
        assert(is_read_only(intents[intents.len() - 1]));
        lemma_read_only_effect(intents.last(), s.source, lang, reg);
        let e = action_effect_spec(intents.last(), s.source, lang, reg)->0;
        assert(s.meta.errors + e.errors =~= s.meta.errors);
    }
}

/// Law: a payload of read-only actions (reads, recipes, unknown actions)
/// always runs to the end, never changes or writes the text and counts no
/// mutations; unless dry or empty, it ends as a read or as a run without
/// mutations.
pub proof fn law_read_only_payload(
    payload: CompilerPayload,
    reg: Seq<(Seq<char>, Seq<char>)>,
    disk: Option<String>,
)
    requires
        forall|i: int| 0 <= i < payload.intent@.len() ==> is_read_only(#[trigger] payload.intent@[i]),
    ensures
        execute_spec(payload, reg, disk) matches Some(OutcomeView::Finished(m)) && m.mutations == 0
            && (m.status == CompilerStatus::Fatal || m.status == CompilerStatus::DryRunComplete
            || m.status == CompilerStatus::ReadComplete || m.status == CompilerStatus::NoMutations),
{
    let path = payload_path(payload.file_path);
    let pristine = pristine_text(payload.source, disk);
    if pristine.len() > 0 {
        let start = RunView { source: pristine, meta: fresh_meta(), has_read_action: false };
        lemma_read_only_run(payload.intent@, start, language_for_path(path), reg);
    }
}

// ---------------------------------------------------------------------------
// Laws on whole runs
// ---------------------------------------------------------------------------
/// The state a run starts from: the text, a fresh report, no read yet.
pub open spec fn start_state(pristine: Seq<char>) -> RunView {
    RunView { source: pristine, meta: fresh_meta(), has_read_action: false }
}

/// The report an outcome carries.
pub open spec fn outcome_meta(o: OutcomeView) -> MetaView {
    match o {
        OutcomeView::Finished(m) => m,
        OutcomeView::WriteBack { meta, .. } => meta,
    }
}

/// The error of a `MUTATE_CALL` without a call name.
pub open spec fn missing_name_error() -> Seq<char> {
    "MUTATE_CALL missing target.name"@
}

/// A `MUTATE_CALL` whose call name is missing or empty.
pub open spec fn is_nameless_call(a: DialecticAction) -> bool {
    a matches DialecticAction::MutateCall { target, .. } && text_or_empty(target.name).len() == 0
}

/// The errors that running these actions reports: one `missing_name_error`
/// for each nameless `MUTATE_CALL`, in order.
pub open spec fn intent_errors(intents: Seq<DialecticAction>) -> Seq<Seq<char>>
    decreases intents.len(),
{
    if intents.len() == 0 {
        Seq::empty()
    } else if is_nameless_call(intents.last()) {
        intent_errors(intents.drop_last()).push(missing_name_error())
    } else {
        intent_errors(intents.drop_last())
    }
}

/// Some action is a read.
pub open spec fn has_read(intents: Seq<DialecticAction>) -> bool {
    exists|i: int| 0 <= i < intents.len() && #[trigger] intents[i] is ReadTopology
}

/// What one action adds to the errors, and whether it marks the run a read.
proof fn lemma_effect_facts(
    a: DialecticAction,
    source: Seq<char>,
    lang: SupportLang,
    reg: Seq<(Seq<char>, Seq<char>)>,
)
    ensures
        action_effect_spec(a, source, lang, reg) matches Some(e) ==> e.errors == (if is_nameless_call(
            a,
        ) {
            seq![missing_name_error()]
        } else {
            Seq::<Seq<char>>::empty()
        }) && e.read_action == (a is ReadTopology),
{
}

/// What a run keeps and adds: its errors are the nameless calls' errors,
/// it is a read exactly when some action is, its status is untouched and a
/// read buffer stays.
proof fn lemma_run_facts(
    intents: Seq<DialecticAction>,
    st: RunView,
    lang: SupportLang,
    reg: Seq<(Seq<char>, Seq<char>)>,
)
    ensures
        run_spec(intents, st, lang, reg) matches Some(s) ==> {
            &&& s.meta.errors == st.meta.errors + intent_errors(intents)
            &&& s.has_read_action == (st.has_read_action || has_read(intents))
            &&& s.meta.status == st.meta.status
            &&& (st.meta.read_buffer is Some ==> s.meta.read_buffer is Some)
        },
    decreases intents.len(),
{
    if intents.len() == 0 {
        assert(st.meta.errors + intent_errors(intents) =~= st.meta.errors);
        assert(!has_read(intents));
    } else {
        let pre = intents.drop_last();
        lemma_run_facts(pre, st, lang, reg);
        if let Some(s0) = run_spec(pre, st, lang, reg) {
            lemma_effect_facts(intents.last(), s0.source, lang, reg);
            if let Some(e) = action_effect_spec(intents.last(), s0.source, lang, reg) {
                if let Some(s) = apply_effect_spec(s0, e) {
                    assert(s.meta.errors =~= st.meta.errors + intent_errors(intents));
                    if has_read(intents) {
                        let i = choose|i: int| 0 <= i < intents.len() && #[trigger] intents[i] is ReadTopology;
                        if i < pre.len() {
                            assert(pre[i] == intents[i]);
                        }
                    }
                    if has_read(pre) {
                        let i = choose|i: int| 0 <= i < pre.len() && #[trigger] pre[i] is ReadTopology;
                        assert(pre[i] == intents[i]);
                    }
                    assert(intents[intents.len() - 1] == intents.last());
                }
            }
        }
    }
}

/// No nameless call means no errors; some nameless call means at least one,
/// and every error is the missing-name error.
proof fn lemma_intent_errors(intents: Seq<DialecticAction>)
    ensures
        (forall|i: int| 0 <= i < intents.len() ==> !is_nameless_call(#[trigger] intents[i]))
            ==> intent_errors(intents).len() == 0,
        (exists|i: int| 0 <= i < intents.len() && is_nameless_call(#[trigger] intents[i]))
            ==> intent_errors(intents).len() > 0,
        forall|j: int|
            0 <= j < intent_errors(intents).len() ==> #[trigger] intent_errors(intents)[j]
                == missing_name_error(),
    decreases intents.len(),
{
    if intents.len() > 0 {
        let pre = intents.drop_last();
        lemma_intent_errors(pre);
        if forall|i: int| 0 <= i < intents.len() ==> !is_nameless_call(#[trigger] intents[i]) {
            assert forall|i: int| 0 <= i < pre.len() implies !is_nameless_call(#[trigger] pre[i]) by {
                assert(pre[i] == intents[i]);
            }
            assert(!is_nameless_call(intents[intents.len() - 1]));
        }
        if exists|i: int| 0 <= i < intents.len() && is_nameless_call(#[trigger] intents[i]) {
            let i = choose|i: int| 0 <= i < intents.len() && is_nameless_call(#[trigger] intents[i]);
            if i < pre.len() {
                assert(pre[i] == intents[i]);
            }
        }
    }
}

/// Law: for a non-empty text, the errors a run reports are exactly one
/// `MUTATE_CALL missing target.name` per `MUTATE_CALL` without a call name,
/// in order; every report is some status other than `PartialFail` and
/// carries a read buffer, and so does the report after a write-back.
pub proof fn law_report_contents(
    payload: CompilerPayload,
    reg: Seq<(Seq<char>, Seq<char>)>,
    disk: Option<String>,
    failure: Option<Seq<char>>,
)
    ensures
        execute_spec(payload, reg, disk) matches Some(o) ==> {
            &&& outcome_meta(o).status != CompilerStatus::PartialFail
            &&& outcome_meta(o).read_buffer is Some
            &&& pristine_text(payload.source, disk).len() > 0 ==> outcome_meta(o).errors
                == intent_errors(payload.intent@)
            &&& after_write_spec(outcome_meta(o), failure).status != CompilerStatus::PartialFail
            &&& after_write_spec(outcome_meta(o), failure).read_buffer is Some
        },
{
    let path = payload_path(payload.file_path);
    let pristine = pristine_text(payload.source, disk);
    if pristine.len() > 0 {
        lemma_run_facts(payload.intent@, start_state(pristine), language_for_path(path), reg);
        assert(Seq::<Seq<char>>::empty() + intent_errors(payload.intent@) =~= intent_errors(
            payload.intent@,
        ));
    }
}

/// Law: when some `MUTATE_CALL` has no call name, a run on a non-empty text
/// is rolled back, dry or not: nothing is written, no mutation is counted,
/// and the errors are one missing-name error per such action.
pub proof fn law_nameless_call_rolls_back(
    payload: CompilerPayload,
    reg: Seq<(Seq<char>, Seq<char>)>,
    disk: Option<String>,
)
    requires
        pristine_text(payload.source, disk).len() > 0,
        exists|i: int| 0 <= i < payload.intent@.len() && is_nameless_call(#[trigger] payload.intent@[i]),
    ensures
        execute_spec(payload, reg, disk) matches Some(o) ==> o matches OutcomeView::Finished(m) && {
            &&& m.status == CompilerStatus::RollbackInitiated
            &&& m.mutations == 0
            &&& m.errors == intent_errors(payload.intent@)
            &&& m.errors.len() > 0
            &&& forall|j: int| 0 <= j < m.errors.len() ==> #[trigger] m.errors[j] == missing_name_error()
        },
{
    let path = payload_path(payload.file_path);
    let pristine = pristine_text(payload.source, disk);
    lemma_run_facts(payload.intent@, start_state(pristine), language_for_path(path), reg);
    lemma_intent_errors(payload.intent@);
    assert(Seq::<Seq<char>>::empty() + intent_errors(payload.intent@) =~= intent_errors(
        payload.intent@,
    ));
}

/// Law: a dry run on a non-empty text with no nameless `MUTATE_CALL`
/// completes as a dry run, with no errors, however many mutations it
/// counted, and writes nothing.
pub proof fn law_dry_run_completes(
    payload: CompilerPayload,
    reg: Seq<(Seq<char>, Seq<char>)>,
    disk: Option<String>,
)
    requires
        payload.dry_run,
        pristine_text(payload.source, disk).len() > 0,
        forall|i: int| 0 <= i < payload.intent@.len() ==> !is_nameless_call(#[trigger] payload.intent@[i]),
    ensures
        execute_spec(payload, reg, disk) matches Some(o) ==> o matches OutcomeView::Finished(m)
            && m.status == CompilerStatus::DryRunComplete && m.errors.len() == 0,
{
    let path = payload_path(payload.file_path);
    let pristine = pristine_text(payload.source, disk);
    lemma_run_facts(payload.intent@, start_state(pristine), language_for_path(path), reg);
    lemma_intent_errors(payload.intent@);
}

/// Law: a run that is not dry, on a non-empty text with no nameless
/// `MUTATE_CALL`, whose mutations changed the text, succeeds; for the path
/// `temp.rs` or an empty path nothing is written, otherwise the changed text
/// is to be written to the path.  If that write fails, the report is rolled
/// back with no mutations and the write's reason as its only error.
pub proof fn law_changes_are_written_back(
    payload: CompilerPayload,
    reg: Seq<(Seq<char>, Seq<char>)>,
    disk: Option<String>,
    reason: Seq<char>,
)
    requires
        !payload.dry_run,
        pristine_text(payload.source, disk).len() > 0,
        forall|i: int| 0 <= i < payload.intent@.len() ==> !is_nameless_call(#[trigger] payload.intent@[i]),
    ensures
        ({
            let path = payload_path(payload.file_path);
            let pristine = pristine_text(payload.source, disk);
            match run_spec(payload.intent@, start_state(pristine), language_for_path(path), reg) {
                Some(st) => st.meta.mutations > 0 && st.source != pristine ==> {
                    let m = with_status(st.meta, CompilerStatus::Success);
                    &&& m.errors.len() == 0
                    &&& execute_spec(payload, reg, disk) == Some(
                        if path == "temp.rs"@ || path.len() == 0 {
                            OutcomeView::Finished(m)
                        } else {
                            OutcomeView::WriteBack { meta: m, path, contents: st.source }
                        },
                    )
                    &&& after_write_spec(m, None) == m
                    &&& after_write_spec(m, Some(reason)).status == CompilerStatus::RollbackInitiated
                    &&& after_write_spec(m, Some(reason)).mutations == 0
                    &&& after_write_spec(m, Some(reason)).errors == seq![write_error(reason)]
                },
                None => execute_spec(payload, reg, disk) is None,
            }
        }),
{
    let path = payload_path(payload.file_path);
    let pristine = pristine_text(payload.source, disk);
    lemma_run_facts(payload.intent@, start_state(pristine), language_for_path(path), reg);
    lemma_intent_errors(payload.intent@);
    if let Some(st) = run_spec(payload.intent@, start_state(pristine), language_for_path(path), reg) {
        assert(st.meta.errors.len() == 0);
        assert(st.meta.errors.push(write_error(reason)) =~= seq![write_error(reason)]);
    }
}

/// Law: a run that is not dry, on a non-empty text with no nameless
/// `MUTATE_CALL`, that counted no mutation or left the text as it was,
/// writes nothing and reports no errors; it ends as a read when some action
/// is a read, and as a run without mutations otherwise.
pub proof fn law_unchanged_runs(
    payload: CompilerPayload,
    reg: Seq<(Seq<char>, Seq<char>)>,
    disk: Option<String>,
)
    requires
        !payload.dry_run,
        pristine_text(payload.source, disk).len() > 0,
        forall|i: int| 0 <= i < payload.intent@.len() ==> !is_nameless_call(#[trigger] payload.intent@[i]),
    ensures
        ({
            let path = payload_path(payload.file_path);
            let pristine = pristine_text(payload.source, disk);
            match run_spec(payload.intent@, start_state(pristine), language_for_path(path), reg) {
                Some(st) => (st.meta.mutations == 0 || st.source == pristine) ==> (execute_spec(
                    payload,
                    reg,
                    disk,
                ) matches Some(OutcomeView::Finished(m)) && m.errors.len() == 0 && m.status == (
                if has_read(payload.intent@) {
                    CompilerStatus::ReadComplete
                } else {
                    CompilerStatus::NoMutations
                })),
                None => true,
            }
        }),
{
    let path = payload_path(payload.file_path);
    let pristine = pristine_text(payload.source, disk);
    lemma_run_facts(payload.intent@, start_state(pristine), language_for_path(path), reg);
    lemma_intent_errors(payload.intent@);
}

} // verus!
