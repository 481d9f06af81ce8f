//! Per-file scanning and the recursive walk over a directory tree handed in
//! as plain values, together with the configuration checks that guard a run.

use vstd::prelude::*;
use vstd::string::StrSliceExecFns;
use vstd::string::StringExecFns;
use crate::records::format_record;
use crate::records::record_text;
use crate::scan::EventModel;
use crate::scan::events_view;
use crate::scan::lines_view;
use crate::scan::scan_events;
use crate::scan::scan_lines;

verus! {

/// The ways a search can fail.
#[derive(Clone, Copy, Debug, PartialEq, Eq, Structural)]
pub enum SearchError {
    /// Invalid arguments, or a recursive-mode target that is not an existing
    /// directory. Fatal: reported before any scanning starts.
    Configuration,
    /// A file could not be opened. The file is skipped with a diagnostic.
    Access,
    /// A line could not be decoded as text: the file is not text. Its scan
    /// stops with a diagnostic; output already emitted stands.
    BinaryContent,
    /// A directory could not be enumerated. The whole recursive scan stops.
    Traversal,
}

/// What one source file yielded when it was read: either it could not be
/// opened (with the reader's message), or its decoded lines, with a flag set
/// when decoding failed mid-file (binary content).
pub enum FileSource {
    Unreadable { message: String },
    Content { lines: Vec<String>, binary_tail: bool },
}

/// The mathematical form of a file source.
pub enum SourceModel {
    Unreadable { message: Seq<char> },
    Content { lines: Seq<Seq<char>>, binary_tail: bool },
}

impl View for FileSource {
    type V = SourceModel;

    open spec fn view(&self) -> SourceModel {
        match self {
            FileSource::Unreadable { message } => SourceModel::Unreadable { message: message@ },
            FileSource::Content { lines, binary_tail } => SourceModel::Content {
                lines: lines_view(lines@),
                binary_tail: *binary_tail,
            },
        }
    }
}

/// One emitted line: an output record (for the output stream) or a
/// diagnostic (for the error stream). Order is preserved across a scan.
pub enum Emitted {
    Output(String),
    Diagnostic(String),
}

/// The mathematical form of an emitted line.
pub enum EmittedModel {
    Output(Seq<char>),
    Diagnostic(Seq<char>),
}

impl View for Emitted {
    type V = EmittedModel;

    open spec fn view(&self) -> EmittedModel {
        match self {
            Emitted::Output(s) => EmittedModel::Output(s@),
            Emitted::Diagnostic(s) => EmittedModel::Diagnostic(s@),
        }
    }
}

/// The views of a sequence of emitted lines.
pub open spec fn emitted_view(s: Seq<Emitted>) -> Seq<EmittedModel> {
    s.map_values(|e: Emitted| e@)
}

/// The diagnostic for a file whose content turned out not to be text.
pub open spec fn binary_note(name: Seq<char>) -> Seq<char> {
    name + ":  binary file matches"@
}

/// Everything one file contributes to a scan: a diagnostic if it could not
/// be opened; otherwise one output record per scan event, in order, followed
/// by a diagnostic if decoding stopped at binary content.
pub open spec fn file_report(name: Seq<char>, src: SourceModel, term: Seq<char>, n: int) -> Seq<
    EmittedModel,
> {
    match src {
        SourceModel::Unreadable { message } => seq![EmittedModel::Diagnostic(message)],
        SourceModel::Content { lines, binary_tail } => scan_events(lines, term, n).map_values(
            |e: EventModel| EmittedModel::Output(record_text(name, e)),
        ) + (if binary_tail {
            seq![EmittedModel::Diagnostic(binary_note(name))]
        } else {
            Seq::<EmittedModel>::empty()
        }),
    }
}

/// Scan one source and render its report: records for every match with its
/// context, plus the diagnostics the source calls for.
pub fn search_file(name: &str, source: &FileSource, term: &str, number_lines: usize) -> (out: Vec<
    Emitted,
>)
    requires
        term@.len() > 0,
    ensures
        emitted_view(out@) == file_report(name@, source@, term@, number_lines as int),
{
    match source {
        FileSource::Unreadable { message } => {
            let mut out: Vec<Emitted> = Vec::new();
            out.push(Emitted::Diagnostic(message.clone()));
            proof {
                assert(emitted_view(out@) =~= file_report(
                    name@,
                    source@,
                    term@,
                    number_lines as int,
                ));
            }
            out
        },
        FileSource::Content { lines, binary_tail } => {
            let ghost evm = scan_events(lines_view(lines@), term@, number_lines as int);
            let ghost target = evm.map_values(
                |e: EventModel| EmittedModel::Output(record_text(name@, e)),
            );
            let events = scan_lines(lines, term, number_lines);
            let mut out: Vec<Emitted> = Vec::new();
            let mut j: usize = 0;
            while j < events.len()
        invariant
            0 <= j <= events.len(),
            events_view(events@) == evm,
            events@.len() == evm.len(),
            target == evm.map_values(|e: EventModel| EmittedModel::Output(record_text(name@, e))),
            emitted_view(out@) == target.take(j as int),
        decreases events.len() - j,
            {
                let ghost outpre = emitted_view(out@);
                let rec = format_record(name, &events[j]);
                let ghost recm = rec@;
                out.push(Emitted::Output(rec));
                proof {
                    assert(events@[j as int]@ == evm[j as int]);
                    assert(recm == record_text(name@, evm[j as int]));
                    assert(target[j as int] == EmittedModel::Output(record_text(
                        name@,
                        evm[j as int],
                    )));
                    assert(emitted_view(out@) =~= outpre.push(EmittedModel::Output(recm)));
                    assert(target.take(j + 1) =~= target.take(j as int).push(target[j as int]));
                    assert(emitted_view(out@) =~= target.take(j + 1));
                }
                j += 1;
            }
            proof {
                assert(target.take(evm.len() as int) =~= target);
            }
            if *binary_tail {
                let mut note = String::from_str(name);
                note.append(":  binary file matches");
                out.push(Emitted::Diagnostic(note));
                proof {
                    assert(emitted_view(out@) =~= target.push(
                        EmittedModel::Diagnostic(binary_note(name@)),
                    ));
                    assert(target + seq![EmittedModel::Diagnostic(binary_note(name@))] =~= target
                        .push(EmittedModel::Diagnostic(binary_note(name@))));
                }
            } else {
                proof {
                    assert(target + Seq::<EmittedModel>::empty() =~= target);
                }
            }
            out
        },
    }
}

/// A directory tree as plain values: each file carries what reading it
/// yielded, and a directory that could not be enumerated is marked so.
pub enum TreeNode {
    File { name: String, source: FileSource },
    Dir { entries: Vec<TreeNode> },
    UnreadableDir,
}

/// The mathematical form of a directory tree.
pub enum TreeModel {
    File { name: Seq<char>, source: SourceModel },
    Dir { entries: Seq<TreeModel> },
    UnreadableDir,
}

/// The models of a run of sibling nodes, in order.
pub open spec fn forest_model(ts: Seq<TreeNode>) -> Seq<TreeModel>
    decreases ts, 1int,
{
    if ts.len() == 0 {
        Seq::empty()
    } else {
        seq![tree_model(ts[0])] + forest_model(ts.subrange(1, ts.len() as int))
    }
}

/// The model of a tree of plain values.
pub open spec fn tree_model(t: TreeNode) -> TreeModel
    decreases t, 0int,
    via tree_model_decreases
{
    match t {
        TreeNode::File { name, source } => TreeModel::File { name: name@, source: source@ },
        TreeNode::Dir { entries } => TreeModel::Dir { entries: forest_model(entries@) },
        TreeNode::UnreadableDir => TreeModel::UnreadableDir,
    }
}

#[via_fn]
proof fn tree_model_decreases(t: TreeNode) {
    match t {
        TreeNode::Dir { entries } => {
            assert(decreases_to!(t => t->Dir_entries));
            assert(decreases_to!(t->Dir_entries => t->Dir_entries@));
            assert(decreases_to!(t => t->Dir_entries@));
        },
        _ => {},
    }
}

/// A forest's model has one entry per node.
pub proof fn lemma_forest_model_len(ts: Seq<TreeNode>)
    ensures
        forest_model(ts).len() == ts.len(),
    decreases ts.len(),
{
    if ts.len() > 0 {
        lemma_forest_model_len(ts.subrange(1, ts.len() as int));
    }
}

/// A forest's model is the model of each node, position by position.
pub proof fn lemma_forest_model_index(ts: Seq<TreeNode>, k: int)
    requires
        0 <= k < ts.len(),
    ensures
        forest_model(ts)[k] == tree_model(ts[k]),
    decreases ts.len(),
{
    lemma_forest_model_len(ts.subrange(1, ts.len() as int));
    if k > 0 {
        lemma_forest_model_index(ts.subrange(1, ts.len() as int), k - 1);
        assert(ts.subrange(1, ts.len() as int)[k - 1] == ts[k]);
    }
}

impl View for TreeNode {
    type V = TreeModel;

    open spec fn view(&self) -> TreeModel {
        tree_model(*self)
    }
}

/// What a depth-first walk of the tree emits, and whether it was cut short
/// by a directory that could not be enumerated (the conservative default:
/// such an error abandons the whole recursive scan).
pub open spec fn tree_report(t: TreeModel, term: Seq<char>, n: int) -> (Seq<EmittedModel>, bool)
    decreases t, 0int,
{
    match t {
        TreeModel::File { name, source } => (file_report(name, source, term, n), false),
        TreeModel::Dir { entries } => forest_report(entries, term, n, 0),
        TreeModel::UnreadableDir => (Seq::empty(), true),
    }
}

/// The walk over a directory's entries from position `k` on, stopping at the
/// first entry whose subtree reports a traversal failure.
pub open spec fn forest_report(entries: Seq<TreeModel>, term: Seq<char>, n: int, k: int) -> (
    Seq<EmittedModel>,
    bool,
)
    decreases entries, entries.len() - k + 1,
{
    if k < 0 || k >= entries.len() {
        (Seq::empty(), false)
    } else {
        let sub = tree_report(entries[k], term, n);
        if sub.1 {
            (sub.0, true)
        } else {
            let rest = forest_report(entries, term, n, k + 1);
            (sub.0 + rest.0, rest.1)
        }
    }
}

/// Walk a directory tree depth-first and scan every file in it. Returns the
/// emitted lines in traversal order, and whether the walk was abandoned on a
/// directory that could not be enumerated.
pub fn recursive_search(node: &TreeNode, term: &str, number_lines: usize) -> (r: (Vec<Emitted>, bool))
    requires
        term@.len() > 0,
    ensures
        emitted_view(r.0@) == tree_report(node@, term@, number_lines as int).0,
        r.1 == tree_report(node@, term@, number_lines as int).1,
    decreases *node,
{
    let ghost n = number_lines as int;
    match node {
        TreeNode::File { name, source } => {
            let out = search_file(name.as_str(), source, term, number_lines);
            (out, false)
        },
        TreeNode::UnreadableDir => {
            let out: Vec<Emitted> = Vec::new();
            proof {
                assert(emitted_view(out@) =~= tree_report(node@, term@, n).0);
            }
            (out, true)
        },
        TreeNode::Dir { entries } => {
            let ghost em = node@->Dir_entries;
            proof {
                assert(em == forest_model(entries@));
                lemma_forest_model_len(entries@);
                assert forall|k: int| 0 <= k < em.len() implies em[k] == tree_model(
                    #[trigger] entries@[k],
                ) by {
                    lemma_forest_model_index(entries@, k);
                }
            }
            let mut out: Vec<Emitted> = Vec::new();
            let mut k: usize = 0;
            while k < entries.len()
                invariant
                    term@.len() > 0,
                    n == number_lines as int,
                    0 <= k <= entries.len(),
                    (*node) is Dir,
                    *entries == (*node)->Dir_entries,
                    em == node@->Dir_entries,
                    node@ == tree_model(*node),
                    em.len() == entries@.len(),
                    forall|j: int| 0 <= j < em.len() ==> em[j] == tree_model(#[trigger] entries@[j]),
                    forest_report(em, term@, n, 0).0 =~= emitted_view(out@) + forest_report(
                        em,
                        term@,
                        n,
                        k as int,
                    ).0,
                    forest_report(em, term@, n, 0).1 == forest_report(em, term@, n, k as int).1,
                decreases entries.len() - k,
            {
                proof {
                    assert(decreases_to!(*node => (*node)->Dir_entries));
                    assert(decreases_to!((*node)->Dir_entries => (*node)->Dir_entries@));
                    assert(decreases_to!((*node)->Dir_entries@ => (*node)->Dir_entries@[
                        k as int
                    ]));
                    assert((*node)->Dir_entries@[k as int] == entries@[k as int]);
                }
                let (mut sub, aborted) = recursive_search(&entries[k], term, number_lines);
                let ghost subm = emitted_view(sub@);
                let ghost out0 = emitted_view(out@);
                out.append(&mut sub);
                proof {
                    assert(entries@[k as int]@ == em[k as int]);
                    assert(emitted_view(out@) =~= out0 + subm) by {
                        assert(forall|j: int|
                            0 <= j < out@.len() ==> #[trigger] out@[j]@ == emitted_view(out@)[j]);
                    }
                }
                if aborted {
                    proof {
                        assert(forest_report(em, term@, n, k as int).0 =~= subm);
                        assert(forest_report(em, term@, n, k as int).1);
                        assert(emitted_view(out@) =~= forest_report(em, term@, n, 0).0);
                        assert(tree_report(node@, term@, n) == forest_report(em, term@, n, 0));
                    }
                    return (out, true);
                }
                proof {
                    assert(forest_report(em, term@, n, k as int).0 =~= subm + forest_report(
                        em,
                        term@,
                        n,
                        k + 1,
                    ).0);
                    assert(emitted_view(out@) + forest_report(em, term@, n, k + 1).0
                        =~= out0 + forest_report(em, term@, n, k as int).0);
                }
                k += 1;
            }
            proof {
                assert(forest_report(em, term@, n, k as int).0 =~= Seq::<EmittedModel>::empty());
                assert(emitted_view(out@) + Seq::<EmittedModel>::empty() =~= emitted_view(out@));
                assert(emitted_view(out@) =~= forest_report(em, term@, n, 0).0);
                assert(tree_report(node@, term@, n) == forest_report(em, term@, n, 0));
                assert(!forest_report(em, term@, n, 0).1);
            }
            (out, false)
        },
    }
}

/// The scan configuration is valid exactly when the term is non-empty and
/// the context size fits the allowed range.
pub fn validate_config(term: &str, context_size: usize) -> (r: Result<(), SearchError>)
    ensures
        r is Ok <==> (term@.len() > 0 && context_size <= 255),
        r is Err ==> r->Err_0 == SearchError::Configuration,
{
    if term.unicode_len() == 0 || context_size > 255 {
        Err(SearchError::Configuration)
    } else {
        Ok(())
    }
}

/// A recursive scan's target is valid exactly when it exists and is not a
/// regular file: anything else is a configuration error, reported before any
/// file is scanned.
pub fn check_search_root(present: bool, is_file: bool) -> (r: Result<(), SearchError>)
    ensures
        r is Ok <==> (present && !is_file),
        r is Err ==> r->Err_0 == SearchError::Configuration,
{
    if !present || is_file {
        Err(SearchError::Configuration)
    } else {
        Ok(())
    }
}

} // verus!
