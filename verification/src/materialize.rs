//! What is to be done to make a rebase real, and how it is checked.

use crate::commit::opt_name;
use crate::creation::Editor;
use crate::editor_graph::{EditorGraph, EditorGraphIndex, EditorView};
use crate::materialize_laws::law_checkouts;
use crate::names::{
    id_hex, opt_id_debug, opt_id_debug_text, ref_text, short_ref_name, ObjectId, RefName,
};
use crate::placements::Checkout;
use crate::positions::resolve_to_pick;
use crate::stacks::{
    stack_segments_view, stacks_view, Stack, StackSegment, StackSegmentView, StackView,
};
use crate::step::{Step, StepView};
use crate::text::{join, join_text, texts};
use vstd::prelude::*;
use vstd::string::*;

verus! {

/// What a reference points at.
#[derive(Debug)]
pub enum Target {
    /// An object.
    Object(ObjectId),
    /// Another reference.
    Symbolic(RefName),
}

/// What has to hold of a reference before it is changed.
#[derive(Debug)]
pub enum PreviousValue {
    /// Nothing.
    Any,
    /// It exists.
    MustExist,
    /// It does not exist.
    MustNotExist,
    /// It exists and points at this.
    MustExistAndMatch(Target),
    /// It points at this, if it exists.
    ExistingMustMatch(Target),
}

/// Whether the log of a reference is changed alone.
#[derive(Debug, Clone, Copy, PartialEq, Eq, Structural)]
pub enum RefLog {
    /// The reference and its log are changed.
    AndReference,
    /// Only the log is changed.
    Only,
}

/// How the log of a reference is changed.
#[derive(Debug)]
pub struct LogChange {
    /// Whether the log is changed alone.
    pub mode: RefLog,
    /// Whether a log is made where there is none.
    pub force_create_reflog: bool,
    /// The message in the log.
    pub message: Vec<u8>,
}

/// How a reference is changed.
#[derive(Debug)]
pub enum Change {
    /// It is made or set.
    Update {
        /// How its log is changed.
        log: LogChange,
        /// What has to hold of it before.
        expected: PreviousValue,
        /// What it points at then.
        new: Target,
    },
    /// It is removed.
    Delete {
        /// What has to hold of it before.
        expected: PreviousValue,
        /// Whether only its log is removed.
        mode: RefLog,
    },
}

/// A change of a reference.
#[derive(Debug)]
pub struct RefEdit {
    /// The change.
    pub change: Change,
    /// The name of the reference.
    pub name: Vec<u8>,
    /// Whether what the reference points at is changed in its place.
    pub deref: bool,
}

/// A rebase that went well and is not real yet.
pub struct SuccessfulRebase<R, H, W, M> {
    /// The graph.
    pub graph: EditorGraph,
    /// The names of the references that may be moved.
    pub initial_references: Vec<RefName>,
    /// How references are to be changed.
    pub ref_edits: Vec<RefEdit>,
    /// What is to be checked out.
    pub checkouts: Vec<Checkout>,
    /// The repository.
    pub repo: R,
    /// What the steps were before they were edited.
    pub history: H,
    /// The workspace.
    pub workspace: W,
    /// The metadata of references.
    pub meta: M,
}

/// What is left of a rebase once it is real.
pub struct MaterializeOutcome<H, W, M> {
    /// The graph.
    pub graph: EditorGraph,
    /// What the steps were before they were edited.
    pub history: H,
    /// The workspace.
    pub workspace: W,
    /// The metadata of references.
    pub meta: M,
}

/// Why something cannot be checked out.
#[derive(Debug, Clone, Copy, PartialEq, Eq, Structural)]
pub enum MaterializeError {
    /// The selector points at nothing.
    SelectsNothing,
    /// There is no commit that the reference could be at.
    NoCommitToReference,
}

impl MaterializeError {
    /// The message of the error.
    pub open spec fn message(self) -> Seq<char> {
        match self {
            MaterializeError::SelectsNothing => "Checkout selector is pointing to none"@,
            MaterializeError::NoCommitToReference => "No commit to reference"@,
        }
    }

    /// The message of the error.
    pub fn to_text(&self) -> (r: String)
        ensures
            r@ == self.message(),
    {
        match self {
            MaterializeError::SelectsNothing => {
                "Checkout selector is pointing to none".to_string()
            },
            MaterializeError::NoCommitToReference => "No commit to reference".to_string(),
        }
    }
}

/// How a commit is checked out.
#[derive(Debug, Clone, Copy, PartialEq, Eq, Structural)]
pub struct CheckoutOptions {
    /// Whether `HEAD` stays as it is.
    pub skip_head_update: bool,
    /// The commit to take for the merge base.
    pub merge_base_override: Option<ObjectId>,
    /// Whether a commit with conflicts may be checked out.
    pub allow_conflicted_commit_checkout: bool,
}

/// A commit to check out from where `HEAD` is.
#[derive(Debug, Clone, Copy, PartialEq, Eq, Structural)]
pub struct CheckoutStep {
    /// The commit.
    pub new_head: ObjectId,
    /// How it is checked out.
    pub options: CheckoutOptions,
}

/// The commit that is selected, and the name of the reference if one is.
pub open spec fn selected(graph: EditorView, ix: EditorGraphIndex) -> Result<
    (ObjectId, Option<Seq<u8>>),
    MaterializeError,
> {
    match graph.step(ix) {
        StepView::Blank => Err(MaterializeError::SelectsNothing),
        StepView::Pick(pick) => Ok((pick.id, None)),
        StepView::Reference(name) => match graph.resolve(ix) {
            None => Err(MaterializeError::NoCommitToReference),
            Some(pick) => Ok((graph.commit_id(pick)->0, Some(name))),
        },
    }
}

/// What the checkout selects.
pub open spec fn checkout_index(checkout: Checkout) -> EditorGraphIndex {
    let Checkout::Head { selector, .. } = checkout;
    selector.id
}

/// The checkout as a step, when it selects the commit.
pub open spec fn checkout_step(checkout: Checkout, new_head: ObjectId) -> CheckoutStep {
    let Checkout::Head { merge_base_override, .. } = checkout;
    CheckoutStep {
        new_head,
        options: CheckoutOptions {
            skip_head_update: true,
            merge_base_override,
            allow_conflicted_commit_checkout: true,
        },
    }
}

/// What comes of the first `n` checkouts: the steps up to the first failure, the failure, and the
/// reference that the last one of them selects.
pub open spec fn checkout_plan(graph: EditorView, checkouts: Seq<Checkout>, n: int) -> (
    Seq<CheckoutStep>,
    Option<MaterializeError>,
    Option<Seq<u8>>,
)
    decreases n,
{
    if n <= 0 {
        (Seq::empty(), None, None)
    } else {
        let (steps, failure, name) = checkout_plan(graph, checkouts, n - 1);
        if failure is Some {
            (steps, failure, name)
        } else {
            match selected(graph, checkout_index(checkouts[n - 1])) {
                Err(e) => (steps, Some(e), name),
                Ok((id, refname)) => (
                    steps.push(checkout_step(checkouts[n - 1], id)),
                    None,
                    refname,
                ),
            }
        }
    }
}

/// The commit that is selected, and the name of the reference if one is.
fn find_selected(graph: &EditorGraph, ix: EditorGraphIndex) -> (r: Result<
    (ObjectId, Option<RefName>),
    MaterializeError,
>)
    ensures
        match (r, selected(graph@, ix)) {
            (Ok((id, name)), Ok((want, shown))) => id == want && opt_name(name) == shown,
            (Err(e), Err(f)) => e == f,
            _ => false,
        },
{
    match graph.step_view(ix) {
        Step::Blank => Err(MaterializeError::SelectsNothing),
        Step::Pick(pick) => Ok((pick.id, None)),
        Step::Reference { refname } => {
            match resolve_to_pick(graph, ix) {
                None => Err(MaterializeError::NoCommitToReference),
                Some(pick) => {
                    proof {
                        lemma_resolved(graph@, ix, crate::editor_graph::WALK_LIMIT as nat);
                    }
                    let id = graph.commit_id(pick).unwrap();
                    Ok((id, Some(refname)))
                },
            }
        },
    }
}

/// What something stands for is a commit.
proof fn lemma_resolved(graph: EditorView, ix: EditorGraphIndex, fuel: nat)
    ensures
        graph.resolve_in(ix, fuel) matches Some(pick) ==> graph.is_pick(pick),
    decreases fuel,
{
    if fuel > 0 && !graph.is_pick(ix) {
        match graph.position(ix) {
            Some(p) => {
                lemma_resolved(graph, p.on, (fuel - 1) as nat);
            },
            None => {
                if graph.parents(ix).len() > 0 {
                    lemma_resolved(graph, graph.parents(ix)[0], (fuel - 1) as nat);
                }
            },
        }
    }
}

/// What is to be done to make a rebase real: store its objects, check the commits out, fail if
/// there is a failure, change the references, and read the workspace anew.
pub struct Materialization<R, H, W, M> {
    /// The commits to check out, one after the other.
    pub checkouts: Vec<CheckoutStep>,
    /// Why nothing may be done after that.
    pub failure: Option<MaterializeError>,
    /// The reference that `HEAD` is to be at.
    pub head_reference_update: Option<RefName>,
    /// How references are to be changed, besides `HEAD`.
    pub ref_edits: Vec<RefEdit>,
    /// The repository.
    pub repo: R,
    /// What is left once all is done.
    pub outcome: MaterializeOutcome<H, W, M>,
}

/// What the rebase had stays as it is.
pub open spec fn carries_over<R, H, W, M>(
    m: Materialization<R, H, W, M>,
    rebase: SuccessfulRebase<R, H, W, M>,
) -> bool {
    &&& m.ref_edits == rebase.ref_edits
    &&& m.repo == rebase.repo
    &&& m.outcome.graph == rebase.graph
    &&& m.outcome.history == rebase.history
    &&& m.outcome.workspace == rebase.workspace
    &&& m.outcome.meta == rebase.meta
}

impl<R, H, W, M> SuccessfulRebase<R, H, W, M> {
    /// Converts the rebase back into an editor, to go on with more edits.
    pub fn into_editor(self) -> (r: Editor<R, H, W, M>)
        ensures
            r.graph == self.graph,
            r.initial_references == self.initial_references,
            r.checkouts == self.checkouts,
            r.repo == self.repo,
            r.history == self.history,
            r.workspace == self.workspace,
            r.meta == self.meta,
    {
        Editor {
            graph: self.graph,
            initial_references: self.initial_references,
            checkouts: self.checkouts,
            repo: self.repo,
            history: self.history,
            workspace: self.workspace,
            meta: self.meta,
        }
    }

    /// What is to be done to make the rebase real.
    pub fn materialize(self) -> (r: Materialization<R, H, W, M>)
        ensures
            carries_over(r, self),
            checkout_plan(self.graph@, self.checkouts@, self.checkouts@.len() as int) == (
                r.checkouts@,
                r.failure,
                opt_name(r.head_reference_update),
            ),
            r.failure is None <==> r.checkouts@.len() == self.checkouts@.len(),
            forall|i: int|
                0 <= i < r.checkouts@.len() ==> (self.checkouts@[i] matches Checkout::Head {
                    selector,
                    merge_base_override,
                } && (self.graph@.resolve(selector.id) matches Some(pick) && self.graph@.commit_id(
                    pick,
                ) == Some((#[trigger] r.checkouts@[i]).new_head))
                    && r.checkouts@[i].options.merge_base_override == merge_base_override),
    {
        proof {
            law_checkouts(self.graph@, self.checkouts@, self.checkouts@.len() as int);
        }
        let mut steps: Vec<CheckoutStep> = Vec::new();
        let mut failure: Option<MaterializeError> = None;
        let mut update: Option<RefName> = None;
        let mut i: usize = 0;
        while i < self.checkouts.len()
            invariant
                i <= self.checkouts@.len(),
                checkout_plan(self.graph@, self.checkouts@, i as int) == (
                    steps@,
                    failure,
                    opt_name(update),
                ),
            decreases self.checkouts.len() - i,
        {
            if failure.is_none() {
                let Checkout::Head { selector, merge_base_override } = self.checkouts[i];
                match find_selected(&self.graph, selector.id) {
                    Err(e) => {
                        failure = Some(e);
                    },
                    Ok((new_head, refname)) => {
                        update = refname;
                        steps.push(
                            CheckoutStep {
                                new_head,
                                options: CheckoutOptions {
                                    skip_head_update: true,
                                    merge_base_override,
                                    allow_conflicted_commit_checkout: true,
                                },
                            },
                        );
                    },
                }
            }
            i += 1;
        }
        Materialization {
            checkouts: steps,
            failure,
            head_reference_update: update,
            ref_edits: self.ref_edits,
            repo: self.repo,
            outcome: MaterializeOutcome {
                graph: self.graph,
                history: self.history,
                workspace: self.workspace,
                meta: self.meta,
            },
        }
    }

    /// What is to be done to make the rebase real without a checkout: what is not committed is not
    /// carried over from the old head to the new one.
    pub fn materialize_without_checkout(self) -> (r: Materialization<R, H, W, M>)
        ensures
            carries_over(r, self),
            r.checkouts@.len() == 0,
            r.failure is None,
            r.head_reference_update is None,
    {
        Materialization {
            checkouts: Vec::new(),
            failure: None,
            head_reference_update: None,
            ref_edits: self.ref_edits,
            repo: self.repo,
            outcome: MaterializeOutcome {
                graph: self.graph,
                history: self.history,
                workspace: self.workspace,
                meta: self.meta,
            },
        }
    }
}

/// The message that git logs for an operation on a commit with this message and that many parents.
pub uninterp spec fn reflog_message(operation: Seq<char>, message: Seq<u8>, num_parents: nat) -> Seq<
    u8,
>;

/// The bytes of a text in which each character takes one.
pub open spec fn ascii_bytes(text: Seq<char>) -> Seq<u8> {
    text.map_values(|c: char| c as u8)
}

/// Each character takes one byte.
pub open spec fn is_ascii_text(text: Seq<char>) -> bool {
    forall|i: int| 0 <= i < text.len() ==> (#[trigger] text[i] as int) < 128
}

/// The bytes are characters that can be seen.
pub open spec fn is_graphic(bytes: Seq<u8>) -> bool {
    forall|i: int| 0 <= i < bytes.len() ==> 0x21 <= #[trigger] bytes[i] <= 0x7e
}

/// Calls `gix::reference::log::message`. For a commit without parents it is the operation,
/// ` (initial): ` and the summary of the message, which is the message itself if that is all
/// characters that can be seen.
#[verifier::external_body]
fn gix_log_message(operation: &str, message: &Vec<u8>, num_parents: usize) -> (r: Vec<u8>)
    ensures
        r@ == reflog_message(operation@, message@, num_parents as nat),
        num_parents == 0 && is_ascii_text(operation@) && is_graphic(message@) ==> r@ == ascii_bytes(
            operation@,
        ) + ascii_bytes(" (initial): "@) + message@,
{
    gix::reference::log::message(
        operation,
        gix::bstr::BStr::new(message.as_slice()),
        num_parents,
    ).into()
}

/// The name of what is checked out.
pub open spec fn head() -> Seq<u8> {
    seq![72u8, 69, 65, 68]
}

/// The edit points `HEAD` at the reference, whatever it was before.
pub open spec fn points_head_at(edit: RefEdit, name: Seq<u8>) -> bool {
    &&& edit.name@ == head()
    &&& !edit.deref
    &&& edit.change matches Change::Update { log, expected, new }
    &&& log.mode == RefLog::AndReference
    &&& !log.force_create_reflog
    &&& log.message@ == reflog_message("safe checkout"@, short_ref_name(name), 0)
    &&& expected is Any
    &&& new matches Target::Symbolic(n)
    &&& n@ == name
}

impl<R, H, W, M> Materialization<R, H, W, M> {
    /// All edits of references, once it is known what `HEAD` is at: `HEAD` is changed last, and only
    /// if it is to be at another reference.
    pub fn all_ref_edits(self, head_name: &Option<RefName>) -> (r: (
        Vec<RefEdit>,
        R,
        MaterializeOutcome<H, W, M>,
    ))
        ensures
            r.1 == self.repo,
            r.2 == self.outcome,
            match self.head_reference_update {
                Some(name) if opt_name(*head_name) != Some(name@) => {
                    &&& r.0@.len() == self.ref_edits@.len() + 1
                    &&& r.0@.drop_last() == self.ref_edits@
                    &&& points_head_at(r.0@.last(), name@)
                },
                _ => r.0@ == self.ref_edits@,
            },
    {
        let ghost given = self.ref_edits@;
        let mut edits = self.ref_edits;
        if let Some(refname) = self.head_reference_update {
            let already: bool = match head_name {
                Some(current) => current.same(&refname),
                None => false,
            };
            if !already {
                let short = refname.shorten();
                let mut name: Vec<u8> = Vec::new();
                name.push(72);
                name.push(69);
                name.push(65);
                name.push(68);
                assert(name@ =~= head());
                let edit = RefEdit {
                    change: Change::Update {
                        log: LogChange {
                            mode: RefLog::AndReference,
                            force_create_reflog: false,
                            message: gix_log_message("safe checkout", &short, 0),
                        },
                        expected: PreviousValue::Any,
                        new: Target::Symbolic(refname),
                    },
                    name,
                    deref: false,
                };
                edits.push(edit);
                assert(edits@.drop_last() =~= given);
            }
        }
        (edits, self.repo, self.outcome)
    }
}

/// The name as it stands in a fingerprint.
pub open spec fn shown_name(name: Option<Seq<u8>>) -> Seq<char> {
    match name {
        Some(name) => ref_text(name),
        None => "<anon>"@,
    }
}

/// The line for a segment.
pub open spec fn segment_line(segment: StackSegmentView) -> Seq<char> {
    "  "@ + shown_name(segment.name) + " base="@ + opt_id_debug(segment.base) + " commits=["@ + join(
        segment.commits.map_values(|id: ObjectId| id_hex(id)),
        ", "@,
    ) + "]\n"@
}

/// The lines for the first `n` segments.
pub open spec fn segment_lines(segments: Seq<StackSegmentView>, n: int) -> Seq<char>
    decreases n,
{
    if n <= 0 {
        Seq::empty()
    } else {
        segment_lines(segments, n - 1) + segment_line(segments[n - 1])
    }
}

/// The lines for a stack.
pub open spec fn stack_lines(stack: StackView) -> Seq<char> {
    "stack "@ + stack.id + "\n"@ + segment_lines(stack.segments, stack.segments.len() as int)
}

/// The lines for the first `n` stacks.
pub open spec fn fingerprint(stacks: Seq<StackView>, n: int) -> Seq<char>
    decreases n,
{
    if n <= 0 {
        Seq::empty()
    } else {
        fingerprint(stacks, n - 1) + stack_lines(stacks[n - 1])
    }
}

/// The ids of the commits as they stand in a fingerprint.
fn ids_text(ids: &Vec<ObjectId>) -> (r: String)
    ensures
        r@ == join(ids@.map_values(|id: ObjectId| id_hex(id)), ", "@),
{
    let mut parts: Vec<String> = Vec::new();
    let mut i: usize = 0;
    assert(texts(parts@) =~= ids@.take(0).map_values(|id: ObjectId| id_hex(id)));
    while i < ids.len()
        invariant
            i <= ids@.len(),
            texts(parts@) == ids@.take(i as int).map_values(|id: ObjectId| id_hex(id)),
        decreases ids.len() - i,
    {
        let ghost before = parts@;
        let part = ids[i].to_hex();
        parts.push(part);
        assert(texts(parts@) =~= texts(before).push(part@));
        assert(texts(parts@) =~= ids@.take(i + 1).map_values(|id: ObjectId| id_hex(id)));
        i += 1;
    }
    assert(ids@.take(i as int) =~= ids@);
    join_text(&parts, ", ")
}

/// Add the line for the segment.
fn push_segment_line(out: &mut String, segment: &StackSegment)
    ensures
        final(out)@ == old(out)@ + segment_line(segment@),
{
    let ghost before = out@;
    let name = match &segment.name {
        Some(name) => name.to_text(),
        None => "<anon>".to_string(),
    };
    let base = opt_id_debug_text(segment.base);
    let commits = ids_text(&segment.commits);
    let mut line = "  ".to_string();
    line.append(name.as_str());
    line.append(" base=");
    line.append(base.as_str());
    line.append(" commits=[");
    line.append(commits.as_str());
    line.append("]\n");
    assert(line@ == segment_line(segment@));
    out.append(line.as_str());
}

/// What has to be the same of two projections of a workspace, as a text: the ids of stacks, the
/// names of segments, and the commits and bases of each segment.
pub fn projection_fingerprint(stacks: &Vec<Stack>) -> (r: String)
    ensures
        r@ == fingerprint(stacks_view(stacks@), stacks@.len() as int),
{
    let ghost all = stacks_view(stacks@);
    let mut out = String::new();
    let mut i: usize = 0;
    assert(out@ =~= fingerprint(all, 0));
    while i < stacks.len()
        invariant
            i <= stacks@.len(),
            all == stacks_view(stacks@),
            out@ == fingerprint(all, i as int),
        decreases stacks.len() - i,
    {
        let stack = &stacks[i];
        assert(all[i as int] == stack@);
        let mut lines = "stack ".to_string();
        lines.append(stack.id.as_str());
        lines.append("\n");
        let ghost title = lines@;
        let ghost segments = stack@.segments;
        let mut j: usize = 0;
        assert(title =~= title + segment_lines(segments, 0));
        while j < stack.segments.len()
            invariant
                j <= stack.segments@.len(),
                segments == stack_segments_view(stack.segments@),
                lines@ == title + segment_lines(segments, j as int),
            decreases stack.segments.len() - j,
        {
            assert(segments[j as int] == stack.segments@[j as int]@);
            push_segment_line(&mut lines, &stack.segments[j]);
            proof {
                crate::seqs::lemma_add_assoc(
                    title,
                    segment_lines(segments, j as int),
                    segment_line(segments[j as int]),
                );
            }
            j += 1;
        }
        assert(lines@ == stack_lines(stack@));
        out.append(lines.as_str());
        i += 1;
    }
    out
}

/// The report of two projections that are not the same.
pub open spec fn divergence(mutated: Seq<char>, rewalked: Seq<char>) -> Seq<char> {
    "WRITE-THROUGH DIVERGENCE\n--- mutate-then-project\n"@ + mutated
        + "\n--- rewalk-then-project\n"@ + rewalked
}

/// What the projection of the edited graph, if there is one, and that of the graph that was read
/// anew differ in.
pub fn assert_write_through_parity(mutated: &Option<Vec<Stack>>, rewalked: &Vec<Stack>) -> (r: Option<
    String,
>)
    ensures
        match mutated {
            None => r is None,
            Some(stacks) => {
                let own = fingerprint(stacks_view(stacks@), stacks@.len() as int);
                let fresh = fingerprint(stacks_view(rewalked@), rewalked@.len() as int);
                match r {
                    None => own == fresh,
                    Some(report) => own != fresh && report@ == divergence(own, fresh),
                }
            },
        },
{
    let stacks = match mutated {
        Some(stacks) => stacks,
        None => return None,
    };
    let own = projection_fingerprint(stacks);
    let fresh = projection_fingerprint(rewalked);
    if own == fresh {
        return None;
    }
    let mut report = "WRITE-THROUGH DIVERGENCE\n--- mutate-then-project\n".to_string();
    report.append(own.as_str());
    report.append("\n--- rewalk-then-project\n");
    report.append(fresh.as_str());
    Some(report)
}

} // verus!
