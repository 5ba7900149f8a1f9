//! The step graph of the commits that are in reach of what is edited, with the empty branches of
//! the workspace spliced in.

use crate::collections::{SortedMap, SortedSet};
use crate::commit::{clone_ids, names_view, opt_name, ref_names, CommitView, RefInfo};
use crate::commit_graph::{last_index, lemma_last_index, linked, CommitGraph};
use crate::creation::{pick_for, settings_for, PickDefaults};
use crate::derivation::DeriveError;
use crate::generation_laws::distinct_ids;
use crate::names::{ObjectId, RefName};
use crate::reach::{closed_under, reachable, steps_of, visit_all, Successors};
use crate::segment_graph::{flat_commits, graph_links, SegmentGraph, SegmentIndex, SegmentView};
use crate::seqs::{
    first_among, first_where, lemma_filter_none, lemma_filter_take, lemma_first_among,
    lemma_take_all,
};
use crate::stacks::{stack_segments_view, stacks_view, Stack, StackSegmentView, StackView};
use crate::step::{Pick, PickView, Step, StepView};
use crate::step_builder::{built, edges_within, put_edge, put_step, start_graph};
use crate::step_graph::{Edge, EdgeRecord, StepGraph, StepGraphIndex};
use vstd::prelude::*;
use vstd::string::*;

verus! {

/// The parents of the commit `id` that are in the graph, over connections that the traversal
/// followed.
pub open spec fn follows(
    commits: Seq<CommitView>,
    links: Option<Set<(ObjectId, ObjectId)>>,
    id: ObjectId,
) -> spec_fn(ObjectId) -> bool {
    |p: ObjectId| last_index(commits, p) is Some && linked(links, id, p)
}

/// The parents of the commit `id` that are in the graph, over connections that the traversal
/// followed.
pub open spec fn connected_parents(
    commits: Seq<CommitView>,
    links: Option<Set<(ObjectId, ObjectId)>>,
    id: ObjectId,
) -> Seq<ObjectId> {
    match last_index(commits, id) {
        Some(i) => commits[i as int].parent_ids.filter(follows(commits, links, id)),
        None => Seq::empty(),
    }
}

/// The connected parents, as a function.
pub open spec fn parent_steps(
    commits: Seq<CommitView>,
    links: Option<Set<(ObjectId, ObjectId)>>,
) -> spec_fn(ObjectId) -> Seq<ObjectId> {
    |id: ObjectId| connected_parents(commits, links, id)
}

/// The ids of the commits.
pub open spec fn all_ids(commits: Seq<CommitView>) -> Set<ObjectId> {
    commits.map_values(|c: CommitView| c.id).to_set()
}

impl CommitGraph {
    /// The parents of the commit `id` that are in the graph, over connections that the traversal
    /// followed, the first parent first.
    pub fn connected_parents(&self, id: ObjectId) -> (r: Vec<ObjectId>)
        requires
            self.wf(),
        ensures
            r@ == connected_parents(self.commits(), self.links(), id),
    {
        let ghost commits = self.commits();
        let ghost keep = follows(commits, self.links(), id);
        let mut r: Vec<ObjectId> = Vec::new();
        if let Some(n) = self.node(id) {
            let parent_ids = &n.commit.parent_ids;
            proof {
                lemma_last_index(commits, id);
                lemma_filter_none(parent_ids@, keep);
            }
            assert(commits[self.index(id)->0 as int].parent_ids == parent_ids@);
            let mut i: usize = 0;
            while i < parent_ids.len()
                invariant
                    i <= parent_ids@.len(),
                    self.wf(),
                    commits == self.commits(),
                    keep == follows(commits, self.links(), id),
                    r@ == parent_ids@.take(i as int).filter(keep),
                decreases parent_ids.len() - i,
            {
                proof {
                    lemma_filter_take(parent_ids@, keep, i as int);
                }
                let p = parent_ids[i];
                assert(self.by_id@.dom().contains(p) <==> last_index(commits, p) is Some);
                if self.by_id.contains_key(&p) && self.is_connected(id, p) {
                    r.push(p);
                }
                i += 1;
            }
            proof {
                lemma_take_all(parent_ids@);
            }
        }
        r
    }
}

impl Successors<ObjectId> for CommitGraph {
    open spec fn valid(&self) -> bool {
        self.wf()
    }

    open spec fn next(&self, x: ObjectId) -> Seq<ObjectId> {
        connected_parents(self.commits(), self.links(), x)
    }

    open spec fn universe(&self) -> Set<ObjectId> {
        all_ids(self.commits())
    }

    proof fn lemma_universe(&self) {
        let commits = self.commits();
        let ids = commits.map_values(|c: CommitView| c.id);
        assert forall|x: ObjectId, y: ObjectId| #[trigger]
            self.next(x).contains(y) implies self.universe().contains(y) by {
            let i = last_index(commits, x)->0 as int;
            crate::seqs::lemma_filter_contains(
                commits[i].parent_ids,
                follows(commits, self.links(), x),
                y,
            );
            lemma_last_index(commits, y);
            let j = choose|j: int| 0 <= j < commits.len() && #[trigger] commits[j].id == y;
            assert(ids[j] == y);
        }
    }

    fn successors(&self, x: ObjectId) -> (r: Vec<ObjectId>) {
        self.connected_parents(x)
    }
}

/// The commits that are reachable from the entries.
pub open spec fn scope_of(
    commits: Seq<CommitView>,
    links: Option<Set<(ObjectId, ObjectId)>>,
    entries: Seq<ObjectId>,
) -> Set<ObjectId> {
    Set::new(|id: ObjectId| reachable(parent_steps(commits, links), entries, id))
}

/// Whether what an extra reference is on may be changed.
#[derive(Debug, Clone, Copy, PartialEq, Eq, Structural)]
pub enum ExtraRefMutability {
    /// It may.
    Mutable,
    /// It may not.
    Immutable,
}

/// An extra reference, and where it was found.
#[derive(Debug)]
pub struct ExtraEntry {
    /// The name of the reference.
    pub name: RefName,
    /// Whether what it is on may be changed.
    pub mutability: ExtraRefMutability,
    /// The segment where it is, and the commit that it is on.
    pub found: Option<(SegmentIndex, ObjectId)>,
}

/// References on segments without commits, one on top of the other.
#[derive(Debug)]
pub struct RestingChain {
    /// The names of the references, from the top down.
    pub refs: Vec<RefName>,
    /// Whether something leads to the chain.
    pub fed: bool,
    /// The commit that the chain rests on.
    pub below: Option<ObjectId>,
}

/// What a [`RestingChain`] stands for.
#[verifier::ext_equal]
pub struct RestingChainView {
    /// The names of the references, from the top down.
    pub refs: Seq<Seq<u8>>,
    /// Whether something leads to the chain.
    pub fed: bool,
    /// The commit that the chain rests on.
    pub below: Option<ObjectId>,
}

impl View for RestingChain {
    type V = RestingChainView;

    open spec fn view(&self) -> RestingChainView {
        RestingChainView { refs: names_view(self.refs@), fed: self.fed, below: self.below }
    }
}

/// What the chains stand for.
pub open spec fn chains_view(chains: Seq<RestingChain>) -> Seq<RestingChainView> {
    chains.map_values(|c: RestingChain| c@)
}

/// Empty branches between two commits of a stack.
#[derive(Debug)]
pub struct Splice {
    /// The commit above them.
    pub above: Option<ObjectId>,
    /// The commit that they rest on.
    pub below: Option<ObjectId>,
    /// The topmost of their references.
    pub top_ref: RefName,
}

/// What a [`Splice`] stands for.
#[verifier::ext_equal]
pub struct SpliceView {
    /// The commit above them.
    pub above: Option<ObjectId>,
    /// The commit that they rest on.
    pub below: Option<ObjectId>,
    /// The topmost of their references.
    pub top_ref: Seq<u8>,
}

impl View for Splice {
    type V = SpliceView;

    open spec fn view(&self) -> SpliceView {
        SpliceView { above: self.above, below: self.below, top_ref: self.top_ref@ }
    }
}

/// What the splices stand for.
pub open spec fn splices_view(splices: Seq<Splice>) -> Seq<SpliceView> {
    splices.map_values(|s: Splice| s@)
}

/// How far a stack was walked down.
#[verifier::ext_equal]
pub struct StackWalk {
    /// The last commit that was passed, or at first the workspace commit.
    pub above: Option<ObjectId>,
    /// The topmost reference of the empty branches since then.
    pub run_top: Option<Seq<u8>>,
    /// Whether a commit in scope was passed.
    pub reachable: bool,
    /// The splices that were passed.
    pub splices: Seq<SpliceView>,
}

/// The walk down the first `n` segments of a stack.
pub open spec fn stack_walk(
    segments: Seq<StackSegmentView>,
    workspace_commit_id: Option<ObjectId>,
    scope: Set<ObjectId>,
    n: int,
) -> StackWalk
    decreases n,
{
    if n <= 0 {
        StackWalk {
            above: workspace_commit_id,
            run_top: None,
            reachable: workspace_commit_id matches Some(ws) && scope.contains(ws),
            splices: Seq::empty(),
        }
    } else {
        let before = stack_walk(segments, workspace_commit_id, scope, n - 1);
        let segment = segments[n - 1];
        if segment.commits.len() == 0 {
            StackWalk {
                run_top: if before.run_top is None {
                    segment.name
                } else {
                    before.run_top
                },
                ..before
            }
        } else {
            let tip = segment.commits[0];
            StackWalk {
                above: Some(segment.commits.last()),
                run_top: None,
                reachable: before.reachable || scope.contains(tip),
                splices: match before.run_top {
                    Some(top_ref) => before.splices.push(
                        SpliceView { above: before.above, below: Some(tip), top_ref },
                    ),
                    None => before.splices,
                },
            }
        }
    }
}

/// The splices of a stack: empty branches at its bottom count if a commit in scope is above them,
/// and rest on the base of the stack.
pub open spec fn stack_splices(
    stack: StackView,
    workspace_commit_id: Option<ObjectId>,
    scope: Set<ObjectId>,
) -> Seq<SpliceView> {
    let n = stack.segments.len() as int;
    let walk = stack_walk(stack.segments, workspace_commit_id, scope, n);
    match walk.run_top {
        Some(top_ref) => if walk.reachable {
            walk.splices.push(
                SpliceView { above: walk.above, below: stack.segments[n - 1].base, top_ref },
            )
        } else {
            walk.splices
        },
        None => walk.splices,
    }
}

/// The splices of the first `n` stacks.
pub open spec fn splices_upto(
    stacks: Seq<StackView>,
    workspace_commit_id: Option<ObjectId>,
    scope: Set<ObjectId>,
    n: int,
) -> Seq<SpliceView>
    decreases n,
{
    if n <= 0 {
        Seq::empty()
    } else {
        splices_upto(stacks, workspace_commit_id, scope, n - 1) + stack_splices(
            stacks[n - 1],
            workspace_commit_id,
            scope,
        )
    }
}

/// Whether the commits that the splice is between are in scope, as far as there are any.
pub open spec fn splice_in(scope: Set<ObjectId>) -> spec_fn(SpliceView) -> bool {
    |s: SpliceView|
        (s.above matches Some(a) ==> scope.contains(a)) && (s.below matches Some(b)
            ==> scope.contains(b))
}

/// The splices that count.
pub open spec fn all_splices(
    stacks: Seq<StackView>,
    workspace_commit_id: Option<ObjectId>,
    scope: Set<ObjectId>,
) -> Seq<SpliceView> {
    splices_upto(stacks, workspace_commit_id, scope, stacks.len() as int).filter(splice_in(scope))
}

/// Whether the splice is between the two commits.
pub open spec fn between(above: ObjectId, below: ObjectId) -> spec_fn(SpliceView) -> bool {
    |s: SpliceView| s.above == Some(above) && s.below == Some(below)
}

/// Whether a chain is there: something leads to it or one of its references is required, it rests on
/// a commit in scope, and it has references.
pub open spec fn chain_counts(scope: Set<ObjectId>, required: Set<Seq<u8>>) -> spec_fn(
    RestingChainView,
) -> bool {
    |c: RestingChainView|
        (c.fed || exists|i: int| 0 <= i < c.refs.len() && required.contains(#[trigger] c.refs[i]))
            && (c.below matches Some(b) && scope.contains(b)) && c.refs.len() > 0
}

/// The references as steps.
pub open spec fn ref_steps(names: Seq<Seq<u8>>) -> Seq<StepView> {
    names.map_values(|n: Seq<u8>| StepView::Reference(n))
}

/// Edges from each of `len` steps to the next one.
pub open spec fn chain_edges(start: int, len: int) -> Seq<EdgeRecord> {
    Seq::new(
        if len > 0 {
            (len - 1) as nat
        } else {
            0
        },
        |i: int|
            EdgeRecord {
                source: (start + i) as usize,
                target: (start + i + 1) as usize,
                weight: Edge { order: 0 },
            },
    )
}

/// What the step graph is made of.
pub struct NativePlan {
    /// The commits in scope, in the order of the graph. One that is there more than once is each
    /// time what it is the last time.
    pub commits: Seq<CommitView>,
    /// Their ids.
    pub scope: Set<ObjectId>,
    /// The connections that the traversal followed.
    pub links: Option<Set<(ObjectId, ObjectId)>>,
    /// The managed workspace commit.
    pub workspace_commit_id: Option<ObjectId>,
    /// The commits that merges reach without the references on them.
    pub merge_bypass: Set<ObjectId>,
    /// The splices that count.
    pub splices: Seq<SpliceView>,
    /// The chains that count.
    pub chains: Seq<RestingChainView>,
    /// How commits are picked.
    pub defaults: PickDefaults,
    /// Whether picked commits are signed.
    pub sign: Seq<char>,
}

impl NativePlan {
    /// Whether a parent of the commit is not in scope.
    pub open spec fn has_missing(self, commit: CommitView) -> bool {
        exists|i: int|
            0 <= i < commit.parent_ids.len() && !self.scope.contains(
                #[trigger] commit.parent_ids[i],
            )
    }

    /// Whether a connection of the commit was cut although all its parents are in scope. The
    /// workspace commit does not count.
    pub open spec fn severed(self, commit: CommitView) -> bool {
        &&& !self.has_missing(commit)
        &&& Some(commit.id) != self.workspace_commit_id
        &&& exists|i: int|
            0 <= i < commit.parent_ids.len() && !linked(
                self.links,
                commit.id,
                #[trigger] commit.parent_ids[i],
            )
    }

    /// The commit at `k` as a step; where a parent is not in scope, it keeps its parents the last
    /// time that it is there.
    pub open spec fn pick(self, k: int) -> PickView {
        let commit = self.commits[k];
        PickView {
            id: commit.id,
            settings: settings_for(self.defaults, self.sign, self.workspace_commit_id, commit.id),
            preserved_parents: if self.has_missing(commit) && last_index(self.commits, commit.id)
                == Some(k as usize) {
                Some(commit.parent_ids)
            } else {
                None
            },
            mutable: self.defaults.mutable,
        }
    }

    /// The commit at `k` as steps: the references on it, and the commit itself.
    pub open spec fn block(self, k: int) -> Seq<StepView> {
        ref_steps(self.commits[k].refs).push(StepView::Pick(self.pick(k)))
    }

    /// The first `n` commits as steps.
    pub open spec fn blocks(self, n: int) -> Seq<StepView>
        decreases n,
    {
        if n <= 0 {
            Seq::empty()
        } else {
            self.blocks(n - 1) + self.block(n - 1)
        }
    }

    /// The edges within the steps of the first `n` commits.
    pub open spec fn block_edges(self, n: int) -> Seq<EdgeRecord>
        decreases n,
    {
        if n <= 0 {
            Seq::empty()
        } else {
            self.block_edges(n - 1) + chain_edges(
                self.blocks(n - 1).len() as int,
                self.block(n - 1).len() as int,
            )
        }
    }

    /// The step of the commit `id`, the last one where it is there more than once.
    pub open spec fn pick_node(self, id: ObjectId) -> int {
        self.blocks(last_index(self.commits, id)->0 + 1).len() - 1
    }

    /// The topmost of the references on the commit `id`, or the commit itself if there are none;
    /// the first one where it is there more than once.
    pub open spec fn chain_top(self, id: ObjectId) -> int {
        self.blocks(first_where(self.commits, is_called(id))->0).len() as int
    }

    /// How many steps the commits are.
    pub open spec fn commit_steps(self) -> int {
        self.blocks(self.commits.len() as int).len() as int
    }

    /// The first `n` chains as steps.
    pub open spec fn chain_steps(self, n: int) -> Seq<StepView>
        decreases n,
    {
        if n <= 0 {
            Seq::empty()
        } else {
            self.chain_steps(n - 1) + ref_steps(self.chains[n - 1].refs)
        }
    }

    /// Where the steps of the chain start.
    pub open spec fn chain_start(self, k: int) -> int {
        self.commit_steps() + self.chain_steps(k).len()
    }

    /// The edges of the chain: from each reference to the next one, and from the last one to what
    /// the chain rests on.
    pub open spec fn resting_edges(self, k: int) -> Seq<EdgeRecord> {
        let len = self.chains[k].refs.len() as int;
        chain_edges(self.chain_start(k), len).push(
            EdgeRecord {
                source: (self.chain_start(k) + len - 1) as usize,
                target: self.chain_top(self.chains[k].below->0) as usize,
                weight: Edge { order: 0 },
            },
        )
    }

    /// The edges of the first `n` chains.
    pub open spec fn chains_edges(self, n: int) -> Seq<EdgeRecord>
        decreases n,
    {
        if n <= 0 {
            Seq::empty()
        } else {
            self.chains_edges(n - 1) + self.resting_edges(n - 1)
        }
    }

    /// The last of the first `n` chains with this reference at the top.
    pub open spec fn chain_with_top(self, name: Seq<u8>, n: int) -> Option<int>
        decreases n,
    {
        if n <= 0 {
            None
        } else if self.chains[n - 1].refs[0] == name {
            Some(n - 1)
        } else {
            self.chain_with_top(name, n - 1)
        }
    }

    /// All steps.
    pub open spec fn steps(self) -> Seq<StepView> {
        self.blocks(self.commits.len() as int) + self.chain_steps(self.chains.len() as int)
    }

    /// How many splices are between the two commits.
    pub open spec fn splice_count(self, above: ObjectId, below: ObjectId) -> nat {
        self.splices.filter(between(above, below)).len()
    }

    /// How many places of the parent come before the one at `i` of the commit at `k`, on commits
    /// with the same id.
    pub open spec fn places_before(self, k: int, i: int) -> nat {
        let commit = self.commits[k];
        let parents = commit.parent_ids;
        copies_before(self.commits, commit.id, k) * occurrences(
            parents,
            parents[i],
            parents.len() as int,
        ) + occurrences(parents, parents[i], i)
    }

    /// Whether the parent at `i` of the commit at `k` is reached through a splice: as many of the
    /// places of a parent are as there are splices to it.
    pub open spec fn diverted(self, k: int, i: int) -> bool {
        let commit = self.commits[k];
        &&& !self.severed(commit)
        &&& self.places_before(k, i) < self.splice_count(commit.id, commit.parent_ids[i])
    }

    /// The step that the commit is connected with for the parent at `i`: the commit itself where a
    /// connection was cut, or where a merge must not see the references on the parent; or else the
    /// topmost of these references.
    pub open spec fn parent_target(self, commit: CommitView, i: int) -> int {
        let parent = commit.parent_ids[i];
        let is_merge = commit.parent_ids.len() > 1 && Some(commit.id) != self.workspace_commit_id;
        if self.severed(commit) || (is_merge && self.merge_bypass.contains(parent)) {
            self.pick_node(parent)
        } else {
            self.chain_top(parent)
        }
    }

    /// The edges of the commit at `k` to its first `n` parents.
    pub open spec fn parent_edges(self, k: int, n: int) -> Seq<EdgeRecord>
        decreases n,
    {
        if n <= 0 {
            Seq::empty()
        } else {
            let commit = self.commits[k];
            let before = self.parent_edges(k, n - 1);
            if !self.scope.contains(commit.parent_ids[n - 1]) || self.diverted(k, n - 1) {
                before
            } else {
                before.push(
                    EdgeRecord {
                        source: self.pick_node(commit.id) as usize,
                        target: self.parent_target(commit, n - 1) as usize,
                        weight: Edge { order: (n - 1) as usize },
                    },
                )
            }
        }
    }

    /// How many of the first `n` splices are under the commit.
    pub open spec fn splices_under(self, id: ObjectId, n: int) -> nat
        decreases n,
    {
        if n <= 0 {
            0
        } else if self.splices[n - 1].above == Some(id) {
            self.splices_under(id, n - 1) + 1
        } else {
            self.splices_under(id, n - 1)
        }
    }

    /// The edges of the commit to the first `n` splices, behind those to its parents.
    pub open spec fn splice_edges(self, commit: CommitView, n: int) -> Seq<EdgeRecord>
        decreases n,
    {
        if n <= 0 {
            Seq::empty()
        } else {
            let before = self.splice_edges(commit, n - 1);
            let splice = self.splices[n - 1];
            match self.chain_with_top(splice.top_ref, self.chains.len() as int) {
                Some(k) => if splice.above == Some(commit.id) {
                    before.push(
                        EdgeRecord {
                            source: self.pick_node(commit.id) as usize,
                            target: self.chain_start(k) as usize,
                            weight: Edge {
                                order: (commit.parent_ids.len() + self.splices_under(
                                    commit.id,
                                    n - 1,
                                )) as usize,
                            },
                        },
                    )
                } else {
                    before
                },
                None => before,
            }
        }
    }

    /// All edges of the commit at `k`.
    pub open spec fn commit_edges(self, k: int) -> Seq<EdgeRecord> {
        let commit = self.commits[k];
        self.parent_edges(k, commit.parent_ids.len() as int) + self.splice_edges(
            commit,
            self.splices.len() as int,
        )
    }

    /// The edges of the first `n` commits.
    pub open spec fn commits_edges(self, n: int) -> Seq<EdgeRecord>
        decreases n,
    {
        if n <= 0 {
            Seq::empty()
        } else {
            self.commits_edges(n - 1) + self.commit_edges(n - 1)
        }
    }

    /// All edges.
    pub open spec fn edges(self) -> Seq<EdgeRecord> {
        self.block_edges(self.commits.len() as int) + self.chains_edges(self.chains.len() as int)
            + self.commits_edges(self.commits.len() as int)
    }
}

/// Whether a commit is the commit `id`.
pub open spec fn is_called(id: ObjectId) -> spec_fn(CommitView) -> bool {
    |c: CommitView| c.id == id
}

/// How many of the first `n` commits are the commit `id`.
pub open spec fn copies_before(commits: Seq<CommitView>, id: ObjectId, n: int) -> nat
    decreases n,
{
    if n <= 0 {
        0
    } else if commits[n - 1].id == id {
        copies_before(commits, id, n - 1) + 1
    } else {
        copies_before(commits, id, n - 1)
    }
}

/// How often `x` is among the first `n` elements.
pub open spec fn occurrences<A>(s: Seq<A>, x: A, n: int) -> nat
    decreases n,
{
    if n <= 0 {
        0
    } else if s[n - 1] == x {
        occurrences(s, x, n - 1) + 1
    } else {
        occurrences(s, x, n - 1)
    }
}

/// The names of those of the first `n` steps that are references.
pub open spec fn step_names(steps: Seq<StepView>, n: int) -> Seq<Seq<u8>>
    decreases n,
{
    if n <= 0 {
        Seq::empty()
    } else {
        match steps[n - 1] {
            StepView::Reference(name) => step_names(steps, n - 1).push(name),
            _ => step_names(steps, n - 1),
        }
    }
}

/// Those of the first `n` steps that are the reference.
pub open spec fn steps_named(steps: Seq<StepView>, name: Option<Seq<u8>>, n: int) -> Seq<
    StepGraphIndex,
>
    decreases n,
{
    if n <= 0 {
        Seq::empty()
    } else {
        let before = steps_named(steps, name, n - 1);
        match (steps[n - 1], name) {
            (StepView::Reference(own), Some(wanted)) => if own == wanted {
                before.push((n - 1) as usize)
            } else {
                before
            },
            _ => before,
        }
    }
}

/// What the step graph is made from.
pub struct NativeSource {
    /// The segments of the traversal.
    pub graph: SegmentGraph,
    /// The managed workspace commit that the entrypoint is at, if it is at one.
    pub workspace_commit_id: Option<ObjectId>,
    /// The first commit below the segment of the entrypoint, for one without commits.
    pub tip_below_entry: Option<ObjectId>,
    /// The references on segments without commits.
    pub resting_chains: Vec<RestingChain>,
    /// The commits that merges reach without the references on them.
    pub merge_bypass: SortedSet<ObjectId>,
    /// The stacks of the workspace.
    pub stacks: Vec<Stack>,
    /// The extra references.
    pub extra_refs: Vec<ExtraEntry>,
}

/// A step that is selected.
#[derive(Debug, Clone, Copy, PartialEq, Eq, Structural)]
pub struct StepSelector {
    /// The index of the step.
    pub id: StepGraphIndex,
    /// How often the graph was rebased before.
    pub revision: usize,
}

/// The step graph, and what is known beside it.
pub struct NativeParts {
    /// The graph.
    pub graph: StepGraph,
    /// The names of the references of the graph.
    pub references: Vec<RefName>,
    /// The references that are checked out.
    pub head_selectors: Vec<StepSelector>,
    /// The names of the references that may not be moved.
    pub immutable_references: SortedSet<RefName>,
}

/// The commits of those of the first `n` extra references that are like this.
pub open spec fn extra_commits(
    extra: Seq<ExtraEntry>,
    mutability: ExtraRefMutability,
    n: int,
) -> Seq<ObjectId>
    decreases n,
{
    if n <= 0 {
        Seq::empty()
    } else {
        let before = extra_commits(extra, mutability, n - 1);
        match extra[n - 1].found {
            Some((_, id)) => if extra[n - 1].mutability == mutability {
                before.push(id)
            } else {
                before
            },
            None => before,
        }
    }
}

/// The name of the first of the first `n` extra references that was not found.
pub open spec fn first_not_found(extra: Seq<ExtraEntry>, n: int) -> Option<Seq<u8>>
    decreases n,
{
    if n <= 0 {
        None
    } else {
        match first_not_found(extra, n - 1) {
            Some(name) => Some(name),
            None => if extra[n - 1].found is None {
                Some(extra[n - 1].name@)
            } else {
                None
            },
        }
    }
}

/// Whether the extra reference is on a segment without commits.
pub open spec fn on_empty(segments: Seq<SegmentView>, e: ExtraEntry) -> bool {
    e.found matches Some((s, _)) && segments[s as int].commits.len() == 0
}

/// The names of those of the first `n` extra references that are on segments without commits, and
/// are immutable if that is asked for.
pub open spec fn resting_names(
    segments: Seq<SegmentView>,
    extra: Seq<ExtraEntry>,
    immutable: bool,
    n: int,
) -> Set<Seq<u8>>
    decreases n,
{
    if n <= 0 {
        Set::empty()
    } else {
        let before = resting_names(segments, extra, immutable, n - 1);
        if on_empty(segments, extra[n - 1]) && (immutable ==> extra[n - 1].mutability
            == ExtraRefMutability::Immutable) {
            before.insert(extra[n - 1].name@)
        } else {
            before
        }
    }
}

/// The ids as a list.
pub open spec fn opt_list(id: Option<ObjectId>) -> Seq<ObjectId> {
    match id {
        Some(id) => seq![id],
        None => Seq::empty(),
    }
}

/// How many segments the first `n` stacks have.
pub open spec fn segments_total(stacks: Seq<StackView>, n: int) -> nat
    decreases n,
{
    if n <= 0 {
        0
    } else {
        segments_total(stacks, n - 1) + stacks[n - 1].segments.len()
    }
}

/// Whether the commit is in scope.
pub open spec fn commit_in_scope(scope: Set<ObjectId>) -> spec_fn(CommitView) -> bool {
    |c: CommitView| scope.contains(c.id)
}

/// The commits with these ids, each one as it is the last time.
pub open spec fn records(commits: Seq<CommitView>, some: Seq<CommitView>) -> Seq<CommitView> {
    some.map_values(|c: CommitView| commits[last_index(commits, c.id)->0 as int])
}

/// The names of the references on those of the first `n` commits that are in the set.
pub open spec fn names_on(commits: Seq<CommitView>, set: Set<ObjectId>, n: int) -> Set<Seq<u8>> {
    Set::new(
        |name: Seq<u8>|
            exists|i: int|
                0 <= i < n && set.contains(commits[i].id) && (#[trigger] commits[i]).refs.contains(
                    name,
                ),
    )
}

impl NativeSource {
    /// The commits of the commit graph.
    pub open spec fn commits(self) -> Seq<CommitView> {
        flat_commits(self.graph@)
    }

    /// The connections of the commit graph.
    pub open spec fn links(self) -> Option<Set<(ObjectId, ObjectId)>> {
        Some(graph_links(self.graph@, self.graph@.len() as int))
    }

    /// The segments are valid, what was found is in them, and what is counted can be counted.
    pub open spec fn wf(self) -> bool {
        &&& self.graph.wf()
        &&& flat_commits(self.graph@).len() * 2 <= u32::MAX
        &&& self.tip_below_entry matches Some(id) ==> last_index(self.commits(), id) is Some
        &&& forall|i: int|
            0 <= i < self.extra_refs@.len() && (#[trigger] self.extra_refs@[i]).found is Some ==> (
            self.extra_refs@[i].found->0).0 < self.graph@.len() && last_index(
                self.commits(),
                (self.extra_refs@[i].found->0).1,
            ) is Some
        &&& forall|i: int|
            0 <= i < self.commits().len() ==> (#[trigger] self.commits()[i]).parent_ids.len()
                + segments_total(stacks_view(self.stacks@), self.stacks@.len() as int)
                <= usize::MAX
    }

    /// The commit that is entered at: that of the entrypoint, or the first one below it.
    pub open spec fn entry(self) -> Option<ObjectId> {
        match self.graph.entry_commit() {
            Some((id, _)) => Some(id),
            None => self.tip_below_entry,
        }
    }

    /// The commits to enter at whose surroundings may be changed.
    pub open spec fn mutable_entries(self) -> Seq<ObjectId> {
        opt_list(self.entry()) + extra_commits(
            self.extra_refs@,
            ExtraRefMutability::Mutable,
            self.extra_refs@.len() as int,
        )
    }

    /// The commits to enter at whose surroundings may not be changed.
    pub open spec fn immutable_entries(self) -> Seq<ObjectId> {
        extra_commits(
            self.extra_refs@,
            ExtraRefMutability::Immutable,
            self.extra_refs@.len() as int,
        )
    }

    /// The commits that may be changed.
    pub open spec fn mutable_scope(self) -> Set<ObjectId> {
        scope_of(self.commits(), self.links(), self.mutable_entries())
    }

    /// The commits that are in reach.
    pub open spec fn scope(self) -> Set<ObjectId> {
        self.mutable_scope().union(
            scope_of(self.commits(), self.links(), self.immutable_entries()),
        )
    }

    /// The commits in reach, in the order of the graph. One that is there more than once is each
    /// time what it is the last time.
    pub open spec fn scoped(self) -> Seq<CommitView> {
        records(self.commits(), self.commits().filter(commit_in_scope(self.scope())))
    }

    /// The segment of the entrypoint.
    pub open spec fn entry_segment(self) -> SegmentView {
        self.graph@[(self.graph.entrypoint->0).0 as int]
    }

    /// The references whose chains are there even if nothing leads to them.
    pub open spec fn required(self) -> Set<Seq<u8>> {
        let extra = resting_names(
            self.graph@,
            self.extra_refs@,
            false,
            self.extra_refs@.len() as int,
        );
        if self.entry_segment().commits.len() == 0 && self.entry_segment().name is Some {
            extra.insert(self.entry_segment().name->0)
        } else {
            extra
        }
    }

    /// What the step graph is made of.
    pub open spec fn plan(self, defaults: PickDefaults, sign: Seq<char>) -> NativePlan {
        NativePlan {
            commits: self.scoped(),
            scope: self.scope(),
            links: self.links(),
            workspace_commit_id: self.workspace_commit_id,
            merge_bypass: self.merge_bypass@,
            splices: all_splices(
                stacks_view(self.stacks@),
                self.workspace_commit_id,
                self.scope(),
            ),
            chains: chains_view(self.resting_chains@).filter(
                chain_counts(self.scope(), self.required()),
            ),
            defaults,
            sign,
        }
    }

    /// The references that may not be moved: those on commits that may not be changed, and those
    /// extra ones that are on segments without commits and may not be.
    pub open spec fn immutable_names(self) -> Set<Seq<u8>> {
        resting_names(
            self.graph@,
            self.extra_refs@,
            true,
            self.extra_refs@.len() as int,
        ).union(
            names_on(
                self.scoped(),
                self.scope().difference(self.mutable_scope()),
                self.scoped().len() as int,
            ),
        )
    }
}

/// The stack walk down the segments.
fn walk_stack(
    stack: &Stack,
    workspace_commit_id: Option<ObjectId>,
    scope: &SortedSet<ObjectId>,
) -> (r: Vec<Splice>)
    ensures
        splices_view(r@) == stack_splices(stack@, workspace_commit_id, scope@),
{
    let ghost segments = stack@.segments;
    let mut above: Option<ObjectId> = workspace_commit_id;
    let mut run_top: Option<RefName> = None;
    let mut reachable: bool = match workspace_commit_id {
        Some(ws) => scope.contains(&ws),
        None => false,
    };
    let mut splices: Vec<Splice> = Vec::new();
    let mut i: usize = 0;
    assert(splices_view(splices@) =~= Seq::empty());
    while i < stack.segments.len()
        invariant
            i <= stack.segments@.len(),
            segments == stack_segments_view(stack.segments@),
            stack_walk(segments, workspace_commit_id, scope@, i as int) == (StackWalk {
                above,
                run_top: opt_name(run_top),
                reachable,
                splices: splices_view(splices@),
            }),
        decreases stack.segments.len() - i,
    {
        let segment = &stack.segments[i];
        assert(segments[i as int] == segment@);
        if segment.commits.len() == 0 {
            if run_top.is_none() {
                run_top = crate::commit::clone_opt_name(&segment.name);
            }
        } else {
            let tip = segment.commits[0];
            if scope.contains(&tip) {
                reachable = true;
            }
            let ghost before = splices@;
            if let Some(top_ref) = run_top {
                let splice = Splice { above, below: Some(tip), top_ref };
                splices.push(splice);
                assert(splices_view(splices@) =~= splices_view(before).push(splice@));
            }
            run_top = None;
            above = Some(segment.commits[segment.commits.len() - 1]);
        }
        i += 1;
    }
    if let Some(top_ref) = run_top {
        if reachable {
            let n: usize = stack.segments.len();
            let ghost before = splices@;
            proof {
                lemma_run_top(segments, workspace_commit_id, scope@, n as int);
                assert(segments[n - 1] == stack.segments@[n - 1]@);
            }
            let splice = Splice { above, below: stack.segments[n - 1].base, top_ref };
            splices.push(splice);
            assert(splices_view(splices@) =~= splices_view(before).push(splice@));
        }
    }
    splices
}

/// There is an empty branch at the end only where there are segments; and there are no more splices
/// than segments.
proof fn lemma_run_top(
    segments: Seq<StackSegmentView>,
    ws: Option<ObjectId>,
    scope: Set<ObjectId>,
    n: int,
)
    ensures
        ({
            let walk = stack_walk(segments, ws, scope, n);
            &&& walk.run_top is Some ==> n > 0
            &&& n >= 0 ==> walk.splices.len() + (if walk.run_top is Some {
                1int
            } else {
                0
            }) <= n
        }),
    decreases n,
{
    if n > 0 {
        lemma_run_top(segments, ws, scope, n - 1);
    }
}

proof fn lemma_splices_bound(
    stacks: Seq<StackView>,
    ws: Option<ObjectId>,
    scope: Set<ObjectId>,
    n: int,
)
    requires
        n <= stacks.len(),
    ensures
        splices_upto(stacks, ws, scope, n).len() <= segments_total(stacks, n),
    decreases n,
{
    if n > 0 {
        lemma_splices_bound(stacks, ws, scope, n - 1);
        let segments = stacks[n - 1].segments;
        lemma_run_top(segments, ws, scope, segments.len() as int);
    }
}

/// A filtered list is no longer than the list.
proof fn lemma_filter_len<A>(s: Seq<A>, keep: spec_fn(A) -> bool)
    ensures
        s.filter(keep).len() <= s.len(),
    decreases s.len(),
{
    reveal(Seq::filter);
    if s.len() > 0 {
        lemma_filter_len(s.drop_last(), keep);
    }
}

/// Whether the commits that the splice is between are in scope.
fn is_splice_in(splice: &Splice, scope: &SortedSet<ObjectId>) -> (r: bool)
    ensures
        r == splice_in(scope@)(splice@),
{
    let above: bool = match splice.above {
        Some(a) => scope.contains(&a),
        None => true,
    };
    let below: bool = match splice.below {
        Some(b) => scope.contains(&b),
        None => true,
    };
    above && below
}

/// The splices that count.
fn find_splices(
    stacks: &Vec<Stack>,
    workspace_commit_id: Option<ObjectId>,
    scope: &SortedSet<ObjectId>,
) -> (r: Vec<Splice>)
    ensures
        splices_view(r@) == all_splices(stacks_view(stacks@), workspace_commit_id, scope@),
        r@.len() <= segments_total(stacks_view(stacks@), stacks@.len() as int),
{
    let ghost all = stacks_view(stacks@);
    let ghost keep = splice_in(scope@);
    let mut r: Vec<Splice> = Vec::new();
    let mut i: usize = 0;
    let ghost mut found = Seq::<SpliceView>::empty();
    proof {
        lemma_filter_none(found, keep);
        assert(found.take(0) =~= found);
        assert(splices_view(r@) =~= found.filter(keep));
    }
    while i < stacks.len()
        invariant
            i <= stacks@.len(),
            all == stacks_view(stacks@),
            keep == splice_in(scope@),
            found == splices_upto(all, workspace_commit_id, scope@, i as int),
            splices_view(r@) == found.filter(keep),
        decreases stacks.len() - i,
    {
        assert(all[i as int] == stacks@[i as int]@);
        let own = walk_stack(&stacks[i], workspace_commit_id, scope);
        let ghost given = own@;
        let ghost own_view = splices_view(own@);
        let ghost before = found;
        for splice in it: own
            invariant
                it.seq() == given,
                own_view == splices_view(given),
                keep == splice_in(scope@),
                found == before + own_view.take(it.index() as int),
                splices_view(r@) == found.filter(keep),
        {
            let ghost held = r@;
            assert(splice@ == own_view[it.index() as int]);
            proof {
                let longer = before + own_view.take(it.index() + 1);
                assert(longer =~= found.push(splice@));
                reveal(Seq::filter);
                assert(longer.drop_last() =~= found);
                found = longer;
            }
            if is_splice_in(&splice, scope) {
                r.push(splice);
                assert(splices_view(r@) =~= splices_view(held).push(splice@));
            }
        }
        proof {
            assert(own_view.take(own_view.len() as int) =~= own_view);
            assert(found =~= before + own_view);
        }
        i += 1;
    }
    proof {
        lemma_splices_bound(all, workspace_commit_id, scope@, stacks@.len() as int);
        lemma_filter_len(found, keep);
        assert(splices_view(r@).len() == r@.len());
    }
    r
}

/// The commits that are reachable from either of the entries.
fn find_scope(cg: &CommitGraph, entries: &Vec<ObjectId>, more: &Vec<ObjectId>) -> (r: SortedSet<
    ObjectId,
>)
    requires
        cg.wf(),
    ensures
        r@ == scope_of(cg.commits(), cg.links(), entries@).union(
            scope_of(cg.commits(), cg.links(), more@),
        ),
{
    let mut seen: SortedSet<ObjectId> = SortedSet::new();
    visit_all(cg, entries, &mut seen);
    visit_all(cg, more, &mut seen);
    assert(steps_of::<ObjectId, CommitGraph>(*cg) =~= parent_steps(cg.commits(), cg.links()));
    assert(seen@ =~= scope_of(cg.commits(), cg.links(), entries@).union(
        scope_of(cg.commits(), cg.links(), more@),
    ));
    seen
}

/// Nothing but commits of the graph is reachable from commits of the graph.
proof fn lemma_scope_known(
    commits: Seq<CommitView>,
    links: Option<Set<(ObjectId, ObjectId)>>,
    entries: Seq<ObjectId>,
    id: ObjectId,
)
    requires
        forall|e: ObjectId| entries.contains(e) ==> last_index(commits, e) is Some,
        scope_of(commits, links, entries).contains(id),
    ensures
        last_index(commits, id) is Some,
{
    let known = Set::new(|x: ObjectId| last_index(commits, x) is Some);
    let next = parent_steps(commits, links);
    assert forall|x: ObjectId, y: ObjectId|
        known.contains(x) && #[trigger] next(x).contains(y) implies known.contains(y) by {
        let i = last_index(commits, x)->0 as int;
        crate::seqs::lemma_filter_contains(
            commits[i].parent_ids,
            follows(commits, links, x),
            y,
        );
    }
    assert(closed_under(next, known));
    crate::reach::lemma_closed_reachable(next, known, entries, id);
}

/// The commits at the positions.
pub open spec fn commits_at(commits: Seq<CommitView>, positions: Seq<usize>) -> Seq<CommitView> {
    positions.map_values(|p: usize| commits[p as int])
}

/// The positions of the commits in scope: of each one the last position of its id.
fn find_positions(cg: &CommitGraph, scope: &SortedSet<ObjectId>) -> (r: Vec<usize>)
    requires
        cg.wf(),
    ensures
        commits_at(cg.commits(), r@) == records(
            cg.commits(),
            cg.commits().filter(commit_in_scope(scope@)),
        ),
        forall|k: int| 0 <= k < r@.len() ==> #[trigger] r@[k] < cg.nodes@.len(),
        forall|k: int|
            0 <= k < r@.len() ==> last_index(
                cg.commits(),
                cg.commits()[(#[trigger] r@[k]) as int].id,
            ) == Some(r@[k]),
{
    let ghost commits = cg.commits();
    let ghost keep = commit_in_scope(scope@);
    let mut r: Vec<usize> = Vec::new();
    let mut i: usize = 0;
    proof {
        lemma_filter_none(commits, keep);
        assert(commits_at(commits, r@) =~= records(commits, Seq::empty()));
    }
    while i < cg.nodes.len()
        invariant
            i <= cg.nodes@.len(),
            cg.wf(),
            commits == cg.commits(),
            keep == commit_in_scope(scope@),
            commits_at(commits, r@) == records(commits, commits.take(i as int).filter(keep)),
            forall|k: int| 0 <= k < r@.len() ==> #[trigger] r@[k] < cg.nodes@.len(),
            forall|k: int|
                0 <= k < r@.len() ==> last_index(commits, commits[(#[trigger] r@[k]) as int].id)
                    == Some(r@[k]),
        decreases cg.nodes.len() - i,
    {
        proof {
            lemma_filter_take(commits, keep, i as int);
        }
        let id = cg.nodes[i].commit.id;
        assert(commits[i as int].id == id);
        if scope.contains(&id) {
            let ghost before = r@;
            proof {
                lemma_last_index(commits, id);
            }
            let at: usize = *cg.by_id.get(&id).unwrap();
            r.push(at);
            assert(commits[at as int].id == id);
            assert(commits_at(commits, r@) =~= commits_at(commits, before).push(
                commits[at as int],
            ));
            let ghost kept = commits.take(i as int).filter(keep);
            assert(records(commits, kept.push(commits[i as int])) =~= records(
                commits,
                kept,
            ).push(commits[at as int]));
        }
        i += 1;
    }
    proof {
        lemma_take_all(commits);
    }
    r
}

/// Whether a parent is not in scope.
fn is_missing(parent_ids: &Vec<ObjectId>, scope: &SortedSet<ObjectId>) -> (r: bool)
    ensures
        r == exists|i: int|
            0 <= i < parent_ids@.len() && !scope@.contains(#[trigger] parent_ids@[i]),
{
    let mut i: usize = 0;
    while i < parent_ids.len()
        invariant
            i <= parent_ids@.len(),
            forall|j: int| 0 <= j < i ==> scope@.contains(#[trigger] parent_ids@[j]),
        decreases parent_ids.len() - i,
    {
        if !scope.contains(&parent_ids[i]) {
            assert(!scope@.contains(parent_ids@[i as int]));
            return true;
        }
        i += 1;
    }
    false
}

/// Add the references as steps, each one with an edge to the next one.
fn put_chain(
    graph: &mut StepGraph,
    names: &Vec<RefName>,
    Ghost(nodes): Ghost<Seq<StepView>>,
    Ghost(edges): Ghost<Seq<EdgeRecord>>,
)
    requires
        old(graph)@ == built(nodes, edges),
        old(graph)@.wf(),
        edges_within(edges, nodes.len() as int),
    ensures
        final(graph)@ == built(
            nodes + ref_steps(names_view(names@)),
            edges + chain_edges(nodes.len() as int, names@.len() as int),
        ),
        final(graph)@.wf(),
        edges_within(
            edges + chain_edges(nodes.len() as int, names@.len() as int),
            (nodes.len() + names@.len()) as int,
        ),
{
    let ghost all = ref_steps(names_view(names@));
    let ghost start = nodes.len() as int;
    let mut i: usize = 0;
    assert(nodes + all.take(0) =~= nodes);
    assert(edges + chain_edges(start, 0) =~= edges);
    while i < names.len()
        invariant
            i <= names@.len(),
            start == nodes.len(),
            all == ref_steps(names_view(names@)),
            all.len() == names@.len(),
            graph@ == built(nodes + all.take(i as int), edges + chain_edges(start, i as int)),
            graph@.wf(),
            edges_within(edges + chain_edges(start, i as int), start + i),
        decreases names.len() - i,
    {
        let ghost (ns, es) = (nodes + all.take(i as int), edges + chain_edges(start, i as int));
        let step = Step::Reference { refname: names[i].clone() };
        assert(step@ == all[i as int]);
        assert(ns.len() == start + i);
        let ix: usize = put_step(graph, step, Ghost(ns), Ghost(es));
        assert(ns.push(step@) =~= nodes + all.take(i + 1));
        if i > 0 {
            put_edge(graph, ix - 1, ix, 0, Ghost(nodes + all.take(i + 1)), Ghost(es));
            assert(es.push(
                EdgeRecord { source: (ix - 1) as usize, target: ix, weight: Edge { order: 0 } },
            ) =~= edges + chain_edges(start, i + 1));
        } else {
            assert(es =~= edges + chain_edges(start, 1));
        }
        i += 1;
    }
    assert(all.take(i as int) =~= all);
}

/// Add the steps of the commits, with the edges within each.
fn put_blocks(
    cg: &CommitGraph,
    positions: &Vec<usize>,
    index: &SortedMap<ObjectId, usize>,
    scope: &SortedSet<ObjectId>,
    workspace_commit_id: Option<ObjectId>,
    defaults: &PickDefaults,
    sign: &String,
    Ghost(plan): Ghost<NativePlan>,
) -> (r: (StepGraph, Vec<usize>))
    requires
        cg.wf(),
        plan.commits == commits_at(cg.commits(), positions@),
        forall|k: int| 0 <= k < positions@.len() ==> #[trigger] positions@[k] < cg.nodes@.len(),
        forall|k: int|
            0 <= k < positions@.len() ==> last_index(
                cg.commits(),
                cg.commits()[(#[trigger] positions@[k]) as int].id,
            ) == Some(positions@[k]),
        holds_index(index@, plan.commits),
        plan.scope == scope@,
        plan.workspace_commit_id == workspace_commit_id,
        plan.defaults == *defaults,
        plan.sign == sign@,
    ensures
        r.0@ == built(
            plan.blocks(plan.commits.len() as int),
            plan.block_edges(plan.commits.len() as int),
        ),
        r.0@.wf(),
        edges_within(plan.block_edges(plan.commits.len() as int), plan.commit_steps()),
        r.1@.len() == plan.commits.len() + 1,
        forall|k: int|
            0 <= k <= plan.commits.len() ==> #[trigger] r.1@[k] == plan.blocks(k).len(),
{
    let ghost commits = cg.commits();
    let mut graph = start_graph();
    let mut starts: Vec<usize> = Vec::new();
    starts.push(0);
    let mut k: usize = 0;
    assert(plan.blocks(0) =~= Seq::empty() && plan.block_edges(0) =~= Seq::empty());
    while k < positions.len()
        invariant
            k <= positions@.len(),
            cg.wf(),
            commits == cg.commits(),
            plan.commits == commits_at(commits, positions@),
            plan.commits.len() == positions@.len(),
            forall|k: int| 0 <= k < positions@.len() ==> #[trigger] positions@[k] < cg.nodes@.len(),
            plan.scope == scope@,
            plan.workspace_commit_id == workspace_commit_id,
            plan.defaults == *defaults,
            plan.sign == sign@,
            forall|k: int|
                0 <= k < positions@.len() ==> last_index(
                    commits,
                    commits[(#[trigger] positions@[k]) as int].id,
                ) == Some(positions@[k]),
            holds_index(index@, plan.commits),
            graph@ == built(plan.blocks(k as int), plan.block_edges(k as int)),
            graph@.wf(),
            edges_within(plan.block_edges(k as int), plan.blocks(k as int).len() as int),
            starts@.len() == k + 1,
            starts@[k as int] == plan.blocks(k as int).len(),
            forall|j: int| 0 <= j <= k ==> #[trigger] starts@[j] == plan.blocks(j).len(),
        decreases positions.len() - k,
    {
        let node = &cg.nodes[positions[k]];
        let id = node.commit.id;
        let ghost commit = plan.commits[k as int];
        assert(commit == commits[positions@[k as int] as int]);
        assert(commit == node.commit@);
        assert(last_index(commits, id) == Some(positions@[k as int]));
        let names = cg.refs_at(id);
        let ghost (ns, es) = (plan.blocks(k as int), plan.block_edges(k as int));
        put_chain(&mut graph, &names, Ghost(ns), Ghost(es));
        assert(names_view(names@) == commit.refs);
        assert(commit.refs.len() == names@.len());
        let ghost ns1 = ns + ref_steps(commit.refs);
        let ghost es1 = es + chain_edges(ns.len() as int, names@.len() as int);
        let mut pick = pick_for(defaults, sign, workspace_commit_id, defaults.mutable, id);
        let missing: bool = is_missing(&node.commit.parent_ids, scope);
        assert(commit.parent_ids == node.commit.parent_ids@);
        assert(missing == plan.has_missing(commit));
        let is_last: bool = match index.get(&id) {
            Some(last) => *last == k,
            None => false,
        };
        assert(is_last == (last_index(plan.commits, id) == Some(k)));
        if missing && is_last {
            pick.preserved_parents = Some(clone_ids(&node.commit.parent_ids));
        }
        assert(pick@ =~= plan.pick(k as int));
        let step = Step::Pick(pick);
        assert(step@ == StepView::Pick(plan.pick(k as int)));
        let ix: usize = put_step(&mut graph, step, Ghost(ns1), Ghost(es1));
        let ghost ns2 = ns1.push(step@);
        assert(ns2 =~= plan.blocks(k + 1));
        if names.len() > 0 {
            put_edge(&mut graph, ix - 1, ix, 0, Ghost(ns2), Ghost(es1));
            assert(es1.push(
                EdgeRecord { source: (ix - 1) as usize, target: ix, weight: Edge { order: 0 } },
            ) =~= plan.block_edges(k + 1));
        } else {
            assert(es1 =~= plan.block_edges(k + 1));
        }
        assert(graph@.nodes.len() == graph.nodes@.len());
        starts.push(graph.nodes.len());
        k += 1;
    }
    (graph, starts)
}

/// In a list without repetitions each id is where it is.
pub proof fn lemma_own_index(commits: Seq<CommitView>, i: int)
    requires
        distinct_ids(commits),
        0 <= i < commits.len() <= usize::MAX,
    ensures
        last_index(commits, commits[i].id) == Some(i as usize),
{
    lemma_last_index(commits, commits[i].id);
    let j = last_index(commits, commits[i].id)->0 as int;
    assert(commits[j].id == commits[i].id);
    if j < i {
        assert(commits[j].id != commits[i].id);
    }
    if i < j {
        assert(commits[i].id != commits[j].id);
    }
}

/// Whether one of the names is required.
fn is_required(names: &Vec<RefName>, required: &SortedSet<RefName>) -> (r: bool)
    ensures
        r == exists|i: int|
            0 <= i < names_view(names@).len() && required@.contains(
                #[trigger] names_view(names@)[i],
            ),
{
    let mut i: usize = 0;
    while i < names.len()
        invariant
            i <= names@.len(),
            forall|j: int| 0 <= j < i ==> !required@.contains(#[trigger] names_view(names@)[j]),
        decreases names.len() - i,
    {
        assert(names_view(names@)[i as int] == names@[i as int]@);
        if required.contains(&names[i]) {
            assert(required@.contains(names_view(names@)[i as int]));
            return true;
        }
        i += 1;
    }
    false
}

/// Whether a chain is there.
fn is_chain_counted(
    chain: &RestingChain,
    scope: &SortedSet<ObjectId>,
    required: &SortedSet<RefName>,
) -> (r: bool)
    ensures
        r == chain_counts(scope@, required@)(chain@),
{
    let in_scope: bool = match chain.below {
        Some(b) => scope.contains(&b),
        None => false,
    };
    assert(chain@.refs.len() == chain.refs@.len());
    (chain.fed || is_required(&chain.refs, required)) && in_scope && chain.refs.len() > 0
}

/// The positions of the chains that count.
fn find_chains(
    chains: &Vec<RestingChain>,
    scope: &SortedSet<ObjectId>,
    required: &SortedSet<RefName>,
) -> (r: Vec<usize>)
    ensures
        chains_at(chains_view(chains@), r@) == chains_view(chains@).filter(
            chain_counts(scope@, required@),
        ),
        forall|k: int| 0 <= k < r@.len() ==> #[trigger] r@[k] < chains@.len(),
        forall|k: int|
            0 <= k < r@.len() ==> chain_counts(scope@, required@)(
                chains_view(chains@)[#[trigger] r@[k] as int],
            ),
{
    let ghost all = chains_view(chains@);
    let ghost keep = chain_counts(scope@, required@);
    let mut r: Vec<usize> = Vec::new();
    let mut i: usize = 0;
    proof {
        lemma_filter_none(all, keep);
        assert(chains_at(all, r@) =~= Seq::empty());
    }
    while i < chains.len()
        invariant
            i <= chains@.len(),
            all == chains_view(chains@),
            keep == chain_counts(scope@, required@),
            chains_at(all, r@) == all.take(i as int).filter(keep),
            forall|k: int| 0 <= k < r@.len() ==> #[trigger] r@[k] < chains@.len(),
            forall|k: int| 0 <= k < r@.len() ==> keep(all[#[trigger] r@[k] as int]),
        decreases chains.len() - i,
    {
        proof {
            lemma_filter_take(all, keep, i as int);
        }
        assert(all[i as int] == chains@[i as int]@);
        if is_chain_counted(&chains[i], scope, required) {
            let ghost before = r@;
            r.push(i);
            assert(chains_at(all, r@) =~= chains_at(all, before).push(all[i as int]));
        }
        i += 1;
    }
    proof {
        lemma_take_all(all);
    }
    r
}

/// The chains at the positions.
pub open spec fn chains_at(chains: Seq<RestingChainView>, positions: Seq<usize>) -> Seq<
    RestingChainView,
> {
    positions.map_values(|p: usize| chains[p as int])
}

/// The map holds the positions of the commits.
pub open spec fn holds_index(map: Map<ObjectId, usize>, commits: Seq<CommitView>) -> bool {
    forall|id: ObjectId|
        #![trigger map.dom().contains(id)]
        #![trigger last_index(commits, id)]
        last_index(commits, id) == if map.dom().contains(id) {
            Some(map[id])
        } else {
            None
        }
}

/// The positions of the commits among those in scope, by their ids.
fn index_positions(cg: &CommitGraph, positions: &Vec<usize>) -> (r: SortedMap<ObjectId, usize>)
    requires
        forall|k: int| 0 <= k < positions@.len() ==> #[trigger] positions@[k] < cg.nodes@.len(),
    ensures
        holds_index(r@, commits_at(cg.commits(), positions@)),
{
    let ghost all = commits_at(cg.commits(), positions@);
    let mut r: SortedMap<ObjectId, usize> = SortedMap::new();
    let mut k: usize = 0;
    assert(all.take(0).len() == 0);
    while k < positions.len()
        invariant
            k <= positions@.len(),
            all == commits_at(cg.commits(), positions@),
            forall|k: int| 0 <= k < positions@.len() ==> #[trigger] positions@[k] < cg.nodes@.len(),
            holds_index(r@, all.take(k as int)),
        decreases positions.len() - k,
    {
        let ghost before = r@;
        let id = cg.nodes[positions[k]].commit.id;
        assert(all[k as int].id == id);
        r.insert(id, k);
        let ghost longer = all.take(k + 1);
        assert(longer.drop_last() =~= all.take(k as int));
        assert forall|x: ObjectId| last_index(longer, x) == if #[trigger] r@.dom().contains(x) {
            Some(r@[x])
        } else {
            None
        } by {
            assert(last_index(all.take(k as int), x) == if before.dom().contains(x) {
                Some(before[x])
            } else {
                None
            });
        }
        k += 1;
    }
    assert(all.take(k as int) =~= all);
    r
}

/// The map holds the first positions of the commits among the first `n`.
pub open spec fn holds_first(map: Map<ObjectId, usize>, commits: Seq<CommitView>, n: int) -> bool {
    forall|id: ObjectId|
        #![trigger map.dom().contains(id)]
        #![trigger is_called(id)]
        first_among(commits, is_called(id), n) == if map.dom().contains(id) {
            Some(map[id] as int)
        } else {
            None
        }
}

/// The first positions of the commits among those in scope, by their ids.
fn index_firsts(cg: &CommitGraph, positions: &Vec<usize>) -> (r: SortedMap<ObjectId, usize>)
    requires
        forall|k: int| 0 <= k < positions@.len() ==> #[trigger] positions@[k] < cg.nodes@.len(),
    ensures
        holds_first(r@, commits_at(cg.commits(), positions@), positions@.len() as int),
{
    let ghost all = commits_at(cg.commits(), positions@);
    let mut r: SortedMap<ObjectId, usize> = SortedMap::new();
    let mut k: usize = 0;
    while k < positions.len()
        invariant
            k <= positions@.len(),
            all == commits_at(cg.commits(), positions@),
            forall|k: int| 0 <= k < positions@.len() ==> #[trigger] positions@[k] < cg.nodes@.len(),
            holds_first(r@, all, k as int),
        decreases positions.len() - k,
    {
        let ghost before = r@;
        let id = cg.nodes[positions[k]].commit.id;
        assert(all[k as int].id == id);
        if !r.contains_key(&id) {
            r.insert(id, k);
        }
        assert forall|x: ObjectId|
            first_among(all, is_called(x), k + 1) == if #[trigger] r@.dom().contains(x) {
                Some(r@[x] as int)
            } else {
                None
            } by {
            assert(first_among(all, is_called(x), k as int) == if before.dom().contains(x) {
                Some(before[x] as int)
            } else {
                None
            });
        }
        k += 1;
    }
    r
}

impl NativePlan {
    /// The steps of later commits come behind those of earlier ones.
    proof fn lemma_blocks_grow(self, a: int, b: int)
        requires
            0 <= a <= b,
        ensures
            self.blocks(a).len() + (b - a) <= self.blocks(b).len(),
        decreases b - a,
    {
        if a < b {
            self.lemma_blocks_grow(a, b - 1);
        }
    }

    /// The step of a commit in scope, and the topmost of its references, are steps of commits.
    proof fn lemma_commit_nodes(self, id: ObjectId)
        requires
            self.commits.len() <= usize::MAX,
            last_index(self.commits, id) is Some,
        ensures
            0 <= self.chain_top(id) <= self.pick_node(id) < self.commit_steps(),
            first_where(self.commits, is_called(id)) matches Some(f) && 0 <= f
                < self.commits.len(),
    {
        lemma_last_index(self.commits, id);
        let k = last_index(self.commits, id)->0 as int;
        assert(is_called(id)(self.commits[k]));
        lemma_first_among(self.commits, is_called(id), self.commits.len() as int);
        let f = first_where(self.commits, is_called(id))->0;
        self.lemma_blocks_grow(f, k + 1);
        self.lemma_blocks_grow(k + 1, self.commits.len() as int);
    }
}

/// Add the chains that count, and what they rest on.
fn put_chains(
    graph: &mut StepGraph,
    chains: &Vec<RestingChain>,
    counted: &Vec<usize>,
    firsts: &SortedMap<ObjectId, usize>,
    starts: &Vec<usize>,
    Ghost(plan): Ghost<NativePlan>,
) -> (r: Vec<usize>)
    requires
        plan.chains == chains_at(chains_view(chains@), counted@),
        forall|k: int| 0 <= k < counted@.len() ==> #[trigger] counted@[k] < chains@.len(),
        forall|k: int|
            0 <= k < plan.chains.len() ==> (#[trigger] plan.chains[k]).refs.len() > 0
                && plan.chains[k].below is Some && last_index(
                plan.commits,
                plan.chains[k].below->0,
            ) is Some,
        plan.commits.len() <= usize::MAX,
        holds_first(firsts@, plan.commits, plan.commits.len() as int),
        starts@.len() == plan.commits.len() + 1,
        forall|k: int|
            0 <= k <= plan.commits.len() ==> #[trigger] starts@[k] == plan.blocks(k).len(),
        old(graph)@ == built(
            plan.blocks(plan.commits.len() as int),
            plan.block_edges(plan.commits.len() as int),
        ),
        old(graph)@.wf(),
        edges_within(plan.block_edges(plan.commits.len() as int), plan.commit_steps()),
    ensures
        final(graph)@ == built(
            plan.steps(),
            plan.block_edges(plan.commits.len() as int) + plan.chains_edges(
                plan.chains.len() as int,
            ),
        ),
        final(graph)@.wf(),
        edges_within(
            plan.block_edges(plan.commits.len() as int) + plan.chains_edges(
                plan.chains.len() as int,
            ),
            plan.steps().len() as int,
        ),
        r@.len() == plan.chains.len(),
        forall|k: int| 0 <= k < r@.len() ==> #[trigger] r@[k] == plan.chain_start(k),
{
    let ghost nodes = plan.blocks(plan.commits.len() as int);
    let ghost edges = plan.block_edges(plan.commits.len() as int);
    let mut r: Vec<usize> = Vec::new();
    let mut k: usize = 0;
    assert(nodes + plan.chain_steps(0) =~= nodes);
    assert(edges + plan.chains_edges(0) =~= edges);
    while k < counted.len()
        invariant
            k <= counted@.len(),
            nodes == plan.blocks(plan.commits.len() as int),
            nodes.len() == plan.commit_steps(),
            edges == plan.block_edges(plan.commits.len() as int),
            plan.chains == chains_at(chains_view(chains@), counted@),
            plan.chains.len() == counted@.len(),
            forall|k: int| 0 <= k < counted@.len() ==> #[trigger] counted@[k] < chains@.len(),
            forall|k: int|
                0 <= k < plan.chains.len() ==> (#[trigger] plan.chains[k]).refs.len() > 0
                    && plan.chains[k].below is Some && last_index(
                    plan.commits,
                    plan.chains[k].below->0,
                ) is Some,
            plan.commits.len() <= usize::MAX,
            holds_first(firsts@, plan.commits, plan.commits.len() as int),
            starts@.len() == plan.commits.len() + 1,
            forall|k: int|
                0 <= k <= plan.commits.len() ==> #[trigger] starts@[k] == plan.blocks(k).len(),
            graph@ == built(
                nodes + plan.chain_steps(k as int),
                edges + plan.chains_edges(k as int),
            ),
            graph@.wf(),
            edges_within(
                edges + plan.chains_edges(k as int),
                (nodes + plan.chain_steps(k as int)).len() as int,
            ),
            r@.len() == k,
            forall|j: int| 0 <= j < k ==> #[trigger] r@[j] == plan.chain_start(j),
        decreases counted.len() - k,
    {
        let chain = &chains[counted[k]];
        let ghost view = plan.chains[k as int];
        assert(view == chains_view(chains@)[counted@[k as int] as int]);
        assert(view == chain@);
        let ghost (ns, es) = (nodes + plan.chain_steps(k as int), edges + plan.chains_edges(k as int));
        assert(graph@.nodes.len() == graph.nodes@.len());
        let start: usize = graph.nodes.len();
        assert(start == plan.chain_start(k as int));
        put_chain(graph, &chain.refs, Ghost(ns), Ghost(es));
        let ghost ns1 = ns + ref_steps(view.refs);
        let ghost es1 = es + chain_edges(start as int, view.refs.len() as int);
        assert(view.refs.len() == chain.refs@.len());
        assert(ns1 =~= nodes + plan.chain_steps(k + 1));
        let below = chain.below.unwrap();
        proof {
            lemma_last_index(plan.commits, below);
            plan.lemma_commit_nodes(below);
        }
        assert(first_where(plan.commits, is_called(below)) is Some);
        let at: usize = *firsts.get(&below).unwrap();
        let target: usize = starts[at];
        assert(target == plan.chain_top(below));
        assert(graph@.nodes.len() == graph.nodes@.len());
        let last: usize = graph.nodes.len() - 1;
        put_edge(graph, last, target, 0, Ghost(ns1), Ghost(es1));
        assert(es1.push(EdgeRecord { source: last, target, weight: Edge { order: 0 } })
            =~= edges + plan.chains_edges(k + 1));
        r.push(start);
        k += 1;
    }
    r
}

/// Whether a connection of the commit to a parent was cut.
fn is_cut(cg: &CommitGraph, id: ObjectId, parent_ids: &Vec<ObjectId>) -> (r: bool)
    ensures
        r == exists|i: int|
            0 <= i < parent_ids@.len() && !linked(cg.links(), id, #[trigger] parent_ids@[i]),
{
    let mut i: usize = 0;
    while i < parent_ids.len()
        invariant
            i <= parent_ids@.len(),
            forall|j: int| 0 <= j < i ==> linked(cg.links(), id, #[trigger] parent_ids@[j]),
        decreases parent_ids.len() - i,
    {
        if !cg.is_connected(id, parent_ids[i]) {
            assert(!linked(cg.links(), id, parent_ids@[i as int]));
            return true;
        }
        i += 1;
    }
    false
}

/// How many splices are between the two commits.
fn count_between(splices: &Vec<Splice>, above: ObjectId, below: ObjectId) -> (r: usize)
    ensures
        r == splices_view(splices@).filter(between(above, below)).len(),
{
    let ghost all = splices_view(splices@);
    let ghost keep = between(above, below);
    let mut r: usize = 0;
    let mut i: usize = 0;
    proof {
        lemma_filter_none(all, keep);
    }
    while i < splices.len()
        invariant
            i <= splices@.len(),
            all == splices_view(splices@),
            keep == between(above, below),
            r == all.take(i as int).filter(keep).len(),
            r <= i,
        decreases splices.len() - i,
    {
        proof {
            lemma_filter_take(all, keep, i as int);
        }
        let s = &splices[i];
        assert(all[i as int] == s@);
        let fits: bool = match (s.above, s.below) {
            (Some(a), Some(b)) => a == above && b == below,
            _ => false,
        };
        if fits {
            r += 1;
        }
        i += 1;
    }
    proof {
        lemma_take_all(all);
    }
    r
}

/// How often the id is among the first `n` ids.
fn count_occurrences(ids: &Vec<ObjectId>, id: ObjectId, n: usize) -> (r: usize)
    requires
        n <= ids@.len(),
    ensures
        r == occurrences(ids@, id, n as int),
{
    let mut r: usize = 0;
    let mut i: usize = 0;
    while i < n
        invariant
            i <= n <= ids@.len(),
            r == occurrences(ids@, id, i as int),
            r <= i,
        decreases n - i,
    {
        if ids[i] == id {
            r += 1;
        }
        i += 1;
    }
    r
}

/// The last of the chains that count with this reference at the top.
fn find_chain(
    chains: &Vec<RestingChain>,
    counted: &Vec<usize>,
    name: &RefName,
    Ghost(plan): Ghost<NativePlan>,
) -> (r: Option<usize>)
    requires
        plan.chains == chains_at(chains_view(chains@), counted@),
        forall|k: int| 0 <= k < counted@.len() ==> #[trigger] counted@[k] < chains@.len(),
        forall|k: int| 0 <= k < plan.chains.len() ==> (#[trigger] plan.chains[k]).refs.len() > 0,
    ensures
        match r {
            Some(k) => plan.chain_with_top(name@, plan.chains.len() as int) == Some(k as int) && k
                < plan.chains.len(),
            None => plan.chain_with_top(name@, plan.chains.len() as int) is None,
        },
{
    let mut r: Option<usize> = None;
    let mut k: usize = 0;
    while k < counted.len()
        invariant
            k <= counted@.len(),
            plan.chains == chains_at(chains_view(chains@), counted@),
            forall|k: int| 0 <= k < counted@.len() ==> #[trigger] counted@[k] < chains@.len(),
            forall|k: int|
                0 <= k < plan.chains.len() ==> (#[trigger] plan.chains[k]).refs.len() > 0,
            match r {
                Some(j) => plan.chain_with_top(name@, k as int) == Some(j as int) && j < k,
                None => plan.chain_with_top(name@, k as int) is None,
            },
        decreases counted.len() - k,
    {
        let chain = &chains[counted[k]];
        assert(plan.chains[k as int] == chain@);
        assert(chain@.refs[0] == chain.refs@[0]@);
        if chain.refs[0].same(name) {
            r = Some(k);
        }
        k += 1;
    }
    r
}

/// What the edges of the commits are made from.
struct EdgeSource<'a> {
    cg: &'a CommitGraph,
    positions: &'a Vec<usize>,
    scope: &'a SortedSet<ObjectId>,
    workspace_commit_id: Option<ObjectId>,
    merge_bypass: &'a SortedSet<ObjectId>,
    splices: &'a Vec<Splice>,
    chains: &'a Vec<RestingChain>,
    counted: &'a Vec<usize>,
    index: &'a SortedMap<ObjectId, usize>,
    firsts: &'a SortedMap<ObjectId, usize>,
    starts: &'a Vec<usize>,
    chain_starts: &'a Vec<usize>,
}

impl<'a> EdgeSource<'a> {
    /// It is what the plan says.
    spec fn fits(self, plan: NativePlan) -> bool {
        &&& plan.commits == commits_at(self.cg.commits(), self.positions@)
        &&& forall|k: int|
            0 <= k < self.positions@.len() ==> #[trigger] self.positions@[k]
                < self.cg.nodes@.len()
        &&& plan.links == self.cg.links()
        &&& plan.scope == self.scope@
        &&& plan.workspace_commit_id == self.workspace_commit_id
        &&& plan.merge_bypass == self.merge_bypass@
        &&& plan.splices == splices_view(self.splices@)
        &&& plan.chains == chains_at(chains_view(self.chains@), self.counted@)
        &&& forall|k: int|
            0 <= k < self.counted@.len() ==> #[trigger] self.counted@[k] < self.chains@.len()
        &&& forall|k: int|
            0 <= k < plan.chains.len() ==> (#[trigger] plan.chains[k]).refs.len() > 0
        &&& plan.commits.len() <= usize::MAX
        &&& holds_index(self.index@, plan.commits)
        &&& holds_first(self.firsts@, plan.commits, plan.commits.len() as int)
        &&& forall|id: ObjectId| #[trigger]
            plan.scope.contains(id) ==> last_index(plan.commits, id) is Some
        &&& self.starts@.len() == plan.commits.len() + 1
        &&& forall|k: int|
            0 <= k <= plan.commits.len() ==> #[trigger] self.starts@[k] == plan.blocks(k).len()
        &&& self.chain_starts@.len() == plan.chains.len()
        &&& forall|k: int|
            0 <= k < plan.chains.len() ==> #[trigger] self.chain_starts@[k] == plan.chain_start(
                k,
            ) && self.chain_starts@[k] < plan.steps().len()
        &&& forall|k: int|
            0 <= k < plan.commits.len() ==> (#[trigger] plan.commits[k]).parent_ids.len()
                + plan.splices.len() <= usize::MAX
    }

    /// The step of a commit in scope, and the topmost of its references.
    fn nodes_of(&self, id: ObjectId, Ghost(plan): Ghost<NativePlan>) -> (r: (usize, usize))
        requires
            self.fits(plan),
            last_index(plan.commits, id) is Some,
        ensures
            r.0 == plan.pick_node(id),
            r.1 == plan.chain_top(id),
            r.0 < plan.steps().len(),
            r.1 < plan.steps().len(),
    {
        proof {
            lemma_last_index(plan.commits, id);
            plan.lemma_commit_nodes(id);
        }
        let k: usize = *self.index.get(&id).unwrap();
        assert(self.starts@[k + 1] == plan.blocks(k + 1).len());
        assert(first_where(plan.commits, is_called(id)) is Some);
        let f: usize = *self.firsts.get(&id).unwrap();
        (self.starts[k + 1] - 1, self.starts[f])
    }

    /// How many places of the parent come before the one at `i` of the commit at `k`.
    fn count_places(&self, k: usize, i: usize, Ghost(plan): Ghost<NativePlan>) -> (r: u128)
        requires
            self.fits(plan),
            k < plan.commits.len(),
            i < plan.commits[k as int].parent_ids.len(),
        ensures
            r == plan.places_before(k as int, i as int),
    {
        let node = &self.cg.nodes[self.positions[k]];
        let id = node.commit.id;
        let parents = &node.commit.parent_ids;
        assert(plan.commits[k as int] == node.commit@);
        let mut copies: usize = 0;
        let mut j: usize = 0;
        while j < k
            invariant
                j <= k,
                k < plan.commits.len(),
                self.fits(plan),
                plan.commits.len() == self.positions@.len(),
                copies == copies_before(plan.commits, id, j as int),
                copies <= j,
            decreases k - j,
        {
            let other = &self.cg.nodes[self.positions[j]];
            assert(plan.commits[j as int] == other.commit@);
            if other.commit.id == id {
                copies += 1;
            }
            j += 1;
        }
        let each: usize = count_occurrences(parents, parents[i], parents.len());
        let own: usize = count_occurrences(parents, parents[i], i);
        assert(copies * each + own <= u128::MAX) by (nonlinear_arith)
            requires
                0 <= copies <= usize::MAX,
                0 <= each <= usize::MAX,
                0 <= own <= usize::MAX,
        ;
        assert(copies * each <= u128::MAX) by (nonlinear_arith)
            requires
                0 <= copies <= usize::MAX,
                0 <= each <= usize::MAX,
        ;
        copies as u128 * each as u128 + own as u128
    }

    /// Add the edges of the commit to its parents.
    fn put_parent_edges(
        &self,
        graph: &mut StepGraph,
        k: usize,
        Ghost(plan): Ghost<NativePlan>,
        Ghost(edges): Ghost<Seq<EdgeRecord>>,
    )
        requires
            self.fits(plan),
            k < plan.commits.len(),
            old(graph)@ == built(plan.steps(), edges),
            old(graph)@.wf(),
            edges_within(edges, plan.steps().len() as int),
        ensures
            ({
                let commit = plan.commits[k as int];
                let more = edges + plan.parent_edges(k as int, commit.parent_ids.len() as int);
                &&& final(graph)@ == built(plan.steps(), more)
                &&& final(graph)@.wf()
                &&& edges_within(more, plan.steps().len() as int)
            }),
    {
        let ghost commit = plan.commits[k as int];
        let ghost steps = plan.steps();
        let node = &self.cg.nodes[self.positions[k]];
        let id = node.commit.id;
        let parents = &node.commit.parent_ids;
        assert(commit == node.commit@);
        let is_workspace: bool = match self.workspace_commit_id {
            Some(ws) => ws == id,
            None => false,
        };
        let is_merge: bool = parents.len() > 1 && !is_workspace;
        let missing: bool = is_missing(parents, self.scope);
        let cut: bool = is_cut(self.cg, id, parents);
        let severed: bool = !missing && !is_workspace && cut;
        assert(missing == plan.has_missing(commit));
        assert(severed == plan.severed(commit));
        proof {
            lemma_last_index(plan.commits, id);
            assert(plan.commits[k as int].id == id);
        }
        let (own, _) = self.nodes_of(id, Ghost(plan));
        let mut i: usize = 0;
        assert(edges + plan.parent_edges(k as int, 0) =~= edges);
        while i < parents.len()
            invariant
                i <= parents@.len(),
                self.fits(plan),
                k < plan.commits.len(),
                commit == plan.commits[k as int],
                steps == plan.steps(),
                commit.parent_ids == parents@,
                commit.id == id,
                is_merge == (parents@.len() > 1 && Some(id) != plan.workspace_commit_id),
                severed == plan.severed(commit),
                own == plan.pick_node(id),
                own < steps.len(),
                graph@ == built(steps, edges + plan.parent_edges(k as int, i as int)),
                graph@.wf(),
                edges_within(edges + plan.parent_edges(k as int, i as int), steps.len() as int),
            decreases parents.len() - i,
        {
            let parent = parents[i];
            let ghost before = plan.parent_edges(k as int, i as int);
            if self.scope.contains(&parent) {
                let diverted: bool = !severed && self.count_places(k, i, Ghost(plan))
                    < count_between(self.splices, id, parent) as u128;
                assert(diverted == plan.diverted(k as int, i as int));
                if !diverted {
                    let (pick, top) = self.nodes_of(parent, Ghost(plan));
                    let target: usize = if severed || (is_merge && self.merge_bypass.contains(
                        &parent,
                    )) {
                        pick
                    } else {
                        top
                    };
                    assert(target == plan.parent_target(commit, i as int));
                    put_edge(graph, own, target, i, Ghost(steps), Ghost(edges + before));
                    assert((edges + before).push(
                        EdgeRecord { source: own, target, weight: Edge { order: i } },
                    ) =~= edges + plan.parent_edges(k as int, i + 1));
                }
            }
            i += 1;
        }
    }

    /// Add the edges of the commit to the splices under it.
    fn put_splice_edges(
        &self,
        graph: &mut StepGraph,
        k: usize,
        Ghost(plan): Ghost<NativePlan>,
        Ghost(edges): Ghost<Seq<EdgeRecord>>,
    )
        requires
            self.fits(plan),
            k < plan.commits.len(),
            old(graph)@ == built(plan.steps(), edges),
            old(graph)@.wf(),
            edges_within(edges, plan.steps().len() as int),
        ensures
            ({
                let commit = plan.commits[k as int];
                let more = edges + plan.splice_edges(commit, plan.splices.len() as int);
                &&& final(graph)@ == built(plan.steps(), more)
                &&& final(graph)@.wf()
                &&& edges_within(more, plan.steps().len() as int)
            }),
    {
        let ghost commit = plan.commits[k as int];
        let ghost steps = plan.steps();
        let node = &self.cg.nodes[self.positions[k]];
        let id = node.commit.id;
        let len: usize = node.commit.parent_ids.len();
        assert(commit == node.commit@);
        proof {
            lemma_last_index(plan.commits, id);
            assert(plan.commits[k as int].id == id);
        }
        let (own, _) = self.nodes_of(id, Ghost(plan));
        let mut count: usize = 0;
        let mut i: usize = 0;
        assert(edges + plan.splice_edges(commit, 0) =~= edges);
        while i < self.splices.len()
            invariant
                i <= self.splices@.len(),
                self.splices@.len() == plan.splices.len(),
                self.fits(plan),
                k < plan.commits.len(),
                commit == plan.commits[k as int],
                steps == plan.steps(),
                commit.parent_ids.len() == len,
                commit.id == id,
                own == plan.pick_node(id),
                own < steps.len(),
                count == plan.splices_under(id, i as int),
                count <= i,
                graph@ == built(steps, edges + plan.splice_edges(commit, i as int)),
                graph@.wf(),
                edges_within(edges + plan.splice_edges(commit, i as int), steps.len() as int),
            decreases self.splices.len() - i,
        {
            let splice = &self.splices[i];
            assert(plan.splices[i as int] == splice@);
            let ghost before = plan.splice_edges(commit, i as int);
            let under: bool = match splice.above {
                Some(above) => above == id,
                None => false,
            };
            if under {
                assert(plan.commits[k as int].parent_ids.len() + plan.splices.len() <= usize::MAX);
                let order: usize = len + count;
                if let Some(c) = find_chain(
                    self.chains,
                    self.counted,
                    &splice.top_ref,
                    Ghost(plan),
                ) {
                    let target: usize = self.chain_starts[c];
                    put_edge(graph, own, target, order, Ghost(steps), Ghost(edges + before));
                    assert((edges + before).push(
                        EdgeRecord { source: own, target, weight: Edge { order } },
                    ) =~= edges + plan.splice_edges(commit, i + 1));
                }
                count += 1;
            }
            i += 1;
        }
    }

    /// Add the edges of all commits.
    fn put_commits_edges(
        &self,
        graph: &mut StepGraph,
        Ghost(plan): Ghost<NativePlan>,
        Ghost(edges): Ghost<Seq<EdgeRecord>>,
    )
        requires
            self.fits(plan),
            old(graph)@ == built(plan.steps(), edges),
            old(graph)@.wf(),
            edges_within(edges, plan.steps().len() as int),
        ensures
            ({
                let more = edges + plan.commits_edges(plan.commits.len() as int);
                &&& final(graph)@ == built(plan.steps(), more)
                &&& final(graph)@.wf()
                &&& edges_within(more, plan.steps().len() as int)
            }),
    {
        let mut k: usize = 0;
        assert(edges + plan.commits_edges(0) =~= edges);
        while k < self.positions.len()
            invariant
                k <= self.positions@.len(),
                self.positions@.len() == plan.commits.len(),
                self.fits(plan),
                graph@ == built(plan.steps(), edges + plan.commits_edges(k as int)),
                graph@.wf(),
                edges_within(
                    edges + plan.commits_edges(k as int),
                    plan.steps().len() as int,
                ),
            decreases self.positions.len() - k,
        {
            let ghost commit = plan.commits[k as int];
            let ghost before = edges + plan.commits_edges(k as int);
            let ghost own = plan.parent_edges(k as int, commit.parent_ids.len() as int);
            self.put_parent_edges(graph, k, Ghost(plan), Ghost(before));
            self.put_splice_edges(graph, k, Ghost(plan), Ghost(before + own));
            assert((before + own) + plan.splice_edges(commit, plan.splices.len() as int) =~= edges
                + plan.commits_edges(k + 1));
            k += 1;
        }
    }
}

/// The names of the steps that are references.
fn find_step_names(graph: &StepGraph) -> (r: Vec<RefName>)
    ensures
        names_view(r@) == step_names(graph@.nodes, graph@.nodes.len() as int),
{
    let ghost steps = graph@.nodes;
    let mut r: Vec<RefName> = Vec::new();
    let mut i: usize = 0;
    assert(names_view(r@) =~= Seq::empty());
    while i < graph.nodes.len()
        invariant
            i <= graph.nodes@.len(),
            steps == graph@.nodes,
            names_view(r@) == step_names(steps, i as int),
        decreases graph.nodes.len() - i,
    {
        assert(steps[i as int] == graph.nodes@[i as int]@);
        if let Step::Reference { refname } = &graph.nodes[i] {
            let ghost before = r@;
            let x = refname.clone();
            r.push(x);
            assert(names_view(r@) =~= names_view(before).push(x@));
        }
        i += 1;
    }
    r
}

/// The steps that are selected.
pub open spec fn selected_steps(selectors: Seq<StepSelector>) -> Seq<StepGraphIndex> {
    selectors.map_values(|s: StepSelector| s.id)
}

/// The steps that are the reference.
fn find_heads(graph: &StepGraph, name: &Option<RefName>) -> (r: Vec<StepSelector>)
    ensures
        selected_steps(r@) == steps_named(
            graph@.nodes,
            opt_name(*name),
            graph@.nodes.len() as int,
        ),
        forall|i: int| 0 <= i < r@.len() ==> (#[trigger] r@[i]).revision == 0,
{
    let ghost steps = graph@.nodes;
    let mut r: Vec<StepSelector> = Vec::new();
    let mut i: usize = 0;
    assert(selected_steps(r@) =~= Seq::empty());
    while i < graph.nodes.len()
        invariant
            i <= graph.nodes@.len(),
            steps == graph@.nodes,
            selected_steps(r@) == steps_named(steps, opt_name(*name), i as int),
            forall|i: int| 0 <= i < r@.len() ==> (#[trigger] r@[i]).revision == 0,
        decreases graph.nodes.len() - i,
    {
        assert(steps[i as int] == graph.nodes@[i as int]@);
        if let (Step::Reference { refname }, Some(wanted)) = (&graph.nodes[i], name) {
            if refname.same(wanted) {
                let ghost before = r@;
                r.push(StepSelector { id: i, revision: 0 });
                assert(selected_steps(r@) =~= selected_steps(before).push(i));
            }
        }
        i += 1;
    }
    r
}

/// Add the names of the references to the set.
fn insert_names(set: &mut SortedSet<RefName>, names: &Vec<RefInfo>)
    ensures
        forall|name: Seq<u8>| #[trigger]
            final(set)@.contains(name) <==> old(set)@.contains(name) || ref_names(names@).contains(
                name,
            ),
{
    let ghost given = set@;
    let ghost all = ref_names(names@);
    let mut i: usize = 0;
    assert(all.take(0).len() == 0);
    while i < names.len()
        invariant
            i <= names@.len(),
            all == ref_names(names@),
            forall|name: Seq<u8>| #[trigger]
                set@.contains(name) <==> given.contains(name) || all.take(i as int).contains(name),
        decreases names.len() - i,
    {
        assert(all[i as int] == names@[i as int]@);
        let ghost before = set@;
        set.insert(names[i].ref_name.clone());
        assert forall|name: Seq<u8>| #[trigger] set@.contains(name) <==> given.contains(name)
            || all.take(i + 1).contains(name) by {
            assert(all.take(i + 1) =~= all.take(i as int).push(all[i as int]));
            crate::seqs::lemma_push_contains(all.take(i as int), all[i as int], name);
            assert(before.contains(name) <==> given.contains(name) || all.take(i as int).contains(
                name,
            ));
        }
        i += 1;
    }
    assert(all.take(i as int) =~= all);
}

/// Add the names of the references on those of the commits at the positions that may not be changed.
fn insert_names_on(
    set: &mut SortedSet<RefName>,
    cg: &CommitGraph,
    positions: &Vec<usize>,
    scope: &SortedSet<ObjectId>,
    mutable_scope: &SortedSet<ObjectId>,
)
    requires
        forall|k: int| 0 <= k < positions@.len() ==> #[trigger] positions@[k] < cg.nodes@.len(),
    ensures
        final(set)@ == old(set)@.union(
            names_on(
                commits_at(cg.commits(), positions@),
                scope@.difference(mutable_scope@),
                positions@.len() as int,
            ),
        ),
{
    let ghost given = set@;
    let ghost commits = commits_at(cg.commits(), positions@);
    let ghost own = scope@.difference(mutable_scope@);
    let mut i: usize = 0;
    assert(set@ =~= given.union(names_on(commits, own, 0)));
    while i < positions.len()
        invariant
            i <= positions@.len(),
            forall|k: int| 0 <= k < positions@.len() ==> #[trigger] positions@[k] < cg.nodes@.len(),
            commits == commits_at(cg.commits(), positions@),
            own == scope@.difference(mutable_scope@),
            set@ == given.union(names_on(commits, own, i as int)),
        decreases positions.len() - i,
    {
        let node = &cg.nodes[positions[i]];
        assert(commits[i as int] == node.commit@);
        let ghost before = set@;
        let id = node.commit.id;
        let take: bool = scope.contains(&id) && !mutable_scope.contains(&id);
        if take {
            insert_names(set, &node.commit.refs);
        }
        assert forall|name: Seq<u8>| #[trigger] set@.contains(name) <==> given.union(
            names_on(commits, own, i + 1),
        ).contains(name) by {
            assert(before.contains(name) <==> given.contains(name) || names_on(
                commits,
                own,
                i as int,
            ).contains(name));
            if names_on(commits, own, i as int).contains(name) {
                let j = choose|j: int|
                    0 <= j < i && own.contains(commits[j].id) && (
                    #[trigger] commits[j]).refs.contains(name);
                assert(commits[j].refs.contains(name));
            }
            if take && commits[i as int].refs.contains(name) {
                assert(own.contains(commits[i as int].id));
            }
            if names_on(commits, own, i + 1).contains(name) {
                let j = choose|j: int|
                    0 <= j < i + 1 && own.contains(commits[j].id) && (
                    #[trigger] commits[j]).refs.contains(name);
                if j < i {
                    assert(names_on(commits, own, i as int).contains(name));
                }
            }
        }
        assert(set@ =~= given.union(names_on(commits, own, i + 1)));
        i += 1;
    }
}

/// What the extra references give.
struct Extra {
    mutable_entries: Vec<ObjectId>,
    immutable_entries: Vec<ObjectId>,
    required: SortedSet<RefName>,
    resting_immutable: SortedSet<RefName>,
}

/// What the extra references give, or the name of the first one that was not found.
fn collect_extra(graph: &SegmentGraph, extra: &Vec<ExtraEntry>) -> (r: Result<Extra, RefName>)
    requires
        forall|i: int|
            0 <= i < extra@.len() && (#[trigger] extra@[i]).found is Some ==> (
            extra@[i].found->0).0 < graph@.len(),
    ensures
        match r {
            Err(name) => first_not_found(extra@, extra@.len() as int) == Some(name@),
            Ok(x) => {
                let n = extra@.len() as int;
                &&& first_not_found(extra@, n) is None
                &&& x.mutable_entries@ == extra_commits(extra@, ExtraRefMutability::Mutable, n)
                &&& x.immutable_entries@ == extra_commits(extra@, ExtraRefMutability::Immutable, n)
                &&& x.required@ == resting_names(graph@, extra@, false, n)
                &&& x.resting_immutable@ == resting_names(graph@, extra@, true, n)
            },
        },
{
    let mut x = Extra {
        mutable_entries: Vec::new(),
        immutable_entries: Vec::new(),
        required: SortedSet::new(),
        resting_immutable: SortedSet::new(),
    };
    let mut i: usize = 0;
    while i < extra.len()
        invariant
            i <= extra@.len(),
            forall|i: int|
                0 <= i < extra@.len() && (#[trigger] extra@[i]).found is Some ==> (
                extra@[i].found->0).0 < graph@.len(),
            first_not_found(extra@, i as int) is None,
            x.mutable_entries@ == extra_commits(extra@, ExtraRefMutability::Mutable, i as int),
            x.immutable_entries@ == extra_commits(extra@, ExtraRefMutability::Immutable, i as int),
            x.required@ == resting_names(graph@, extra@, false, i as int),
            x.resting_immutable@ == resting_names(graph@, extra@, true, i as int),
        decreases extra.len() - i,
    {
        let e = &extra[i];
        let (segment, commit) = match e.found {
            Some(found) => found,
            None => {
                proof {
                    lemma_not_found_stays(extra@, i + 1, extra@.len() as int);
                }
                return Err(e.name.clone());
            },
        };
        assert(graph@[segment as int] == graph.segments@[segment as int]@);
        let is_immutable: bool = e.mutability == ExtraRefMutability::Immutable;
        if graph.segments[segment].commits.len() == 0 {
            x.required.insert(e.name.clone());
            if is_immutable {
                x.resting_immutable.insert(e.name.clone());
            }
        }
        if is_immutable {
            x.immutable_entries.push(commit);
        } else {
            x.mutable_entries.push(commit);
        }
        i += 1;
    }
    Ok(x)
}

proof fn lemma_not_found_stays(extra: Seq<ExtraEntry>, n: int, m: int)
    requires
        n <= m,
        first_not_found(extra, n) is Some,
    ensures
        first_not_found(extra, m) == first_not_found(extra, n),
    decreases m - n,
{
    if n < m {
        lemma_not_found_stays(extra, n, m - 1);
    }
}

proof fn lemma_extra_known(
    commits: Seq<CommitView>,
    extra: Seq<ExtraEntry>,
    mutability: ExtraRefMutability,
    n: int,
)
    requires
        n <= extra.len(),
        forall|i: int|
            0 <= i < extra.len() && (#[trigger] extra[i]).found is Some ==> last_index(
                commits,
                (extra[i].found->0).1,
            ) is Some,
    ensures
        forall|id: ObjectId|
            extra_commits(extra, mutability, n).contains(id) ==> last_index(commits, id) is Some,
    decreases n,
{
    if n > 0 {
        lemma_extra_known(commits, extra, mutability, n - 1);
        let (before, all) = (
            extra_commits(extra, mutability, n - 1),
            extra_commits(extra, mutability, n),
        );
        if extra[n - 1].found is Some {
            let own = (extra[n - 1].found->0).1;
            assert(all == before || all == before.push(own));
            assert forall|id: ObjectId| all.contains(id) implies last_index(
                commits,
                id,
            ) is Some by {
                crate::seqs::lemma_push_contains(before, own, id);
            }
        }
    } else {
        assert(extra_commits(extra, mutability, n).len() == 0);
    }
}

/// The commit of the entrypoint is one of the commits.
proof fn lemma_entry_known(source: NativeSource, id: ObjectId)
    requires
        source.wf(),
        source.entry() == Some(id),
    ensures
        last_index(source.commits(), id) is Some,
{
    if let Some((entry, owner)) = source.graph.entry_commit() {
        crate::segment_graph::lemma_entry_in_flat(source.graph, entry, owner);
        let commits = source.commits();
        let i = choose|i: int| 0 <= i < commits.len() && #[trigger] commits[i].id == entry;
        lemma_last_index(commits, entry);
    }
}

/// What makes a step graph from the source gives.
pub open spec fn creates_parts(
    r: NativeParts,
    source: NativeSource,
    defaults: PickDefaults,
    sign: Seq<char>,
) -> bool {
    let plan = source.plan(defaults, sign);
    &&& r.graph@ == built(plan.steps(), plan.edges())
    &&& r.graph@.wf()
    &&& names_view(r.references@) == step_names(plan.steps(), plan.steps().len() as int)
    &&& selected_steps(r.head_selectors@) == steps_named(
        plan.steps(),
        source.entry_segment().name,
        plan.steps().len() as int,
    )
    &&& forall|i: int|
        0 <= i < r.head_selectors@.len() ==> (#[trigger] r.head_selectors@[i]).revision == 0
    &&& r.immutable_references@ == source.immutable_names()
}

proof fn lemma_scoped_known(commits: Seq<CommitView>, scope: Set<ObjectId>, id: ObjectId)
    requires
        commits.len() <= usize::MAX,
        scope.contains(id),
        last_index(commits, id) is Some,
    ensures
        last_index(records(commits, commits.filter(commit_in_scope(scope))), id) is Some,
{
    let kept = commits.filter(commit_in_scope(scope));
    let scoped = records(commits, kept);
    lemma_last_index(commits, id);
    let c = commits[last_index(commits, id)->0 as int];
    assert(commits.contains(c));
    crate::seqs::lemma_filter_contains(commits, commit_in_scope(scope), c);
    lemma_filter_len(commits, commit_in_scope(scope));
    lemma_last_index(scoped, id);
    let i = choose|i: int| 0 <= i < kept.len() && kept[i] == c;
    assert(scoped[i].id == id);
}

/// Later chains start behind earlier ones, and all before the end of the steps.
proof fn lemma_chain_starts(plan: NativePlan, k: int, n: int)
    requires
        0 <= k < n <= plan.chains.len(),
        plan.chains[k].refs.len() > 0,
    ensures
        plan.chain_steps(k).len() < plan.chain_steps(n).len(),
    decreases n,
{
    if k < n - 1 {
        lemma_chain_starts(plan, k, n - 1);
    }
}

/// Make the step graph: the commits in reach with the references on them, the chains of references
/// on segments without commits, and the edges between them.
pub fn create_native(source: &NativeSource, defaults: &PickDefaults, sign: &String) -> (r: Result<
    NativeParts,
    DeriveError,
>)
    requires
        source.wf(),
    ensures
        match r {
            Err(DeriveError::NoEntrypoint) => source.graph.entrypoint is None,
            Err(DeriveError::UnknownRef(name)) => source.graph.entrypoint is Some
                && first_not_found(source.extra_refs@, source.extra_refs@.len() as int) == Some(
                name@,
            ),
            Ok(parts) => source.graph.entrypoint is Some && first_not_found(
                source.extra_refs@,
                source.extra_refs@.len() as int,
            ) is None && creates_parts(parts, *source, *defaults, sign@),
        },
{
    let cg = CommitGraph::from_segment_graph(&source.graph);
    let ghost commits = cg.commits();
    let ghost plan = source.plan(*defaults, sign@);
    let (entry, _) = match source.graph.entrypoint {
        Some(ep) => ep,
        None => return Err(DeriveError::NoEntrypoint),
    };
    let segment = &source.graph.segments[entry];
    assert(source.graph@[entry as int] == segment@);
    let mut extra = match collect_extra(&source.graph, &source.extra_refs) {
        Ok(extra) => extra,
        Err(name) => return Err(DeriveError::UnknownRef(name)),
    };
    let entry_ref = match &segment.ref_info {
        Some(info) => Some(info.ref_name.clone()),
        None => None,
    };
    if segment.commits.len() == 0 {
        if let Some(name) = &entry_ref {
            extra.required.insert(name.clone());
        }
    }
    assert(extra.required@ == source.required());
    let mut mutable_entries: Vec<ObjectId> = Vec::new();
    let first = match source.graph.entrypoint_commit() {
        Some((id, _)) => Some(id),
        None => source.tip_below_entry,
    };
    assert(first == source.entry());
    if let Some(id) = first {
        mutable_entries.push(id);
    }
    assert(mutable_entries@ =~= opt_list(first));
    mutable_entries.append(&mut extra.mutable_entries);
    assert(mutable_entries@ =~= source.mutable_entries());
    let none: Vec<ObjectId> = Vec::new();
    let mutable_scope = find_scope(&cg, &mutable_entries, &none);
    let scope = find_scope(&cg, &mutable_entries, &extra.immutable_entries);
    proof {
        assert(none@ =~= Seq::empty());
        assert forall|id: ObjectId| !scope_of(commits, cg.links(), none@).contains(id) by {
            if scope_of(commits, cg.links(), none@).contains(id) {
                crate::reach::lemma_closed_reachable(
                    parent_steps(commits, cg.links()),
                    Set::empty(),
                    none@,
                    id,
                );
            }
        }
        assert(mutable_scope@ =~= source.mutable_scope());
        assert(scope@ =~= source.scope());
        lemma_source_known(*source);
    }
    let splices = find_splices(&source.stacks, source.workspace_commit_id, &scope);
    let positions = find_positions(&cg, &scope);
    let index = index_positions(&cg, &positions);
    let firsts = index_firsts(&cg, &positions);
    let counted = find_chains(&source.resting_chains, &scope, &extra.required);
    assert(plan.commits =~= commits_at(commits, positions@));
    assert(plan.commits.len() == positions@.len());
    let count: usize = positions.len();
    let (mut graph, starts) = put_blocks(
        &cg,
        &positions,
        &index,
        &scope,
        source.workspace_commit_id,
        defaults,
        sign,
        Ghost(plan),
    );
    proof {
        assert forall|id: ObjectId| #[trigger] plan.scope.contains(id) implies last_index(
            plan.commits,
            id,
        ) is Some by {
            lemma_scoped_known(commits, scope@, id);
        }
        assert(plan.chains =~= chains_at(chains_view(source.resting_chains@), counted@));
        assert forall|k: int| 0 <= k < plan.chains.len() implies (
        #[trigger] plan.chains[k]).refs.len() > 0 && plan.chains[k].below is Some && last_index(
            plan.commits,
            plan.chains[k].below->0,
        ) is Some by {
            let c = chains_view(source.resting_chains@)[counted@[k] as int];
            assert(plan.chains[k] == c);
            assert(chain_counts(scope@, extra.required@)(c));
            assert(plan.scope.contains(c.below->0));
        }
    }
    let chain_starts = put_chains(
        &mut graph,
        &source.resting_chains,
        &counted,
        &firsts,
        &starts,
        Ghost(plan),
    );
    let edge_source = EdgeSource {
        cg: &cg,
        positions: &positions,
        scope: &scope,
        workspace_commit_id: source.workspace_commit_id,
        merge_bypass: &source.merge_bypass,
        splices: &splices,
        chains: &source.resting_chains,
        counted: &counted,
        index: &index,
        firsts: &firsts,
        starts: &starts,
        chain_starts: &chain_starts,
    };
    let ghost laid = plan.block_edges(plan.commits.len() as int) + plan.chains_edges(
        plan.chains.len() as int,
    );
    proof {
        assert forall|k: int| 0 <= k < plan.chains.len() implies #[trigger] chain_starts@[k]
            == plan.chain_start(k) && chain_starts@[k] < plan.steps().len() by {
            assert(plan.chains[k].refs.len() > 0);
            lemma_chain_starts(plan, k, plan.chains.len() as int);
        }
        assert forall|k: int| 0 <= k < plan.commits.len() implies (
        #[trigger] plan.commits[k]).parent_ids.len() + plan.splices.len() <= usize::MAX by {
            assert(plan.commits[k] == commits[positions@[k] as int]);
            assert(splices_view(splices@).len() == splices@.len());
        }
        assert(edge_source.fits(plan));
    }
    edge_source.put_commits_edges(&mut graph, Ghost(plan), Ghost(laid));
    assert(laid + plan.commits_edges(plan.commits.len() as int) =~= plan.edges());
    let mut immutable_references = extra.resting_immutable;
    insert_names_on(&mut immutable_references, &cg, &positions, &scope, &mutable_scope);
    let references = find_step_names(&graph);
    let head_selectors = find_heads(&graph, &entry_ref);
    assert(opt_name(entry_ref) == source.entry_segment().name);
    Ok(NativeParts { graph, references, head_selectors, immutable_references })
}

/// All that is in scope is a commit of the graph.
proof fn lemma_source_known(source: NativeSource)
    requires
        source.wf(),
    ensures
        forall|id: ObjectId| #[trigger]
            source.scope().contains(id) ==> last_index(source.commits(), id) is Some,
{
    let commits = source.commits();
    let extra = source.extra_refs@;
    let n = extra.len() as int;
    lemma_extra_known(commits, extra, ExtraRefMutability::Mutable, n);
    lemma_extra_known(commits, extra, ExtraRefMutability::Immutable, n);
    let own = opt_list(source.entry());
    let more = extra_commits(extra, ExtraRefMutability::Mutable, n);
    assert forall|e: ObjectId| source.mutable_entries().contains(e) implies last_index(
        commits,
        e,
    ) is Some by {
        crate::reach::lemma_add_contains(own, more, e);
        if own.contains(e) {
            lemma_entry_known(source, e);
        }
    }
    assert forall|id: ObjectId| #[trigger] source.scope().contains(id) implies last_index(
        commits,
        id,
    ) is Some by {
        if source.mutable_scope().contains(id) {
            lemma_scope_known(commits, source.links(), source.mutable_entries(), id);
        } else {
            lemma_scope_known(commits, source.links(), source.immutable_entries(), id);
        }
    }
}

/// Each commit in scope is at its step, and between the topmost reference on it and that step are the
/// references on it.
pub proof fn law_commits_are_at_their_steps(plan: NativePlan, k: int)
    requires
        distinct_ids(plan.commits),
        0 <= k < plan.commits.len() <= usize::MAX,
    ensures
        ({
            let commit = plan.commits[k];
            let (top, at) = (plan.chain_top(commit.id), plan.pick_node(commit.id));
            &&& 0 <= top <= at < plan.steps().len()
            &&& plan.steps()[at] == StepView::Pick(plan.pick(k))
            &&& plan.steps().subrange(top, at) == ref_steps(commit.refs)
        }),
{
    let commit = plan.commits[k];
    lemma_own_index(plan.commits, k);
    plan.lemma_commit_nodes(commit.id);
    let n = plan.commits.len() as int;
    lemma_blocks_prefix(plan, k + 1, n);
    let (top, at) = (plan.blocks(k).len() as int, plan.blocks(k + 1).len() - 1);
    let own = plan.block(k);
    assert(is_called(commit.id)(plan.commits[k]));
    lemma_first_among(plan.commits, is_called(commit.id), n);
    assert(first_where(plan.commits, is_called(commit.id)) == Some(k)) by {
        let f = first_where(plan.commits, is_called(commit.id))->0;
        assert(plan.commits[f].id == commit.id);
        if f < k {
            assert(plan.commits[f].id != plan.commits[k].id);
        }
    }
    assert(plan.blocks(k + 1) == plan.blocks(k) + own);
    assert forall|i: int| 0 <= i < own.len() implies #[trigger] plan.steps()[top + i] == own[i] by {
        assert(plan.blocks(k + 1)[top + i] == own[i]);
        assert(plan.blocks(n)[top + i] == plan.blocks(k + 1)[top + i]);
    }
    assert(plan.steps()[top + (own.len() - 1)] == own[own.len() - 1]);
    assert(plan.steps().subrange(top, at) =~= ref_steps(commit.refs)) by {
        assert forall|i: int| 0 <= i < at - top implies plan.steps().subrange(top, at)[i]
            == ref_steps(commit.refs)[i] by {
            assert(plan.steps()[top + i] == own[i]);
        }
    }
}

/// The steps of the first commits come first.
proof fn lemma_blocks_prefix(plan: NativePlan, k: int, n: int)
    requires
        0 <= k <= n,
    ensures
        plan.blocks(k).len() <= plan.blocks(n).len(),
        forall|i: int|
            0 <= i < plan.blocks(k).len() ==> #[trigger] plan.blocks(n)[i] == plan.blocks(k)[i],
    decreases n - k,
{
    if k < n {
        lemma_blocks_prefix(plan, k, n - 1);
        assert forall|i: int| 0 <= i < plan.blocks(k).len() implies #[trigger] plan.blocks(n)[i]
            == plan.blocks(k)[i] by {
            assert(plan.blocks(n - 1)[i] == plan.blocks(k)[i]);
        }
    }
}

/// A commit of which a connection was cut is connected with each of its parents directly, in their
/// order.
pub proof fn law_severed_leads_to_its_parents(plan: NativePlan, k: int, n: int)
    requires
        plan.severed(plan.commits[k]),
        0 <= n <= plan.commits[k].parent_ids.len(),
    ensures
        plan.parent_edges(k, n) == Seq::new(
            n as nat,
            |i: int|
                EdgeRecord {
                    source: plan.pick_node(plan.commits[k].id) as usize,
                    target: plan.pick_node(plan.commits[k].parent_ids[i]) as usize,
                    weight: Edge { order: i as usize },
                },
        ),
    decreases n,
{
    let commit = plan.commits[k];
    let wanted = |i: int|
        EdgeRecord {
            source: plan.pick_node(commit.id) as usize,
            target: plan.pick_node(commit.parent_ids[i]) as usize,
            weight: Edge { order: i as usize },
        };
    if n > 0 {
        law_severed_leads_to_its_parents(plan, k, n - 1);
        assert(plan.scope.contains(commit.parent_ids[n - 1]));
        assert(Seq::new(n as nat, wanted) =~= Seq::new((n - 1) as nat, wanted).push(wanted(n - 1)));
    }
    assert(plan.parent_edges(k, n) =~= Seq::new(n as nat, wanted));
}

/// A merge does not see the references on a parent that merges bypass: it is connected with the
/// parent itself. The workspace commit does not count.
pub proof fn law_merges_bypass_references(plan: NativePlan, k: int, n: int, j: int)
    requires
        0 <= n <= plan.commits[k].parent_ids.len() <= usize::MAX,
        plan.commits[k].parent_ids.len() > 1,
        Some(plan.commits[k].id) != plan.workspace_commit_id,
        0 <= j < plan.parent_edges(k, n).len(),
    ensures
        ({
            let edge = plan.parent_edges(k, n)[j];
            let parent = plan.commits[k].parent_ids[edge.weight.order as int];
            &&& edge.weight.order < n
            &&& plan.merge_bypass.contains(parent) ==> edge.target == plan.pick_node(
                parent,
            ) as usize
        }),
    decreases n,
{
    if n > 0 && j < plan.parent_edges(k, n - 1).len() {
        law_merges_bypass_references(plan, k, n - 1, j);
    }
}

} // verus!
