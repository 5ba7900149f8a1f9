//! Where references are placed, read off the segments of a traversal.
//!
//! Each segment is a run of nodes: its name, and then for each commit the references on it and the
//! commit itself. Runs are connected from their last node to the first node of other runs.

use crate::collections::{SortedMap, SortedSet};
use crate::commit::{
    clone_ids, commits_view, names_view, opt_name, ref_names, same_ids, Commit, CommitView, RefInfo,
};
use crate::editor_graph::WALK_LIMIT;
use crate::lanes::sort_legs;
use crate::names::{ObjectId, RefName};
use crate::order::{models, sort, sorted};
use crate::placements::{
    placed_view, CommitLeg, PlacedRef, PlacedView, PlacementsView, RefPlacements,
};
use crate::reach::{reachable, steps_of, visit_all, Successors};
use crate::segment_graph::{
    has_commit, Connection, Segment, SegmentGraph, SegmentIndex, SegmentView,
};
use crate::seqs::{lemma_filter_none, lemma_filter_take, lemma_take_all};
use vstd::prelude::*;
use vstd::string::*;

verus! {

/// What a node of a run is.
#[derive(Debug)]
pub enum RunStep {
    /// A reference.
    Ref {
        /// Its name.
        name: RefName,
        /// Whether it may be moved.
        mutable: bool,
    },
    /// A commit.
    Commit {
        /// Its id.
        id: ObjectId,
        /// Its parents, as the commit has them.
        parent_ids: Vec<ObjectId>,
    },
    /// What stands for a segment with neither a name nor commits.
    Blank,
}

/// What a [`RunStep`] stands for.
#[verifier::ext_equal]
pub enum RunView {
    /// A reference.
    Ref {
        /// Its name.
        name: Seq<u8>,
        /// Whether it may be moved.
        mutable: bool,
    },
    /// A commit.
    Commit {
        /// Its id.
        id: ObjectId,
        /// Its parents, as the commit has them.
        parent_ids: Seq<ObjectId>,
    },
    /// What stands for a segment with neither a name nor commits.
    Blank,
}

impl View for RunStep {
    type V = RunView;

    open spec fn view(&self) -> RunView {
        match self {
            RunStep::Ref { name, mutable } => RunView::Ref { name: name@, mutable: *mutable },
            RunStep::Commit { id, parent_ids } => RunView::Commit {
                id: *id,
                parent_ids: parent_ids@,
            },
            RunStep::Blank => RunView::Blank,
        }
    }
}

/// What the nodes stand for.
pub open spec fn run_view(nodes: Seq<RunStep>) -> Seq<RunView> {
    nodes.map_values(|n: RunStep| n@)
}

/// The references as nodes.
pub open spec fn refs_run(names: Seq<Seq<u8>>, mutable: bool) -> Seq<RunView> {
    names.map_values(|n: Seq<u8>| RunView::Ref { name: n, mutable })
}

/// The first `n` commits as nodes, each one behind the references on it.
pub open spec fn commits_run(commits: Seq<CommitView>, mutable: bool, n: int) -> Seq<RunView>
    decreases n,
{
    if n <= 0 {
        Seq::empty()
    } else {
        let commit = commits[n - 1];
        commits_run(commits, mutable, n - 1) + refs_run(commit.refs, mutable).push(
            RunView::Commit { id: commit.id, parent_ids: commit.parent_ids },
        )
    }
}

/// The name of a segment as a node.
pub open spec fn named_run(name: Option<Seq<u8>>, mutable: bool) -> Seq<RunView> {
    match name {
        Some(name) => seq![RunView::Ref { name, mutable }],
        None => Seq::empty(),
    }
}

/// The run of a segment.
pub open spec fn segment_run(segment: SegmentView, mutable: bool) -> Seq<RunView> {
    let run = named_run(segment.name, mutable) + commits_run(
        segment.commits,
        mutable,
        segment.commits.len() as int,
    );
    if run.len() == 0 {
        seq![RunView::Blank]
    } else {
        run
    }
}

/// The runs of the first `n` segments, one behind the other. Those in `mutable` may be changed.
pub open spec fn runs(segments: Seq<SegmentView>, mutable: Set<usize>, n: int) -> Seq<RunView>
    decreases n,
{
    if n <= 0 {
        Seq::empty()
    } else {
        runs(segments, mutable, n - 1) + segment_run(
            segments[n - 1],
            mutable.contains((n - 1) as usize),
        )
    }
}

/// All nodes.
pub open spec fn all_nodes(segments: Seq<SegmentView>, mutable: Set<usize>) -> Seq<RunView> {
    runs(segments, mutable, segments.len() as int)
}

/// Add the references to the nodes.
fn push_refs(nodes: &mut Vec<RunStep>, refs: &Vec<RefInfo>, mutable: bool)
    ensures
        run_view(final(nodes)@) == run_view(old(nodes)@) + refs_run(ref_names(refs@), mutable),
{
    let ghost before = run_view(nodes@);
    let ghost all = refs_run(ref_names(refs@), mutable);
    let mut i: usize = 0;
    assert(before =~= before + all.take(0));
    while i < refs.len()
        invariant
            i <= refs@.len(),
            all == refs_run(ref_names(refs@), mutable),
            run_view(nodes@) == before + all.take(i as int),
        decreases refs.len() - i,
    {
        let ghost held = nodes@;
        let step = RunStep::Ref { name: refs[i].ref_name.clone(), mutable };
        nodes.push(step);
        assert(step@ == all[i as int]);
        assert(run_view(nodes@) =~= run_view(held).push(step@));
        assert(before + all.take(i + 1) =~= (before + all.take(i as int)).push(all[i as int]));
        i += 1;
    }
    assert(all.take(i as int) =~= all);
}

/// Add the commits to the nodes, each one behind the references on it.
fn push_commits(nodes: &mut Vec<RunStep>, commits: &Vec<Commit>, mutable: bool)
    ensures
        run_view(final(nodes)@) == run_view(old(nodes)@) + commits_run(
            commits_view(commits@),
            mutable,
            commits@.len() as int,
        ),
{
    let ghost before = run_view(nodes@);
    let ghost all = commits_view(commits@);
    let mut i: usize = 0;
    assert(before =~= before + commits_run(all, mutable, 0));
    while i < commits.len()
        invariant
            i <= commits@.len(),
            all == commits_view(commits@),
            run_view(nodes@) == before + commits_run(all, mutable, i as int),
        decreases commits.len() - i,
    {
        let commit = &commits[i];
        assert(all[i as int] == commit@);
        push_refs(nodes, &commit.refs, mutable);
        let ghost held = nodes@;
        let step = RunStep::Commit { id: commit.id, parent_ids: clone_ids(&commit.parent_ids) };
        nodes.push(step);
        assert(run_view(nodes@) =~= run_view(held).push(step@));
        assert(run_view(nodes@) =~= before + commits_run(all, mutable, i + 1));
        i += 1;
    }
}

/// Add the run of the segment to the nodes.
fn push_segment(nodes: &mut Vec<RunStep>, segment: &Segment, mutable: bool)
    ensures
        run_view(final(nodes)@) == run_view(old(nodes)@) + segment_run(segment@, mutable),
        segment_run(segment@, mutable).len() > 0,
{
    let ghost before = nodes@;
    let start: usize = nodes.len();
    let ghost name = segment@.name;
    if let Some(info) = &segment.ref_info {
        let step = RunStep::Ref { name: info.ref_name.clone(), mutable };
        nodes.push(step);
        assert(run_view(nodes@) =~= run_view(before) + named_run(name, mutable));
    } else {
        assert(run_view(nodes@) =~= run_view(before) + named_run(name, mutable));
    }
    push_commits(nodes, &segment.commits, mutable);
    let ghost run = named_run(name, mutable) + commits_run(
        segment@.commits,
        mutable,
        segment@.commits.len() as int,
    );
    assert(run_view(nodes@) =~= run_view(before) + run);
    assert(run_view(nodes@).len() == nodes@.len());
    assert(run_view(before).len() == start);
    if nodes.len() == start {
        let ghost held = nodes@;
        nodes.push(RunStep::Blank);
        assert(run_view(nodes@) =~= run_view(held).push(RunView::Blank));
        assert(run_view(nodes@) =~= run_view(before) + seq![RunView::Blank]);
    }
}

/// All nodes, and where the run of each segment starts, with the end of all behind them.
fn build_nodes(graph: &SegmentGraph, mutable: &SortedSet<usize>) -> (r: (Vec<RunStep>, Vec<usize>))
    ensures
        run_view(r.0@) == all_nodes(graph@, mutable@),
        r.1@.len() == graph@.len() + 1,
        forall|s: int|
            0 <= s <= graph@.len() ==> #[trigger] r.1@[s] == runs(graph@, mutable@, s).len(),
        forall|s: int|
            0 <= s < graph@.len() ==> #[trigger] r.1@[s] < r.0@.len(),
{
    let mut nodes: Vec<RunStep> = Vec::new();
    let mut starts: Vec<usize> = Vec::new();
    starts.push(0);
    let mut i: usize = 0;
    assert(run_view(nodes@) =~= runs(graph@, mutable@, 0));
    while i < graph.segments.len()
        invariant
            i <= graph.segments@.len(),
            run_view(nodes@) == runs(graph@, mutable@, i as int),
            starts@.len() == i + 1,
            starts@[i as int] == nodes@.len(),
            forall|s: int|
                0 <= s <= i ==> #[trigger] starts@[s] == runs(graph@, mutable@, s).len(),
            forall|s: int| 0 <= s < i ==> #[trigger] starts@[s] < nodes@.len(),
        decreases graph.segments.len() - i,
    {
        assert(graph@[i as int] == graph.segments@[i as int]@);
        let ghost before = nodes@;
        push_segment(&mut nodes, &graph.segments[i], mutable.contains(&i));
        assert(run_view(nodes@) == runs(graph@, mutable@, i + 1));
        assert(run_view(nodes@).len() == nodes@.len());
        assert(run_view(before).len() == before.len());
        starts.push(nodes.len());
        i += 1;
    }
    (nodes, starts)
}

/// Whether the node is a commit.
pub open spec fn is_commit(node: RunView) -> bool {
    node is Commit
}

/// The id of a node that is a commit.
pub open spec fn commit_id(node: RunView) -> ObjectId {
    node->Commit_id
}

/// The last of the first `n` nodes that is the commit `id`.
pub open spec fn commit_in(nodes: Seq<RunView>, id: ObjectId, n: int) -> Option<usize>
    decreases n,
{
    if n <= 0 {
        None
    } else if is_commit(nodes[n - 1]) && commit_id(nodes[n - 1]) == id {
        Some((n - 1) as usize)
    } else {
        commit_in(nodes, id, n - 1)
    }
}

/// The node of the commit `id`, if it is there.
pub open spec fn commit_node(nodes: Seq<RunView>, id: ObjectId) -> Option<usize> {
    commit_in(nodes, id, nodes.len() as int)
}

/// The map holds the nodes of the commits.
pub open spec fn indexes(map: Map<ObjectId, usize>, nodes: Seq<RunView>, n: int) -> bool {
    forall|id: ObjectId|
        #![trigger map.dom().contains(id)]
        #![trigger commit_in(nodes, id, n)]
        commit_in(nodes, id, n) == if map.dom().contains(id) {
            Some(map[id])
        } else {
            None
        }
}

proof fn lemma_commit_in(nodes: Seq<RunView>, id: ObjectId, n: int)
    requires
        n <= nodes.len() <= usize::MAX,
    ensures
        commit_in(nodes, id, n) matches Some(i) ==> i < n && is_commit(nodes[i as int])
            && commit_id(nodes[i as int]) == id,
    decreases n,
{
    if n > 0 {
        lemma_commit_in(nodes, id, n - 1);
    }
}

/// The nodes of the commits, by their ids.
fn index_commits(nodes: &Vec<RunStep>) -> (r: SortedMap<ObjectId, usize>)
    ensures
        indexes(r@, run_view(nodes@), nodes@.len() as int),
        forall|id: ObjectId| #[trigger] r@.dom().contains(id) ==> r@[id] < nodes@.len(),
{
    let mut r: SortedMap<ObjectId, usize> = SortedMap::new();
    let ghost view = run_view(nodes@);
    let mut i: usize = 0;
    while i < nodes.len()
        invariant
            i <= nodes@.len(),
            view == run_view(nodes@),
            indexes(r@, view, i as int),
            forall|id: ObjectId| #[trigger] r@.dom().contains(id) ==> r@[id] < nodes@.len(),
        decreases nodes.len() - i,
    {
        assert(view[i as int] == nodes@[i as int]@);
        let ghost before = r@;
        if let RunStep::Commit { id, .. } = &nodes[i] {
            r.insert(*id, i);
        }
        assert forall|x: ObjectId| commit_in(view, x, i + 1) == if #[trigger] r@.dom().contains(x) {
            Some(r@[x])
        } else {
            None
        } by {
            assert(commit_in(view, x, i as int) == if before.dom().contains(x) {
                Some(before[x])
            } else {
                None
            });
        }
        i += 1;
    }
    r
}

/// The parents that the commit `id` has, if it is there.
pub open spec fn parents_of_commit(nodes: Seq<RunView>, id: ObjectId) -> Option<Seq<ObjectId>> {
    match commit_node(nodes, id) {
        Some(i) => match nodes[i as int] {
            RunView::Commit { parent_ids, .. } => Some(parent_ids),
            _ => None,
        },
        None => None,
    }
}

/// The parents that the commit which the connection leaves has.
pub open spec fn connection_parents(nodes: Seq<RunView>, c: Connection) -> Option<Seq<ObjectId>> {
    match c.src_id {
        Some(src) => parents_of_commit(nodes, src),
        None => None,
    }
}

/// Which of these parents the connection reaches.
pub open spec fn real_parent(nodes: Seq<RunView>, c: Connection) -> Option<int> {
    match (connection_parents(nodes, c), c.dst_id) {
        (Some(parents), Some(dst)) => crate::seqs::first_where(
            parents,
            |p: ObjectId| p == dst,
        ),
        _ => None,
    }
}

/// How many of the first `n` connections reach no parent of a commit.
pub open spec fn unranked(nodes: Seq<RunView>, connections: Seq<Connection>, n: int) -> nat
    decreases n,
{
    if n <= 0 {
        0
    } else {
        let before = unranked(nodes, connections, n - 1);
        if real_parent(nodes, connections[n - 1]) is None {
            before + 1
        } else {
            before
        }
    }
}

/// The rank of a connection: which parent it reaches, or else a place behind the parents.
pub open spec fn rank_of(nodes: Seq<RunView>, connections: Seq<Connection>, i: int) -> int {
    match real_parent(nodes, connections[i]) {
        Some(index) => index,
        None => match connection_parents(nodes, connections[i]) {
            Some(parents) => parents.len() + unranked(nodes, connections, i) as int,
            None => unranked(nodes, connections, i) as int,
        },
    }
}

/// The ranks of the first `n` connections, each with the position of the connection.
pub open spec fn ranks(nodes: Seq<RunView>, connections: Seq<Connection>, n: int) -> Seq<
    (u128, usize),
> {
    Seq::new(n as nat, |i: int| (rank_of(nodes, connections, i) as u128, i as usize))
}

/// The first nodes of the runs that the connections reach, by rank and then in their order.
pub open spec fn targets(
    segments: Seq<SegmentView>,
    mutable: Set<usize>,
    connections: Seq<Connection>,
) -> Seq<usize> {
    let nodes = all_nodes(segments, mutable);
    sorted::<(u128, usize)>(ranks(nodes, connections, connections.len() as int)).map_values(
        |r: (u128, usize)|
            runs(segments, mutable, connections[r.1 as int].target as int).len() as usize,
    )
}

/// What the nodes of the run of the segment `s` lead to: each one to the next one, and the last one
/// to the runs that the connections reach.
pub open spec fn run_links(segments: Seq<SegmentView>, mutable: Set<usize>, s: int) -> Seq<
    Seq<usize>,
> {
    let start = runs(segments, mutable, s).len();
    let len = segment_run(segments[s], mutable.contains(s as usize)).len();
    Seq::new(
        len,
        |i: int|
            if i + 1 < len {
                seq![(start + i + 1) as usize]
            } else {
                targets(segments, mutable, segments[s].connections)
            },
    )
}

/// What the nodes of the first `n` runs lead to.
pub open spec fn links(segments: Seq<SegmentView>, mutable: Set<usize>, n: int) -> Seq<Seq<usize>>
    decreases n,
{
    if n <= 0 {
        Seq::empty()
    } else {
        links(segments, mutable, n - 1) + run_links(segments, mutable, n - 1)
    }
}

/// What the lists stand for.
pub open spec fn index_lists(lists: Seq<Vec<usize>>) -> Seq<Seq<usize>> {
    lists.map_values(|l: Vec<usize>| l@)
}

/// The lists only hold indices below `n`.
pub open spec fn lists_below(lists: Seq<Seq<usize>>, n: int) -> bool {
    forall|i: int, j: int|
        0 <= i < lists.len() && 0 <= j < lists[i].len() ==> #[trigger] lists[i][j] < n
}

/// The position of the id in the list.
fn id_position(ids: &Vec<ObjectId>, id: ObjectId) -> (r: Option<usize>)
    ensures
        match r {
            Some(i) => crate::seqs::first_where(ids@, |p: ObjectId| p == id) == Some(i as int),
            None => crate::seqs::first_where(ids@, |p: ObjectId| p == id) is None,
        },
{
    let ghost test = |p: ObjectId| p == id;
    let mut i: usize = 0;
    while i < ids.len()
        invariant
            i <= ids@.len(),
            test == (|p: ObjectId| p == id),
            crate::seqs::first_among(ids@, test, i as int) is None,
        decreases ids.len() - i,
    {
        if ids[i] == id {
            proof {
                crate::seqs::lemma_first_found(ids@, test, i as int);
            }
            return Some(i);
        }
        i += 1;
    }
    None
}

/// The ranks of the connections, each with the position of the connection.
fn rank_connections(
    nodes: &Vec<RunStep>,
    commits: &SortedMap<ObjectId, usize>,
    connections: &Vec<Connection>,
) -> (r: Vec<(u128, usize)>)
    requires
        indexes(commits@, run_view(nodes@), nodes@.len() as int),
        forall|id: ObjectId| #[trigger] commits@.dom().contains(id) ==> commits@[id] < nodes@.len(),
    ensures
        r@ == ranks(run_view(nodes@), connections@, connections@.len() as int),
{
    let ghost view = run_view(nodes@);
    let mut r: Vec<(u128, usize)> = Vec::new();
    let mut count: usize = 0;
    let mut i: usize = 0;
    assert(r@ =~= ranks(view, connections@, 0));
    while i < connections.len()
        invariant
            i <= connections@.len(),
            view == run_view(nodes@),
            indexes(commits@, view, nodes@.len() as int),
            forall|id: ObjectId| #[trigger]
                commits@.dom().contains(id) ==> commits@[id] < nodes@.len(),
            r@ == ranks(view, connections@, i as int),
            count == unranked(view, connections@, i as int),
            count <= i,
        decreases connections.len() - i,
    {
        let c = connections[i];
        let mut len: usize = 0;
        let mut found: Option<usize> = None;
        if let Some(src) = c.src_id {
            assert(commit_in(view, src, nodes@.len() as int) == commit_node(view, src));
            if let Some(node) = commits.get(&src) {
                assert(commits@.dom().contains(src));
                assert(view[*node as int] == nodes@[*node as int]@);
                if let RunStep::Commit { parent_ids, .. } = &nodes[*node] {
                    len = parent_ids.len();
                    if let Some(dst) = c.dst_id {
                        found = id_position(parent_ids, dst);
                    }
                }
            }
        }
        match found {
            Some(index) => {
                r.push((index as u128, i));
            },
            None => {
                r.push((len as u128 + count as u128, i));
                count += 1;
            },
        }
        assert(r@ =~= ranks(view, connections@, i + 1));
        i += 1;
    }
    r
}

/// The first nodes of the runs that the connections of the segment reach.
fn find_targets(
    graph: &SegmentGraph,
    Ghost(mutable): Ghost<Set<usize>>,
    nodes: &Vec<RunStep>,
    starts: &Vec<usize>,
    commits: &SortedMap<ObjectId, usize>,
    s: usize,
) -> (r: Vec<usize>)
    requires
        graph.wf(),
        s < graph@.len(),
        run_view(nodes@) == all_nodes(graph@, mutable),
        starts@.len() == graph@.len() + 1,
        forall|i: int|
            0 <= i <= graph@.len() ==> #[trigger] starts@[i] == runs(graph@, mutable, i).len(),
        forall|i: int| 0 <= i < graph@.len() ==> #[trigger] starts@[i] < nodes@.len(),
        indexes(commits@, run_view(nodes@), nodes@.len() as int),
        forall|id: ObjectId| #[trigger] commits@.dom().contains(id) ==> commits@[id] < nodes@.len(),
    ensures
        r@ == targets(graph@, mutable, graph@[s as int].connections),
        forall|i: int| 0 <= i < r@.len() ==> #[trigger] r@[i] < nodes@.len(),
{
    let connections = &graph.segments[s].connections;
    let ghost given = ranks(run_view(nodes@), connections@, connections@.len() as int);
    assert(graph@[s as int].connections == connections@);
    let ranked = rank_connections(nodes, commits, connections);
    assert(models(ranked@) =~= given);
    let order = sort(ranked);
    assert(models(order@) =~= order@);
    let ghost want = targets(graph@, mutable, connections@);
    let mut r: Vec<usize> = Vec::new();
    let mut i: usize = 0;
    while i < order.len()
        invariant
            i <= order@.len(),
            s < graph@.len(),
            graph.wf(),
            *connections == graph.segments@[s as int].connections,
            order@ == sorted::<(u128, usize)>(given),
            given == ranks(run_view(nodes@), connections@, connections@.len() as int),
            run_view(nodes@) == all_nodes(graph@, mutable),
            want == targets(graph@, mutable, connections@),
            want.len() == order@.len(),
            starts@.len() == graph@.len() + 1,
            forall|i: int|
                0 <= i <= graph@.len() ==> #[trigger] starts@[i] == runs(graph@, mutable, i).len(),
            forall|i: int| 0 <= i < graph@.len() ==> #[trigger] starts@[i] < nodes@.len(),
            r@ == want.take(i as int),
            forall|i: int| 0 <= i < r@.len() ==> #[trigger] r@[i] < nodes@.len(),
        decreases order.len() - i,
    {
        let (_, c) = order[i];
        proof {
            crate::order::lemma_sorted_contains::<(u128, usize)>(given, order@[i as int]);
            assert(sorted::<(u128, usize)>(given).contains(order@[i as int]));
            let j = choose|j: int| 0 <= j < given.len() && given[j] == order@[i as int];
            assert(c < connections@.len());
            assert(connections@[c as int].target < graph@.len());
        }
        let t: usize = starts[connections[c].target];
        assert(want[i as int] == t);
        r.push(t);
        assert(want.take(i + 1) =~= want.take(i as int).push(t));
        i += 1;
    }
    assert(want.take(i as int) =~= want);
    r
}

/// What the nodes lead to.
fn link_runs(
    graph: &SegmentGraph,
    Ghost(mutable): Ghost<Set<usize>>,
    nodes: &Vec<RunStep>,
    starts: &Vec<usize>,
    commits: &SortedMap<ObjectId, usize>,
) -> (r: Vec<Vec<usize>>)
    requires
        graph.wf(),
        run_view(nodes@) == all_nodes(graph@, mutable),
        starts@.len() == graph@.len() + 1,
        forall|i: int|
            0 <= i <= graph@.len() ==> #[trigger] starts@[i] == runs(graph@, mutable, i).len(),
        forall|i: int| 0 <= i < graph@.len() ==> #[trigger] starts@[i] < nodes@.len(),
        indexes(commits@, run_view(nodes@), nodes@.len() as int),
        forall|id: ObjectId| #[trigger] commits@.dom().contains(id) ==> commits@[id] < nodes@.len(),
    ensures
        index_lists(r@) == links(graph@, mutable, graph@.len() as int),
        r@.len() == nodes@.len(),
        lists_below(index_lists(r@), nodes@.len() as int),
{
    let mut r: Vec<Vec<usize>> = Vec::new();
    let mut s: usize = 0;
    assert(index_lists(r@) =~= links(graph@, mutable, 0));
    assert(run_view(nodes@).len() == nodes@.len());
    while s < graph.segments.len()
        invariant
            s <= graph@.len(),
            graph@.len() == graph.segments@.len(),
            graph.wf(),
            run_view(nodes@) == all_nodes(graph@, mutable),
            starts@.len() == graph@.len() + 1,
            starts@[graph@.len() as int] == nodes@.len(),
            forall|i: int|
                0 <= i <= graph@.len() ==> #[trigger] starts@[i] == runs(graph@, mutable, i).len(),
            forall|i: int| 0 <= i < graph@.len() ==> #[trigger] starts@[i] < nodes@.len(),
            indexes(commits@, run_view(nodes@), nodes@.len() as int),
            forall|id: ObjectId| #[trigger]
                commits@.dom().contains(id) ==> commits@[id] < nodes@.len(),
            index_lists(r@) == links(graph@, mutable, s as int),
            r@.len() == starts@[s as int],
            lists_below(index_lists(r@), nodes@.len() as int),
        decreases graph.segments.len() - s,
    {
        let ghost before = index_lists(r@);
        let ghost run = run_links(graph@, mutable, s as int);
        let start: usize = starts[s];
        let end: usize = starts[s + 1];
        proof {
            assert(graph@[s as int] == graph.segments@[s as int]@);
            assert(end - start == run.len());
            lemma_starts(graph@, mutable, s + 1, graph@.len() as int);
        }
        let mut i: usize = start;
        assert(before =~= before + run.take(0));
        while i + 1 < end
            invariant
                start <= i,
                start == end || i < end,
                end <= nodes@.len(),
                run == run_links(graph@, mutable, s as int),
                run.len() == end - start,
                start == runs(graph@, mutable, s as int).len(),
                index_lists(r@) == before + run.take(i - start),
                r@.len() == i,
                lists_below(index_lists(r@), nodes@.len() as int),
            decreases end - i,
        {
            let ghost held = r@;
            let mut one: Vec<usize> = Vec::new();
            one.push(i + 1);
            r.push(one);
            assert(one@ =~= seq![(i + 1) as usize]);
            assert(run[i - start] == one@);
            assert(index_lists(r@) =~= index_lists(held).push(one@));
            assert(before + run.take(i + 1 - start) =~= (before + run.take(i - start)).push(one@));
            i += 1;
        }
        if i < end {
            let ghost held = r@;
            let last = find_targets(graph, Ghost(mutable), nodes, starts, commits, s);
            r.push(last);
            assert(run[i - start] == last@);
            assert(index_lists(r@) =~= index_lists(held).push(last@));
            assert(run.take(i - start).push(last@) =~= run);
            assert(before + run =~= (before + run.take(i - start)).push(last@));
        }
        s += 1;
    }
    r
}

/// Later runs start behind earlier ones.
proof fn lemma_starts(segments: Seq<SegmentView>, mutable: Set<usize>, s: int, n: int)
    requires
        0 <= s <= n,
    ensures
        runs(segments, mutable, s).len() <= runs(segments, mutable, n).len(),
    decreases n - s,
{
    if s < n {
        lemma_starts(segments, mutable, s, n - 1);
    }
}

/// The commits that the nodes of the list stand for, in order: a commit stands for itself, and any
/// other node for what its own list stands for, along at most `fuel` such nodes.
pub open spec fn flat(
    nodes: Seq<RunView>,
    lists: Seq<Seq<usize>>,
    list: Seq<usize>,
    fuel: nat,
) -> Seq<ObjectId>
    decreases fuel, list.len(),
{
    if list.len() == 0 {
        Seq::empty()
    } else {
        flat(nodes, lists, list.drop_last(), fuel) + flat_node(nodes, lists, list.last(), fuel)
    }
}

/// The commits that the node stands for.
pub open spec fn flat_node(
    nodes: Seq<RunView>,
    lists: Seq<Seq<usize>>,
    node: usize,
    fuel: nat,
) -> Seq<ObjectId>
    decreases fuel, 0nat,
{
    match nodes[node as int] {
        RunView::Commit { id, .. } => seq![id],
        _ => if fuel == 0 {
            Seq::empty()
        } else {
            flat(nodes, lists, lists[node as int], (fuel - 1) as nat)
        },
    }
}

/// The nodes of those of the first `n` ids that are there.
pub open spec fn present(nodes: Seq<RunView>, ids: Seq<ObjectId>, n: int) -> Seq<usize>
    decreases n,
{
    if n <= 0 {
        Seq::empty()
    } else {
        let before = present(nodes, ids, n - 1);
        match commit_node(nodes, ids[n - 1]) {
            Some(i) => before.push(i),
            None => before,
        }
    }
}

/// Whether one of the ids is not there.
pub open spec fn partial(nodes: Seq<RunView>, ids: Seq<ObjectId>) -> bool {
    exists|i: int| 0 <= i < ids.len() && commit_node(nodes, #[trigger] ids[i]) is None
}

/// The lists with those of the first `n` nodes put right that are commits with all their parents
/// there, and whose lists stand for others than these parents: such a commit leads to its parents
/// themselves. Of a commit that is there more than once, the last node is put right. The workspace
/// commit keeps what it has.
pub open spec fn rewired(
    nodes: Seq<RunView>,
    lists: Seq<Seq<usize>>,
    workspace_commit_id: Option<ObjectId>,
    n: int,
) -> Seq<Seq<usize>>
    decreases n,
{
    if n <= 0 {
        lists
    } else {
        let before = rewired(nodes, lists, workspace_commit_id, n - 1);
        match nodes[n - 1] {
            RunView::Commit { id, parent_ids } => {
                let at = commit_node(nodes, id)->0 as int;
                if workspace_commit_id == Some(id) || partial(nodes, parent_ids) || flat(
                    nodes,
                    before,
                    before[at],
                    nodes.len(),
                ) == parent_ids {
                    before
                } else {
                    before.update(at, present(nodes, parent_ids, parent_ids.len() as int))
                }
            },
            _ => before,
        }
    }
}

/// Add the commits that the nodes of the list stand for.
fn flatten(
    nodes: &Vec<RunStep>,
    lists: &Vec<Vec<usize>>,
    list: &Vec<usize>,
    fuel: usize,
    out: &mut Vec<ObjectId>,
)
    requires
        lists@.len() == nodes@.len(),
        lists_below(index_lists(lists@), nodes@.len() as int),
        forall|i: int| 0 <= i < list@.len() ==> #[trigger] list@[i] < nodes@.len(),
    ensures
        final(out)@ == old(out)@ + flat(
            run_view(nodes@),
            index_lists(lists@),
            list@,
            fuel as nat,
        ),
    decreases fuel,
{
    let ghost view = run_view(nodes@);
    let ghost all = index_lists(lists@);
    let ghost before = out@;
    let mut i: usize = 0;
    assert(out@ =~= before + flat(view, all, list@.take(0), fuel as nat));
    while i < list.len()
        invariant
            i <= list@.len(),
            lists@.len() == nodes@.len(),
            view == run_view(nodes@),
            all == index_lists(lists@),
            lists_below(all, nodes@.len() as int),
            forall|i: int| 0 <= i < list@.len() ==> #[trigger] list@[i] < nodes@.len(),
            out@ == before + flat(view, all, list@.take(i as int), fuel as nat),
        decreases list.len() - i,
    {
        let node: usize = list[i];
        let ghost held = out@;
        assert(view[node as int] == nodes@[node as int]@);
        assert(all[node as int] == lists@[node as int]@);
        match &nodes[node] {
            RunStep::Commit { id, .. } => {
                out.push(*id);
                assert(out@ =~= held + seq![*id]);
            },
            _ => {
                if fuel > 0 {
                    assert forall|j: int| 0 <= j < lists@[node as int]@.len() implies #[trigger]
                    lists@[node as int]@[j] < nodes@.len() by {
                        assert(all[node as int][j] < nodes@.len());
                    }
                    flatten(nodes, lists, &lists[node], fuel - 1, out);
                } else {
                    assert(out@ =~= held + Seq::empty());
                }
            },
        }
        assert(out@ == held + flat_node(view, all, node, fuel as nat));
        assert(list@.take(i + 1).drop_last() =~= list@.take(i as int));
        assert(list@.take(i + 1).last() == node);
        proof {
            crate::seqs::lemma_add_assoc(
                before,
                flat(view, all, list@.take(i as int), fuel as nat),
                flat_node(view, all, node, fuel as nat),
            );
        }
        i += 1;
    }
    assert(list@.take(i as int) =~= list@);
}

/// Whether one of the ids is not there.
fn is_partial(commits: &SortedMap<ObjectId, usize>, ids: &Vec<ObjectId>, Ghost(nodes): Ghost<
    Seq<RunView>,
>) -> (r: bool)
    requires
        indexes(commits@, nodes, nodes.len() as int),
    ensures
        r == partial(nodes, ids@),
{
    let mut i: usize = 0;
    while i < ids.len()
        invariant
            i <= ids@.len(),
            indexes(commits@, nodes, nodes.len() as int),
            forall|j: int| 0 <= j < i ==> commit_node(nodes, #[trigger] ids@[j]) is Some,
        decreases ids.len() - i,
    {
        assert(commit_in(nodes, ids@[i as int], nodes.len() as int) == commit_node(
            nodes,
            ids@[i as int],
        ));
        if !commits.contains_key(&ids[i]) {
            return true;
        }
        i += 1;
    }
    false
}

/// The nodes of those ids that are there.
fn find_present(commits: &SortedMap<ObjectId, usize>, ids: &Vec<ObjectId>, Ghost(nodes): Ghost<
    Seq<RunView>,
>) -> (r: Vec<usize>)
    requires
        nodes.len() <= usize::MAX,
        indexes(commits@, nodes, nodes.len() as int),
    ensures
        r@ == present(nodes, ids@, ids@.len() as int),
        forall|i: int| 0 <= i < r@.len() ==> #[trigger] r@[i] < nodes.len(),
{
    let mut r: Vec<usize> = Vec::new();
    let mut i: usize = 0;
    while i < ids.len()
        invariant
            i <= ids@.len(),
            nodes.len() <= usize::MAX,
            indexes(commits@, nodes, nodes.len() as int),
            r@ == present(nodes, ids@, i as int),
            forall|i: int| 0 <= i < r@.len() ==> #[trigger] r@[i] < nodes.len(),
        decreases ids.len() - i,
    {
        proof {
            lemma_commit_in(nodes, ids@[i as int], nodes.len() as int);
            assert(commit_in(nodes, ids@[i as int], nodes.len() as int) == commit_node(
                nodes,
                ids@[i as int],
            ));
        }
        if let Some(node) = commits.get(&ids[i]) {
            r.push(*node);
        }
        i += 1;
    }
    r
}

/// A commit among the first `n` nodes is found there.
pub proof fn lemma_commit_found(nodes: Seq<RunView>, i: int, n: int)
    requires
        0 <= i < n <= nodes.len() <= usize::MAX,
        is_commit(nodes[i]),
    ensures
        commit_in(nodes, commit_id(nodes[i]), n) is Some,
    decreases n,
{
    if i < n - 1 {
        lemma_commit_found(nodes, i, n - 1);
    }
}

/// The last node of the commit that the node `i` is.
fn last_node(
    nodes: &Vec<RunStep>,
    commits: &SortedMap<ObjectId, usize>,
    id: ObjectId,
    i: usize,
) -> (r: usize)
    requires
        indexes(commits@, run_view(nodes@), nodes@.len() as int),
        i < nodes@.len(),
        is_commit(run_view(nodes@)[i as int]),
        commit_id(run_view(nodes@)[i as int]) == id,
    ensures
        commit_node(run_view(nodes@), id) == Some(r),
        r < nodes@.len(),
{
    let ghost view = run_view(nodes@);
    let n: usize = nodes.len();
    proof {
        assert(view.len() == n);
        lemma_commit_found(view, i as int, n as int);
        lemma_commit_in(view, id, n as int);
    }
    match commits.get(&id) {
        Some(at) => *at,
        None => i,
    }
}

/// Put the lists of the commits right.
fn rewire(
    nodes: &Vec<RunStep>,
    lists: &mut Vec<Vec<usize>>,
    commits: &SortedMap<ObjectId, usize>,
    workspace_commit_id: Option<ObjectId>,
)
    requires
        old(lists)@.len() == nodes@.len(),
        lists_below(index_lists(old(lists)@), nodes@.len() as int),
        indexes(commits@, run_view(nodes@), nodes@.len() as int),
    ensures
        final(lists)@.len() == nodes@.len(),
        lists_below(index_lists(final(lists)@), nodes@.len() as int),
        index_lists(final(lists)@) == rewired(
            run_view(nodes@),
            index_lists(old(lists)@),
            workspace_commit_id,
            nodes@.len() as int,
        ),
{
    let ghost view = run_view(nodes@);
    let ghost given = index_lists(lists@);
    let mut i: usize = 0;
    while i < nodes.len()
        invariant
            i <= nodes@.len(),
            view == run_view(nodes@),
            lists@.len() == nodes@.len(),
            lists_below(index_lists(lists@), nodes@.len() as int),
            indexes(commits@, view, nodes@.len() as int),
            index_lists(lists@) == rewired(view, given, workspace_commit_id, i as int),
        decreases nodes.len() - i,
    {
        assert(view[i as int] == nodes@[i as int]@);
        assert(view.len() == nodes@.len());
        if let RunStep::Commit { id, parent_ids } = &nodes[i] {
            let is_workspace: bool = match workspace_commit_id {
                Some(ws) => ws == *id,
                None => false,
            };
            if !is_workspace && !is_partial(commits, parent_ids, Ghost(view)) {
                let ghost before = index_lists(lists@);
                let mut ids: Vec<ObjectId> = Vec::new();
                let at: usize = last_node(nodes, commits, *id, i);
                assert(before[at as int] == lists@[at as int]@);
                assert forall|j: int| 0 <= j < lists@[at as int]@.len() implies #[trigger]
                lists@[at as int]@[j] < nodes@.len() by {
                    assert(before[at as int][j] < nodes@.len());
                }
                flatten(nodes, lists, &lists[at], nodes.len(), &mut ids);
                assert(ids@ =~= flat(view, before, before[at as int], nodes@.len()));
                if !same_ids(&ids, parent_ids) {
                    let new = find_present(commits, parent_ids, Ghost(view));
                    let ghost put = new@;
                    lists.set(at, new);
                    assert(index_lists(lists@) =~= before.update(at as int, put));
                    assert forall|a: int, b: int|
                        0 <= a < lists@.len() && 0 <= b < index_lists(lists@)[a].len() implies
                            #[trigger] index_lists(lists@)[a][b] < nodes@.len() by {
                        if a != at {
                            assert(before[a][b] < nodes@.len());
                        }
                    }
                }
            }
        }
        i += 1;
    }
}

/// A place in the list of a node: the node, and where in its list.
pub type Slot = (usize, usize);

/// Which of the first `n` places in the list of `child` hold `node`.
pub open spec fn slots_onto(list: Seq<usize>, child: usize, node: usize, n: int) -> Seq<Slot>
    decreases n,
{
    if n <= 0 {
        Seq::empty()
    } else {
        let before = slots_onto(list, child, node, n - 1);
        if list[n - 1] == node {
            before.push((child, (n - 1) as usize))
        } else {
            before
        }
    }
}

/// Which places in the lists of the first `n` nodes hold `node`.
pub open spec fn entering(lists: Seq<Seq<usize>>, node: usize, n: int) -> Seq<Slot>
    decreases n,
{
    if n <= 0 {
        Seq::empty()
    } else {
        entering(lists, node, n - 1) + slots_onto(
            lists[n - 1],
            (n - 1) as usize,
            node,
            lists[n - 1].len() as int,
        )
    }
}

/// Whether the place is one of a commit.
pub open spec fn from_commit(nodes: Seq<RunView>) -> spec_fn(Slot) -> bool {
    |l: Slot| is_commit(nodes[l.0 as int])
}

/// The commit that the node sits on, and the first reference on the way to it.
pub open spec fn descend(
    nodes: Seq<RunView>,
    lists: Seq<Seq<usize>>,
    cursor: usize,
    below: Option<usize>,
    fuel: nat,
) -> Option<(usize, Option<usize>)>
    decreases fuel,
{
    if fuel == 0 || lists[cursor as int].len() == 0 {
        None
    } else {
        let next = lists[cursor as int][0];
        if is_commit(nodes[next as int]) {
            Some((next, below))
        } else {
            let under = if below is None && nodes[next as int] is Ref {
                Some(next)
            } else {
                below
            };
            descend(nodes, lists, next, under, (fuel - 1) as nat)
        }
    }
}

/// Whether more than one thing converges on the node, and the places of commits that lead there:
/// those that lead to the node itself, or if there are none and just one thing leads there, those
/// that lead to that.
pub open spec fn ascend(
    nodes: Seq<RunView>,
    lists: Seq<Seq<usize>>,
    cursor: usize,
    fuel: nat,
) -> (bool, Seq<Slot>)
    decreases fuel,
{
    let all = entering(lists, cursor, lists.len() as int);
    let picks = all.filter(from_commit(nodes));
    if fuel == 0 {
        (false, Seq::empty())
    } else if picks.len() > 0 {
        (all.len() > 1, picks)
    } else if all.len() == 1 {
        ascend(nodes, lists, all[0].0, (fuel - 1) as nat)
    } else {
        (false, Seq::empty())
    }
}

/// The commit that the node is, or sits on.
pub open spec fn settle(
    nodes: Seq<RunView>,
    lists: Seq<Seq<usize>>,
    cursor: usize,
    fuel: nat,
) -> Option<usize>
    decreases fuel,
{
    if fuel == 0 {
        None
    } else if is_commit(nodes[cursor as int]) {
        Some(cursor)
    } else if lists[cursor as int].len() == 0 {
        None
    } else {
        settle(nodes, lists, lists[cursor as int][0], (fuel - 1) as nat)
    }
}

/// How many of the first `n` places of the list lead to no commit.
pub open spec fn vacated(
    nodes: Seq<RunView>,
    lists: Seq<Seq<usize>>,
    list: Seq<usize>,
    n: int,
) -> nat
    decreases n,
{
    if n <= 0 {
        0
    } else {
        let before = vacated(nodes, lists, list, n - 1);
        if settle(nodes, lists, list[n - 1], WALK_LIMIT as nat) is None {
            before + 1
        } else {
            before
        }
    }
}

/// How many of the first `n` nodes are the commit `id`.
pub open spec fn copies(nodes: Seq<RunView>, id: ObjectId, n: int) -> nat
    decreases n,
{
    if n <= 0 {
        0
    } else if is_commit(nodes[n - 1]) && commit_id(nodes[n - 1]) == id {
        copies(nodes, id, n - 1) + 1
    } else {
        copies(nodes, id, n - 1)
    }
}

/// By how much the place of a commit moves up when places that lead to no commit are given up. The
/// last node of a commit gives them up once for each time that the commit is there, and any other
/// node of it gives up none.
pub open spec fn given_up(nodes: Seq<RunView>, lists: Seq<Seq<usize>>, l: Slot) -> nat {
    let id = commit_id(nodes[l.0 as int]);
    if commit_node(nodes, id) == Some(l.0) {
        copies(nodes, id, nodes.len() as int) * vacated(
            nodes,
            lists,
            lists[l.0 as int],
            l.1 as int,
        )
    } else {
        0
    }
}

/// No place moves up by more than there is room for.
pub open spec fn slots_have_room(
    nodes: Seq<RunView>,
    lists: Seq<Seq<usize>>,
    slots: Seq<Slot>,
) -> bool {
    forall|i: int|
        0 <= i < slots.len() ==> given_up(nodes, lists, #[trigger] slots[i]) <= slots[i].1
}

/// No place that leads to a reference which sits on a commit moves up by more than there is room
/// for.
pub open spec fn legs_have_room(nodes: Seq<RunView>, lists: Seq<Seq<usize>>) -> bool {
    forall|i: int|
        0 <= i < nodes.len() && (#[trigger] nodes[i]) is Ref && descend(
            nodes,
            lists,
            i as usize,
            None,
            WALK_LIMIT as nat,
        ) is Some ==> slots_have_room(
            nodes,
            lists,
            ascend(nodes, lists, i as usize, WALK_LIMIT as nat).1,
        )
}

/// The ids of the commits that the first `n` places of the list lead to.
pub open spec fn settled_ids(
    nodes: Seq<RunView>,
    lists: Seq<Seq<usize>>,
    list: Seq<usize>,
    n: int,
) -> Seq<ObjectId>
    decreases n,
{
    if n <= 0 {
        Seq::empty()
    } else {
        let before = settled_ids(nodes, lists, list, n - 1);
        match settle(nodes, lists, list[n - 1], WALK_LIMIT as nat) {
            Some(pick) => before.push(commit_id(nodes[pick as int])),
            None => before,
        }
    }
}

/// The places as legs of commits, without the places that lead to no commit.
pub open spec fn compact_legs(
    nodes: Seq<RunView>,
    lists: Seq<Seq<usize>>,
    slots: Seq<Slot>,
) -> Seq<CommitLeg> {
    slots.map_values(
        |l: Slot|
            (commit_id(nodes[l.0 as int]), (l.1 - given_up(nodes, lists, l)) as usize),
    )
}

/// Where the reference is placed that is the node `i`.
pub open spec fn placed_at(nodes: Seq<RunView>, lists: Seq<Seq<usize>>, i: int) -> PlacedView {
    let name = nodes[i]->Ref_name;
    let mutable = nodes[i]->Ref_mutable;
    match descend(nodes, lists, i as usize, None, WALK_LIMIT as nat) {
        None => PlacedView {
            name,
            mutable,
            anchor: None,
            below: None,
            ambiguous: false,
            approach: Seq::empty(),
        },
        Some((anchor, below)) => {
            let (ambiguous, slots) = ascend(nodes, lists, i as usize, WALK_LIMIT as nat);
            PlacedView {
                name,
                mutable,
                anchor: Some(commit_id(nodes[anchor as int])),
                below: match below {
                    Some(b) => Some(nodes[b as int]->Ref_name),
                    None => None,
                },
                ambiguous,
                approach: sorted::<CommitLeg>(compact_legs(nodes, lists, slots)),
            }
        },
    }
}

/// Where those of the first `n` nodes are placed that are references.
pub open spec fn placed_refs(nodes: Seq<RunView>, lists: Seq<Seq<usize>>, n: int) -> Seq<PlacedView>
    decreases n,
{
    if n <= 0 {
        Seq::empty()
    } else {
        let before = placed_refs(nodes, lists, n - 1);
        if nodes[n - 1] is Ref {
            before.push(placed_at(nodes, lists, n - 1))
        } else {
            before
        }
    }
}

/// What the lists of places stand for.
pub open spec fn slot_lists(lists: Seq<Vec<Slot>>) -> Seq<Seq<Slot>> {
    lists.map_values(|l: Vec<Slot>| l@)
}

proof fn lemma_slots_onto(list: Seq<usize>, child: usize, node: usize, n: int)
    requires
        n <= list.len() <= usize::MAX,
    ensures
        forall|i: int|
            0 <= i < slots_onto(list, child, node, n).len() ==> {
                let l = #[trigger] slots_onto(list, child, node, n)[i];
                l.0 == child && l.1 < n
            },
    decreases n,
{
    if n > 0 {
        lemma_slots_onto(list, child, node, n - 1);
        let (before, all) = (
            slots_onto(list, child, node, n - 1),
            slots_onto(list, child, node, n),
        );
        assert(all == before || all == before.push((child, (n - 1) as usize)));
        assert forall|i: int| 0 <= i < all.len() implies (#[trigger] all[i]).0 == child && all[i].1
            < n by {
            if i < before.len() {
                assert(all[i] == before[i]);
            }
        }
    } else {
        assert(slots_onto(list, child, node, n).len() == 0);
    }
}

/// The lists have no more places than can be counted.
pub open spec fn lists_fit(lists: Seq<Seq<usize>>) -> bool {
    &&& lists.len() <= usize::MAX
    &&& forall|i: int| 0 <= i < lists.len() ==> (#[trigger] lists[i]).len() <= usize::MAX
}

proof fn lemma_entering(lists: Seq<Seq<usize>>, node: usize, n: int)
    requires
        n <= lists.len(),
        lists_fit(lists),
    ensures
        forall|i: int|
            0 <= i < entering(lists, node, n).len() ==> {
                let l = #[trigger] entering(lists, node, n)[i];
                l.0 < n && l.1 < lists[l.0 as int].len()
            },
    decreases n,
{
    if n > 0 {
        lemma_entering(lists, node, n - 1);
        assert(lists[n - 1].len() <= usize::MAX);
        lemma_slots_onto(lists[n - 1], (n - 1) as usize, node, lists[n - 1].len() as int);
        let (before, own, all) = (
            entering(lists, node, n - 1),
            slots_onto(lists[n - 1], (n - 1) as usize, node, lists[n - 1].len() as int),
            entering(lists, node, n),
        );
        assert forall|i: int| 0 <= i < all.len() implies (#[trigger] all[i]).0 < n && all[i].1
            < lists[all[i].0 as int].len() by {
            if i < before.len() {
                assert(all[i] == before[i]);
            } else {
                assert(all[i] == own[i - before.len()]);
            }
        }
    } else {
        assert(entering(lists, node, n).len() == 0);
    }
}

/// That the lists have no more places than can be counted.
fn count_lists(lists: &Vec<Vec<usize>>)
    ensures
        lists_fit(index_lists(lists@)),
{
    let mut i: usize = 0;
    while i < lists.len()
        invariant
            i <= lists@.len(),
            forall|j: int| 0 <= j < i ==> (#[trigger] index_lists(lists@)[j]).len() <= usize::MAX,
        decreases lists.len() - i,
    {
        let n: usize = lists[i].len();
        assert(index_lists(lists@)[i as int].len() == n);
        i += 1;
    }
}

/// For each node which places in the lists hold it.
fn find_entering(lists: &Vec<Vec<usize>>) -> (r: Vec<Vec<Slot>>)
    requires
        lists_below(index_lists(lists@), lists@.len() as int),
    ensures
        r@.len() == lists@.len(),
        forall|j: int|
            0 <= j < lists@.len() ==> #[trigger] slot_lists(r@)[j] == entering(
                index_lists(lists@),
                j as usize,
                lists@.len() as int,
            ),
{
    let ghost all = index_lists(lists@);
    let n: usize = lists.len();
    let mut r: Vec<Vec<Slot>> = Vec::new();
    let mut k: usize = 0;
    while k < lists.len()
        invariant
            k <= lists@.len(),
            r@.len() == k,
            forall|j: int| 0 <= j < k ==> #[trigger] slot_lists(r@)[j] == Seq::<Slot>::empty(),
        decreases lists.len() - k,
    {
        let ghost before = r@;
        let none: Vec<Slot> = Vec::new();
        r.push(none);
        assert(slot_lists(r@) =~= slot_lists(before).push(Seq::empty()));
        k += 1;
    }
    let mut child: usize = 0;
    while child < lists.len()
        invariant
            n == lists@.len(),
            child <= n,
            r@.len() == lists@.len(),
            all == index_lists(lists@),
            lists_below(all, lists@.len() as int),
            forall|j: int|
                0 <= j < n ==> #[trigger] slot_lists(r@)[j] == entering(
                    all,
                    j as usize,
                    child as int,
                ),
        decreases lists.len() - child,
    {
        let list = &lists[child];
        assert(all[child as int] == list@);
        let mut slot: usize = 0;
        assert forall|j: int| 0 <= j < n implies #[trigger] slot_lists(r@)[j] == entering(
            all,
            j as usize,
            child as int,
        ) + slots_onto(list@, child, j as usize, 0) by {
            assert(slot_lists(r@)[j] =~= slot_lists(r@)[j] + Seq::empty());
        }
        while slot < list.len()
            invariant
                n == lists@.len(),
                slot <= list@.len(),
                child < lists@.len(),
                *list == lists@[child as int],
                r@.len() == lists@.len(),
                all == index_lists(lists@),
                all[child as int] == list@,
                lists_below(all, lists@.len() as int),
                forall|j: int|
                    0 <= j < n ==> #[trigger] slot_lists(r@)[j] == entering(
                        all,
                        j as usize,
                        child as int,
                    ) + slots_onto(list@, child, j as usize, slot as int),
            decreases list.len() - slot,
        {
            let node: usize = list[slot];
            assert(all[child as int][slot as int] < lists@.len());
            let ghost before = slot_lists(r@);
            r[node].push((child, slot));
            let ghost put = r@[node as int]@;
            assert(slot_lists(r@) =~= before.update(node as int, put));
            assert forall|j: int| 0 <= j < n implies #[trigger] slot_lists(r@)[j]
                == entering(all, j as usize, child as int) + slots_onto(
                list@,
                child,
                j as usize,
                slot + 1,
            ) by {
                assert(before[j] == entering(all, j as usize, child as int) + slots_onto(
                    list@,
                    child,
                    j as usize,
                    slot as int,
                ));
                if j == node {
                    assert(put =~= before[j].push((child, slot)));
                    assert(slot_lists(r@)[j] =~= entering(all, j as usize, child as int)
                        + slots_onto(list@, child, j as usize, slot + 1));
                }
            }
            slot += 1;
        }
        child += 1;
    }
    r
}

/// Whether the node is a commit.
fn step_is_commit(step: &RunStep) -> (r: bool)
    ensures
        r == is_commit(step@),
{
    matches!(step, RunStep::Commit { .. })
}

/// Whether the node is a reference.
fn step_is_ref(step: &RunStep) -> (r: bool)
    ensures
        r == (step@ is Ref),
{
    matches!(step, RunStep::Ref { .. })
}

/// The commit that the node sits on, and the first reference on the way to it.
fn find_anchor(nodes: &Vec<RunStep>, lists: &Vec<Vec<usize>>, node: usize) -> (r: Option<
    (usize, Option<usize>),
>)
    requires
        lists@.len() == nodes@.len(),
        lists_below(index_lists(lists@), nodes@.len() as int),
        node < nodes@.len(),
    ensures
        r == descend(run_view(nodes@), index_lists(lists@), node, None, WALK_LIMIT as nat),
        r matches Some((anchor, below)) ==> anchor < nodes@.len() && is_commit(
            run_view(nodes@)[anchor as int],
        ) && (below matches Some(b) ==> b < nodes@.len() && run_view(nodes@)[b as int] is Ref),
{
    let ghost view = run_view(nodes@);
    let ghost all = index_lists(lists@);
    let mut cursor: usize = node;
    let mut below: Option<usize> = None;
    let mut fuel: usize = WALK_LIMIT;
    while fuel > 0
        invariant
            view == run_view(nodes@),
            all == index_lists(lists@),
            lists@.len() == nodes@.len(),
            lists_below(all, nodes@.len() as int),
            cursor < nodes@.len(),
            below matches Some(b) ==> b < nodes@.len() && view[b as int] is Ref,
            descend(view, all, cursor, below, fuel as nat) == descend(
                view,
                all,
                node,
                None,
                WALK_LIMIT as nat,
            ),
        decreases fuel,
    {
        assert(all[cursor as int] == lists@[cursor as int]@);
        if lists[cursor].len() == 0 {
            return None;
        }
        let next: usize = lists[cursor][0];
        assert(all[cursor as int][0] < nodes@.len());
        assert(view[next as int] == nodes@[next as int]@);
        if step_is_commit(&nodes[next]) {
            return Some((next, below));
        }
        if below.is_none() && step_is_ref(&nodes[next]) {
            below = Some(next);
        }
        cursor = next;
        fuel -= 1;
    }
    None
}

/// The places of commits among the places.
fn pick_slots(nodes: &Vec<RunStep>, slots: &Vec<Slot>) -> (r: Vec<Slot>)
    requires
        forall|i: int| 0 <= i < slots@.len() ==> (#[trigger] slots@[i]).0 < nodes@.len(),
    ensures
        r@ == slots@.filter(from_commit(run_view(nodes@))),
{
    let ghost view = run_view(nodes@);
    let ghost keep = from_commit(view);
    let mut r: Vec<Slot> = Vec::new();
    let mut i: usize = 0;
    proof {
        lemma_filter_none(slots@, keep);
    }
    while i < slots.len()
        invariant
            i <= slots@.len(),
            view == run_view(nodes@),
            keep == from_commit(view),
            forall|i: int| 0 <= i < slots@.len() ==> (#[trigger] slots@[i]).0 < nodes@.len(),
            r@ == slots@.take(i as int).filter(keep),
        decreases slots.len() - i,
    {
        proof {
            lemma_filter_take(slots@, keep, i as int);
        }
        let l = slots[i];
        assert(view[l.0 as int] == nodes@[l.0 as int]@);
        if step_is_commit(&nodes[l.0]) {
            r.push(l);
        }
        i += 1;
    }
    proof {
        lemma_take_all(slots@);
    }
    r
}

/// The places are places of commits in the lists.
pub open spec fn real_slots(
    nodes: Seq<RunView>,
    lists: Seq<Seq<usize>>,
    slots: Seq<Slot>,
) -> bool {
    forall|i: int|
        0 <= i < slots.len() ==> (#[trigger] slots[i]).0 < nodes.len() && slots[i].1
            < lists[slots[i].0 as int].len() && is_commit(nodes[slots[i].0 as int])
}

proof fn lemma_picks_real(nodes: Seq<RunView>, lists: Seq<Seq<usize>>, node: usize)
    requires
        lists.len() == nodes.len(),
        lists_fit(lists),
    ensures
        real_slots(
            nodes,
            lists,
            entering(lists, node, lists.len() as int).filter(from_commit(nodes)),
        ),
{
    let all = entering(lists, node, lists.len() as int);
    let picks = all.filter(from_commit(nodes));
    lemma_entering(lists, node, lists.len() as int);
    assert forall|i: int| 0 <= i < picks.len() implies (#[trigger] picks[i]).0 < nodes.len()
        && picks[i].1 < lists[picks[i].0 as int].len() && is_commit(nodes[picks[i].0 as int]) by {
        assert(picks.contains(picks[i]));
        crate::seqs::lemma_filter_contains(all, from_commit(nodes), picks[i]);
        let j = choose|j: int| 0 <= j < all.len() && all[j] == picks[i];
        assert(all[j].0 < lists.len());
    }
}

/// Whether more than one thing converges on the node, and the places of commits that lead there.
fn find_approach(
    nodes: &Vec<RunStep>,
    lists: &Vec<Vec<usize>>,
    incoming: &Vec<Vec<Slot>>,
    node: usize,
) -> (r: (bool, Vec<Slot>))
    requires
        lists@.len() == nodes@.len(),
        incoming@.len() == nodes@.len(),
        forall|j: int|
            0 <= j < lists@.len() ==> #[trigger] slot_lists(incoming@)[j] == entering(
                index_lists(lists@),
                j as usize,
                lists@.len() as int,
            ),
        node < nodes@.len(),
    ensures
        ascend(run_view(nodes@), index_lists(lists@), node, WALK_LIMIT as nat) == (r.0, r.1@),
        real_slots(run_view(nodes@), index_lists(lists@), r.1@),
{
    let ghost view = run_view(nodes@);
    let ghost all = index_lists(lists@);
    count_lists(lists);
    let mut cursor: usize = node;
    let mut fuel: usize = WALK_LIMIT;
    while fuel > 0
        invariant
            view == run_view(nodes@),
            all == index_lists(lists@),
            lists_fit(all),
            lists@.len() == nodes@.len(),
            incoming@.len() == nodes@.len(),
            forall|j: int|
                0 <= j < lists@.len() ==> #[trigger] slot_lists(incoming@)[j] == entering(
                    all,
                    j as usize,
                    lists@.len() as int,
                ),
            cursor < nodes@.len(),
            ascend(view, all, cursor, fuel as nat) == ascend(view, all, node, WALK_LIMIT as nat),
        decreases fuel,
    {
        let slots = &incoming[cursor];
        proof {
            assert(slot_lists(incoming@)[cursor as int] == slots@);
            lemma_entering(all, cursor, lists@.len() as int);
            lemma_picks_real(view, all, cursor);
        }
        let picks = pick_slots(nodes, slots);
        if picks.len() > 0 {
            return (slots.len() > 1, picks);
        }
        if slots.len() != 1 {
            return (false, Vec::new());
        }
        cursor = slots[0].0;
        fuel -= 1;
    }
    (false, Vec::new())
}

/// The commit that the node is, or sits on.
fn find_settled(nodes: &Vec<RunStep>, lists: &Vec<Vec<usize>>, node: usize) -> (r: Option<usize>)
    requires
        lists@.len() == nodes@.len(),
        lists_below(index_lists(lists@), nodes@.len() as int),
        node < nodes@.len(),
    ensures
        r == settle(run_view(nodes@), index_lists(lists@), node, WALK_LIMIT as nat),
        r matches Some(pick) ==> pick < nodes@.len() && is_commit(run_view(nodes@)[pick as int]),
{
    let ghost view = run_view(nodes@);
    let ghost all = index_lists(lists@);
    let mut cursor: usize = node;
    let mut fuel: usize = WALK_LIMIT;
    while fuel > 0
        invariant
            view == run_view(nodes@),
            all == index_lists(lists@),
            lists@.len() == nodes@.len(),
            lists_below(all, nodes@.len() as int),
            cursor < nodes@.len(),
            settle(view, all, cursor, fuel as nat) == settle(view, all, node, WALK_LIMIT as nat),
        decreases fuel,
    {
        assert(all[cursor as int] == lists@[cursor as int]@);
        assert(view[cursor as int] == nodes@[cursor as int]@);
        if step_is_commit(&nodes[cursor]) {
            return Some(cursor);
        }
        if lists[cursor].len() == 0 {
            return None;
        }
        assert(all[cursor as int][0] < nodes@.len());
        cursor = lists[cursor][0];
        fuel -= 1;
    }
    None
}

/// How many of the places of the list before `slot` lead to no commit.
fn count_vacated(nodes: &Vec<RunStep>, lists: &Vec<Vec<usize>>, node: usize, slot: usize) -> (r:
    usize)
    requires
        lists@.len() == nodes@.len(),
        lists_below(index_lists(lists@), nodes@.len() as int),
        node < nodes@.len(),
        slot < lists@[node as int]@.len(),
    ensures
        r == vacated(run_view(nodes@), index_lists(lists@), lists@[node as int]@, slot as int),
        r <= slot,
{
    let ghost view = run_view(nodes@);
    let ghost all = index_lists(lists@);
    let list = &lists[node];
    let mut r: usize = 0;
    let mut i: usize = 0;
    while i < slot
        invariant
            i <= slot,
            slot < list@.len(),
            node < nodes@.len(),
            *list == lists@[node as int],
            view == run_view(nodes@),
            all == index_lists(lists@),
            lists@.len() == nodes@.len(),
            lists_below(all, nodes@.len() as int),
            r == vacated(view, all, list@, i as int),
            r <= i,
        decreases slot - i,
    {
        assert(all[node as int] == list@);
        assert(all[node as int][i as int] < nodes@.len());
        if find_settled(nodes, lists, list[i]).is_none() {
            r += 1;
        }
        i += 1;
    }
    r
}

/// The ids of the commits that the places of the list of the node lead to.
fn find_settled_ids(nodes: &Vec<RunStep>, lists: &Vec<Vec<usize>>, node: usize) -> (r: Vec<
    ObjectId,
>)
    requires
        lists@.len() == nodes@.len(),
        lists_below(index_lists(lists@), nodes@.len() as int),
        node < nodes@.len(),
    ensures
        r@ == settled_ids(
            run_view(nodes@),
            index_lists(lists@),
            lists@[node as int]@,
            lists@[node as int]@.len() as int,
        ),
{
    let ghost view = run_view(nodes@);
    let ghost all = index_lists(lists@);
    let list = &lists[node];
    let mut r: Vec<ObjectId> = Vec::new();
    let mut i: usize = 0;
    while i < list.len()
        invariant
            i <= list@.len(),
            node < nodes@.len(),
            *list == lists@[node as int],
            view == run_view(nodes@),
            all == index_lists(lists@),
            lists@.len() == nodes@.len(),
            lists_below(all, nodes@.len() as int),
            r@ == settled_ids(view, all, list@, i as int),
        decreases list.len() - i,
    {
        assert(all[node as int] == list@);
        assert(all[node as int][i as int] < nodes@.len());
        if let Some(pick) = find_settled(nodes, lists, list[i]) {
            assert(view[pick as int] == nodes@[pick as int]@);
            r.push(id_at(nodes, pick));
        }
        i += 1;
    }
    r
}

/// The id of the commit that the node is.
fn id_at(nodes: &Vec<RunStep>, node: usize) -> (r: ObjectId)
    requires
        node < nodes@.len(),
        is_commit(run_view(nodes@)[node as int]),
    ensures
        r == commit_id(run_view(nodes@)[node as int]),
{
    assert(run_view(nodes@)[node as int] == nodes@[node as int]@);
    match &nodes[node] {
        RunStep::Commit { id, .. } => *id,
        _ => ObjectId { hi: 0, lo: 0 },
    }
}

/// How many of the nodes are the commit `id`.
fn count_copies(nodes: &Vec<RunStep>, id: ObjectId) -> (r: usize)
    ensures
        r == copies(run_view(nodes@), id, nodes@.len() as int),
{
    let ghost view = run_view(nodes@);
    let mut r: usize = 0;
    let mut i: usize = 0;
    while i < nodes.len()
        invariant
            i <= nodes@.len(),
            view == run_view(nodes@),
            r == copies(view, id, i as int),
            r <= i,
        decreases nodes.len() - i,
    {
        assert(view[i as int] == nodes@[i as int]@);
        if let RunStep::Commit { id: own, .. } = &nodes[i] {
            if *own == id {
                r += 1;
            }
        }
        i += 1;
    }
    r
}

/// The place of a commit once places that lead to no commit are given up.
fn move_up(
    nodes: &Vec<RunStep>,
    lists: &Vec<Vec<usize>>,
    commits: &SortedMap<ObjectId, usize>,
    node: usize,
    slot: usize,
) -> (r: usize)
    requires
        indexes(commits@, run_view(nodes@), nodes@.len() as int),
        lists@.len() == nodes@.len(),
        lists_below(index_lists(lists@), nodes@.len() as int),
        node < nodes@.len(),
        slot < lists@[node as int]@.len(),
        is_commit(run_view(nodes@)[node as int]),
        given_up(run_view(nodes@), index_lists(lists@), (node, slot)) <= slot,
    ensures
        r == slot - given_up(run_view(nodes@), index_lists(lists@), (node, slot)),
{
    let id = id_at(nodes, node);
    let last: usize = last_node(nodes, commits, id, node);
    if last != node {
        return slot;
    }
    let times: usize = count_copies(nodes, id);
    let each: usize = count_vacated(nodes, lists, node, slot);
    assert(run_view(nodes@).len() == nodes@.len());
    assert(index_lists(lists@)[node as int] == lists@[node as int]@);
    slot - times * each
}

/// The places as legs of commits, without the places that lead to no commit.
fn find_legs(
    nodes: &Vec<RunStep>,
    lists: &Vec<Vec<usize>>,
    commits: &SortedMap<ObjectId, usize>,
    slots: &Vec<Slot>,
) -> (r: Vec<CommitLeg>)
    requires
        indexes(commits@, run_view(nodes@), nodes@.len() as int),
        lists@.len() == nodes@.len(),
        lists_below(index_lists(lists@), nodes@.len() as int),
        real_slots(run_view(nodes@), index_lists(lists@), slots@),
        slots_have_room(run_view(nodes@), index_lists(lists@), slots@),
    ensures
        r@ == compact_legs(run_view(nodes@), index_lists(lists@), slots@),
{
    let ghost view = run_view(nodes@);
    let ghost all = index_lists(lists@);
    let ghost want = compact_legs(view, all, slots@);
    let mut r: Vec<CommitLeg> = Vec::new();
    let mut i: usize = 0;
    while i < slots.len()
        invariant
            i <= slots@.len(),
            view == run_view(nodes@),
            all == index_lists(lists@),
            lists@.len() == nodes@.len(),
            lists_below(all, nodes@.len() as int),
            indexes(commits@, view, nodes@.len() as int),
            real_slots(view, all, slots@),
            slots_have_room(view, all, slots@),
            want == compact_legs(view, all, slots@),
            r@ == want.take(i as int),
        decreases slots.len() - i,
    {
        let (node, slot) = slots[i];
        assert(slots@[i as int].0 < view.len());
        assert(all[node as int] == lists@[node as int]@);
        assert(given_up(view, all, slots@[i as int]) <= slot);
        let leg = (id_at(nodes, node), move_up(nodes, lists, commits, node, slot));
        r.push(leg);
        assert(want[i as int] == leg);
        assert(want.take(i + 1) =~= want.take(i as int).push(leg));
        i += 1;
    }
    assert(want.take(i as int) =~= want);
    r
}

/// The name of the reference that the node is.
fn name_at(nodes: &Vec<RunStep>, node: usize) -> (r: Option<RefName>)
    requires
        node < nodes@.len(),
    ensures
        run_view(nodes@)[node as int] is Ref ==> opt_name(r) == Some(
            run_view(nodes@)[node as int]->Ref_name,
        ),
{
    assert(run_view(nodes@)[node as int] == nodes@[node as int]@);
    match &nodes[node] {
        RunStep::Ref { name, .. } => Some(name.clone()),
        _ => None,
    }
}

/// Where the references are placed.
fn place_refs(
    nodes: &Vec<RunStep>,
    lists: &Vec<Vec<usize>>,
    commits: &SortedMap<ObjectId, usize>,
) -> (r: Vec<PlacedRef>)
    requires
        indexes(commits@, run_view(nodes@), nodes@.len() as int),
        lists@.len() == nodes@.len(),
        lists_below(index_lists(lists@), nodes@.len() as int),
        legs_have_room(run_view(nodes@), index_lists(lists@)),
    ensures
        placed_view(r@) == placed_refs(
            run_view(nodes@),
            index_lists(lists@),
            nodes@.len() as int,
        ),
{
    let ghost view = run_view(nodes@);
    let ghost all = index_lists(lists@);
    let incoming = find_entering(lists);
    let mut r: Vec<PlacedRef> = Vec::new();
    let mut i: usize = 0;
    assert(placed_view(r@) =~= placed_refs(view, all, 0));
    while i < nodes.len()
        invariant
            i <= nodes@.len(),
            view == run_view(nodes@),
            all == index_lists(lists@),
            lists@.len() == nodes@.len(),
            lists_below(all, nodes@.len() as int),
            indexes(commits@, view, nodes@.len() as int),
            legs_have_room(view, all),
            incoming@.len() == nodes@.len(),
            forall|j: int|
                0 <= j < lists@.len() ==> #[trigger] slot_lists(incoming@)[j] == entering(
                    all,
                    j as usize,
                    lists@.len() as int,
                ),
            placed_view(r@) == placed_refs(view, all, i as int),
        decreases nodes.len() - i,
    {
        assert(view[i as int] == nodes@[i as int]@);
        if let RunStep::Ref { name, mutable } = &nodes[i] {
            let ghost before = r@;
            let placed = match find_anchor(nodes, lists, i) {
                None => PlacedRef {
                    name: name.clone(),
                    mutable: *mutable,
                    anchor: None,
                    below: None,
                    ambiguous: false,
                    approach: Vec::new(),
                },
                Some((anchor, below)) => {
                    let (ambiguous, slots) = find_approach(nodes, lists, &incoming, i);
                    let below_name = match below {
                        Some(b) => name_at(nodes, b),
                        None => None,
                    };
                    PlacedRef {
                        name: name.clone(),
                        mutable: *mutable,
                        anchor: Some(id_at(nodes, anchor)),
                        below: below_name,
                        ambiguous,
                        approach: sort_legs(find_legs(nodes, lists, commits, &slots)),
                    }
                },
            };
            r.push(placed);
            assert(placed@ =~= placed_at(view, all, i as int));
            assert(placed_view(r@) =~= placed_view(before).push(placed@));
        }
        i += 1;
    }
    r
}

/// Where the connections of the segment lead to.
pub open spec fn segment_targets(segments: Seq<SegmentView>, s: usize) -> Seq<usize> {
    if s < segments.len() {
        segments[s as int].connections.map_values(|c: Connection| c.target)
    } else {
        Seq::empty()
    }
}

/// Where the connections lead to, as a function.
pub open spec fn segment_steps(segments: Seq<SegmentView>) -> spec_fn(usize) -> Seq<usize> {
    |s: usize| segment_targets(segments, s)
}

/// Where the connections of the first `n` segments lead to.
pub open spec fn targets_upto(segments: Seq<SegmentView>, n: int) -> Set<usize>
    decreases n,
{
    if n <= 0 {
        Set::empty()
    } else {
        targets_upto(segments, n - 1).union(segment_targets(segments, (n - 1) as usize).to_set())
    }
}

proof fn lemma_targets_upto(segments: Seq<SegmentView>, n: int)
    requires
        n <= segments.len() <= usize::MAX,
    ensures
        targets_upto(segments, n).finite(),
        forall|x: usize, y: usize|
            x < n && #[trigger] segment_targets(segments, x).contains(y) ==> targets_upto(
                segments,
                n,
            ).contains(y),
    decreases n,
{
    if n > 0 {
        lemma_targets_upto(segments, n - 1);
    }
}

impl Successors<usize> for SegmentGraph {
    open spec fn valid(&self) -> bool {
        self@.len() <= usize::MAX
    }

    open spec fn next(&self, x: usize) -> Seq<usize> {
        segment_targets(self@, x)
    }

    open spec fn universe(&self) -> Set<usize> {
        targets_upto(self@, self@.len() as int)
    }

    proof fn lemma_universe(&self) {
        lemma_targets_upto(self@, self@.len() as int);
    }

    fn successors(&self, x: usize) -> (r: Vec<usize>) {
        let mut r: Vec<usize> = Vec::new();
        if x < self.segments.len() {
            let connections = &self.segments[x].connections;
            assert(self@[x as int].connections == connections@);
            let ghost want = segment_targets(self@, x);
            let mut i: usize = 0;
            while i < connections.len()
                invariant
                    i <= connections@.len(),
                    want == connections@.map_values(|c: Connection| c.target),
                    r@ == want.take(i as int),
                decreases connections.len() - i,
            {
                r.push(connections[i].target);
                assert(want.take(i + 1) =~= want.take(i as int).push(connections@[i as int].target));
                i += 1;
            }
            assert(want.take(i as int) =~= want);
        }
        r
    }
}

/// The segments that are reachable from the entries over connections.
pub open spec fn reachable_segments(segments: Seq<SegmentView>, entries: Seq<usize>) -> Set<usize> {
    Set::new(|s: usize| reachable(segment_steps(segments), entries, s))
}

/// The segments that are reachable from the entries over connections.
fn find_reachable(graph: &SegmentGraph, entries: &Vec<usize>) -> (r: SortedSet<usize>)
    ensures
        r@ == reachable_segments(graph@, entries@),
{
    let n: usize = graph.segments.len();
    let mut seen: SortedSet<usize> = SortedSet::new();
    visit_all(graph, entries, &mut seen);
    assert(steps_of::<usize, SegmentGraph>(*graph) =~= segment_steps(graph@));
    assert(seen@ =~= reachable_segments(graph@, entries@));
    seen
}

/// The commits of those of the first `n` segments that are in `mutable`.
pub open spec fn commits_of(segments: Seq<SegmentView>, mutable: Set<usize>, n: int) -> Set<ObjectId> {
    Set::new(
        |id: ObjectId|
            exists|s: int|
                0 <= s < n && mutable.contains(s as usize) && has_commit(
                    (#[trigger] segments[s]).commits,
                    id,
                ),
    )
}

proof fn lemma_has_commit(commits: Seq<CommitView>, i: int, x: ObjectId)
    requires
        0 <= i < commits.len(),
    ensures
        has_commit(commits.take(i + 1), x) <==> has_commit(commits.take(i), x) || commits[i].id
            == x,
{
    let (short, long) = (commits.take(i), commits.take(i + 1));
    if has_commit(short, x) {
        let j = choose|j: int| 0 <= j < short.len() && #[trigger] short[j].id == x;
        assert(long[j].id == x);
    }
    if commits[i].id == x {
        assert(long[i].id == x);
    }
    if has_commit(long, x) {
        let j = choose|j: int| 0 <= j < long.len() && #[trigger] long[j].id == x;
        if j < i {
            assert(short[j].id == x);
        }
    }
}

/// The commits of the segments that are in `mutable`.
fn find_commits(graph: &SegmentGraph, mutable: &SortedSet<usize>) -> (r: SortedSet<ObjectId>)
    ensures
        r@ == commits_of(graph@, mutable@, graph@.len() as int),
{
    let mut r: SortedSet<ObjectId> = SortedSet::new();
    let mut s: usize = 0;
    assert(r@ =~= commits_of(graph@, mutable@, 0));
    while s < graph.segments.len()
        invariant
            s <= graph.segments@.len(),
            r@ == commits_of(graph@, mutable@, s as int),
        decreases graph.segments.len() - s,
    {
        assert(graph@[s as int] == graph.segments@[s as int]@);
        let ghost before = r@;
        let ghost own = graph@[s as int].commits;
        if mutable.contains(&s) {
            let commits = &graph.segments[s].commits;
            let mut i: usize = 0;
            while i < commits.len()
                invariant
                    i <= commits@.len(),
                    own == commits_view(commits@),
                    forall|id: ObjectId| #[trigger]
                        r@.contains(id) <==> before.contains(id) || has_commit(
                            own.take(i as int),
                            id,
                        ),
                decreases commits.len() - i,
            {
                let id = commits[i].id;
                let ghost held = r@;
                r.insert(id);
                assert(own[i as int].id == id);
                assert forall|x: ObjectId| #[trigger] r@.contains(x) <==> before.contains(x)
                    || has_commit(own.take(i + 1), x) by {
                    lemma_has_commit(own, i as int, x);
                    assert(held.contains(x) <==> before.contains(x) || has_commit(
                        own.take(i as int),
                        x,
                    ));
                }
                i += 1;
            }
            assert(own.take(i as int) =~= own);
        }
        assert forall|id: ObjectId| r@.contains(id) <==> commits_of(
            graph@,
            mutable@,
            s + 1,
        ).contains(id) by {
            if mutable@.contains(s) && has_commit(own, id) {
                assert(has_commit(graph@[s as int].commits, id));
            }
            if before.contains(id) {
                let t = choose|t: int|
                    0 <= t < s && mutable@.contains(t as usize) && has_commit(
                        (#[trigger] graph@[t]).commits,
                        id,
                    );
                assert(has_commit(graph@[t].commits, id));
            }
        }
        assert(r@ =~= commits_of(graph@, mutable@, s + 1));
        s += 1;
    }
    r
}

/// The names of those of the first `n` segments that have the name.
pub open spec fn heads(segments: Seq<SegmentView>, name: Option<Seq<u8>>, n: int) -> Seq<Seq<u8>>
    decreases n,
{
    if n <= 0 {
        Seq::empty()
    } else {
        let before = heads(segments, name, n - 1);
        match segments[n - 1].name {
            Some(own) => if name == Some(own) {
                before.push(own)
            } else {
                before
            },
            None => before,
        }
    }
}

/// The names of the segments that have the name of the segment `entry`.
fn find_heads(graph: &SegmentGraph, entry: usize) -> (r: Vec<RefName>)
    requires
        entry < graph@.len(),
    ensures
        names_view(r@) == heads(graph@, graph@[entry as int].name, graph@.len() as int),
{
    let ghost name = graph@[entry as int].name;
    let mut r: Vec<RefName> = Vec::new();
    let mut i: usize = 0;
    assert(names_view(r@) =~= heads(graph@, name, 0));
    while i < graph.segments.len()
        invariant
            i <= graph.segments@.len(),
            entry < graph.segments@.len(),
            name == graph@[entry as int].name,
            names_view(r@) == heads(graph@, name, i as int),
        decreases graph.segments.len() - i,
    {
        assert(graph@[i as int] == graph.segments@[i as int]@);
        assert(graph@[entry as int] == graph.segments@[entry as int]@);
        if let (Some(own), Some(wanted)) = (
            &graph.segments[i].ref_info,
            &graph.segments[entry].ref_info,
        ) {
            if own.ref_name.same(&wanted.ref_name) {
                let ghost before = r@;
                let x = own.ref_name.clone();
                r.push(x);
                assert(names_view(r@) =~= names_view(before).push(x@));
            }
        }
        i += 1;
    }
    r
}

/// A commit is in one segment, and there once.
pub open spec fn distinct_commits(segments: Seq<SegmentView>) -> bool {
    forall|s: int, c: int, t: int, d: int|
        0 <= s < segments.len() && 0 <= c < segments[s].commits.len() && 0 <= t < segments.len()
            && 0 <= d < segments[t].commits.len() && (#[trigger] segments[s].commits[c]).id == (
        #[trigger] segments[t].commits[d]).id ==> s == t && c == d
}

/// The connections of each segment can be counted.
pub open spec fn connections_fit(segments: Seq<SegmentView>) -> bool {
    forall|s: int|
        0 <= s < segments.len() ==> (#[trigger] segments[s]).connections.len() <= usize::MAX
}

/// That the connections of each segment can be counted.
fn count_connections(graph: &SegmentGraph)
    ensures
        connections_fit(graph@),
{
    let mut s: usize = 0;
    while s < graph.segments.len()
        invariant
            s <= graph.segments@.len(),
            forall|t: int|
                0 <= t < s ==> (#[trigger] graph@[t]).connections.len() <= usize::MAX,
        decreases graph.segments.len() - s,
    {
        let n: usize = graph.segments[s].connections.len();
        assert(graph@[s as int].connections.len() == n);
        s += 1;
    }
}

/// A reference to find, and the segment where it is, if it is in one.
#[derive(Debug)]
pub struct ExtraRef {
    /// The name of the reference.
    pub name: RefName,
    /// The segment where it is.
    pub segment: Option<SegmentIndex>,
}

/// Why nothing can be read off the segments.
#[derive(Debug)]
pub enum DeriveError {
    /// The traversal has no entrypoint.
    NoEntrypoint,
    /// The reference is in no segment.
    UnknownRef(RefName),
}

/// The name of the first of the first `n` references that is in no segment.
pub open spec fn first_unknown(extra: Seq<ExtraRef>, n: int) -> Option<Seq<u8>>
    decreases n,
{
    if n <= 0 {
        None
    } else {
        match first_unknown(extra, n - 1) {
            Some(name) => Some(name),
            None => if extra[n - 1].segment is None {
                Some(extra[n - 1].name@)
            } else {
                None
            },
        }
    }
}

/// The segments that may be changed are those reachable from these.
pub open spec fn mutable_entries(entry: usize, extra: Seq<ExtraRef>) -> Seq<usize> {
    seq![entry] + extra.map_values(|e: ExtraRef| e.segment->0)
}

/// The parents of the workspace commit.
pub open spec fn workspace_parents(
    nodes: Seq<RunView>,
    lists: Seq<Seq<usize>>,
    workspace_commit_id: Option<ObjectId>,
) -> Option<Seq<ObjectId>> {
    match workspace_commit_id {
        None => None,
        Some(id) => match commit_node(nodes, id) {
            None => None,
            Some(n) => Some(
                settled_ids(nodes, lists, lists[n as int], lists[n as int].len() as int),
            ),
        },
    }
}

/// What is read off the segments when the entrypoint is in the segment `entry` and the segments in
/// `mutable` may be changed.
pub open spec fn derived(
    segments: Seq<SegmentView>,
    mutable: Set<usize>,
    entry: int,
    workspace_commit_id: Option<ObjectId>,
) -> PlacementsView {
    let nodes = all_nodes(segments, mutable);
    let lists = final_lists(segments, mutable, workspace_commit_id);
    PlacementsView {
        refs: placed_refs(nodes, lists, nodes.len() as int),
        mutable_commits: commits_of(segments, mutable, segments.len() as int),
        head_refs: heads(segments, segments[entry].name, segments.len() as int),
        ws_parents: workspace_parents(nodes, lists, workspace_commit_id),
    }
}

/// What the nodes lead to once commits were put right.
pub open spec fn final_lists(
    segments: Seq<SegmentView>,
    mutable: Set<usize>,
    workspace_commit_id: Option<ObjectId>,
) -> Seq<Seq<usize>> {
    let nodes = all_nodes(segments, mutable);
    rewired(
        nodes,
        links(segments, mutable, segments.len() as int),
        workspace_commit_id,
        nodes.len() as int,
    )
}

/// No leg moves up by more than there is room for when places that lead to no commit are given up.
/// It holds wherever a commit is in one segment, and there once.
pub open spec fn derivable(
    graph: SegmentGraph,
    extra: Seq<ExtraRef>,
    workspace_commit_id: Option<ObjectId>,
) -> bool {
    graph.entrypoint is Some && first_unknown(extra, extra.len() as int) is None ==> {
        let mutable = reachable_segments(
            graph@,
            mutable_entries((graph.entrypoint->0).0, extra),
        );
        legs_have_room(
            all_nodes(graph@, mutable),
            final_lists(graph@, mutable, workspace_commit_id),
        )
    }
}

/// The segments from which those are reachable that may be changed.
fn find_entries(graph: &SegmentGraph, extra_mutable_refs: &Vec<ExtraRef>) -> (r: Result<
    Vec<usize>,
    DeriveError,
>)
    ensures
        match r {
            Err(DeriveError::NoEntrypoint) => graph.entrypoint is None,
            Err(DeriveError::UnknownRef(name)) => graph.entrypoint is Some && first_unknown(
                extra_mutable_refs@,
                extra_mutable_refs@.len() as int,
            ) == Some(name@),
            Ok(entries) => {
                &&& graph.entrypoint matches Some((entry, _))
                &&& first_unknown(extra_mutable_refs@, extra_mutable_refs@.len() as int) is None
                &&& entries@ == mutable_entries(entry, extra_mutable_refs@)
            },
        },
{
    let (entry, _) = match graph.entrypoint {
        Some(ep) => ep,
        None => return Err(DeriveError::NoEntrypoint),
    };
    let mut entries: Vec<usize> = Vec::new();
    entries.push(entry);
    let ghost want = mutable_entries(entry, extra_mutable_refs@);
    let mut i: usize = 0;
    assert(entries@ =~= want.take(1));
    while i < extra_mutable_refs.len()
        invariant
            i <= extra_mutable_refs@.len(),
            graph.entrypoint is Some,
            want == mutable_entries(entry, extra_mutable_refs@),
            entries@ == want.take(i + 1),
            first_unknown(extra_mutable_refs@, i as int) is None,
        decreases extra_mutable_refs.len() - i,
    {
        match extra_mutable_refs[i].segment {
            Some(s) => {
                entries.push(s);
                assert(want[i + 1] == s);
                assert(want.take(i + 2) =~= want.take(i + 1).push(s));
            },
            None => {
                let name = extra_mutable_refs[i].name.clone();
                proof {
                    lemma_unknown_stays(
                        extra_mutable_refs@,
                        i + 1,
                        extra_mutable_refs@.len() as int,
                    );
                }
                return Err(DeriveError::UnknownRef(name));
            },
        }
        i += 1;
    }
    assert(want.take(i + 1) =~= want);
    Ok(entries)
}

/// The runs of all segments, and what their nodes lead to.
struct Layout {
    /// The segments that may be changed.
    pub mutable: SortedSet<usize>,
    /// The nodes.
    pub nodes: Vec<RunStep>,
    /// What the nodes lead to.
    pub lists: Vec<Vec<usize>>,
    /// The last nodes of the commits.
    pub commits: SortedMap<ObjectId, usize>,
}

/// Lay out the runs, where the segments may be changed that are reachable from the entries.
fn lay_out(
    graph: &SegmentGraph,
    entries: &Vec<usize>,
    workspace_commit_id: Option<ObjectId>,
) -> (r: Layout)
    requires
        graph.wf(),
    ensures
        r.mutable@ == reachable_segments(graph@, entries@),
        run_view(r.nodes@) == all_nodes(graph@, r.mutable@),
        index_lists(r.lists@) == final_lists(graph@, r.mutable@, workspace_commit_id),
        r.lists@.len() == r.nodes@.len(),
        lists_below(index_lists(r.lists@), r.nodes@.len() as int),
        indexes(r.commits@, run_view(r.nodes@), r.nodes@.len() as int),
        forall|id: ObjectId| #[trigger]
            r.commits@.dom().contains(id) ==> r.commits@[id] < r.nodes@.len(),
{
    let mutable = find_reachable(graph, entries);
    let (nodes, starts) = build_nodes(graph, &mutable);
    let commits = index_commits(&nodes);
    let mut lists = link_runs(graph, Ghost(mutable@), &nodes, &starts, &commits);
    rewire(&nodes, &mut lists, &commits, workspace_commit_id);
    assert(run_view(nodes@).len() == nodes@.len());
    Layout { mutable, nodes, lists, commits }
}

/// Whether the place of a commit moves up by no more than there is room for.
fn slot_has_room(
    nodes: &Vec<RunStep>,
    lists: &Vec<Vec<usize>>,
    commits: &SortedMap<ObjectId, usize>,
    node: usize,
    slot: usize,
) -> (r: bool)
    requires
        indexes(commits@, run_view(nodes@), nodes@.len() as int),
        lists@.len() == nodes@.len(),
        lists_below(index_lists(lists@), nodes@.len() as int),
        node < nodes@.len(),
        slot < lists@[node as int]@.len(),
        is_commit(run_view(nodes@)[node as int]),
    ensures
        r == (given_up(run_view(nodes@), index_lists(lists@), (node, slot)) <= slot),
{
    let id = id_at(nodes, node);
    let last: usize = last_node(nodes, commits, id, node);
    if last != node {
        return true;
    }
    let times: usize = count_copies(nodes, id);
    let each: usize = count_vacated(nodes, lists, node, slot);
    assert(run_view(nodes@).len() == nodes@.len());
    assert(index_lists(lists@)[node as int] == lists@[node as int]@);
    assert(times * each <= u128::MAX) by (nonlinear_arith)
        requires
            0 <= times <= usize::MAX,
            0 <= each <= usize::MAX,
    ;
    times as u128 * each as u128 <= slot as u128
}

/// Whether no leg moves up by more than there is room for.
pub fn is_derivable(
    graph: &SegmentGraph,
    extra_mutable_refs: &Vec<ExtraRef>,
    workspace_commit_id: Option<ObjectId>,
) -> (r: bool)
    requires
        graph.wf(),
    ensures
        r == derivable(*graph, extra_mutable_refs@, workspace_commit_id),
{
    let entries = match find_entries(graph, extra_mutable_refs) {
        Ok(entries) => entries,
        Err(_) => return true,
    };
    let layout = lay_out(graph, &entries, workspace_commit_id);
    let nodes = &layout.nodes;
    let lists = &layout.lists;
    let commits = &layout.commits;
    let ghost view = run_view(nodes@);
    let ghost all = index_lists(lists@);
    let incoming = find_entering(lists);
    let mut i: usize = 0;
    while i < nodes.len()
        invariant
            i <= nodes@.len(),
            view == run_view(nodes@),
            all == index_lists(lists@),
            view == all_nodes(graph@, layout.mutable@),
            all == final_lists(graph@, layout.mutable@, workspace_commit_id),
            layout.mutable@ == reachable_segments(graph@, entries@),
            graph.entrypoint matches Some((entry, _)) && entries@ == mutable_entries(
                entry,
                extra_mutable_refs@,
            ),
            first_unknown(extra_mutable_refs@, extra_mutable_refs@.len() as int) is None,
            lists@.len() == nodes@.len(),
            lists_below(all, nodes@.len() as int),
            indexes(commits@, view, nodes@.len() as int),
            incoming@.len() == nodes@.len(),
            forall|j: int|
                0 <= j < lists@.len() ==> #[trigger] slot_lists(incoming@)[j] == entering(
                    all,
                    j as usize,
                    lists@.len() as int,
                ),
            forall|j: int|
                0 <= j < i && (#[trigger] view[j]) is Ref && descend(
                    view,
                    all,
                    j as usize,
                    None,
                    WALK_LIMIT as nat,
                ) is Some ==> slots_have_room(
                    view,
                    all,
                    ascend(view, all, j as usize, WALK_LIMIT as nat).1,
                ),
        decreases nodes.len() - i,
    {
        assert(view[i as int] == nodes@[i as int]@);
        if step_is_ref(&nodes[i]) && find_anchor(nodes, lists, i).is_some() {
            let (_, slots) = find_approach(nodes, lists, &incoming, i);
            let mut k: usize = 0;
            while k < slots.len()
                invariant
                    k <= slots@.len(),
                    i < nodes@.len(),
                    view == run_view(nodes@),
                    all == index_lists(lists@),
                    lists@.len() == nodes@.len(),
                    lists_below(all, nodes@.len() as int),
                    indexes(commits@, view, nodes@.len() as int),
                    real_slots(view, all, slots@),
                    slots@ == ascend(view, all, i, WALK_LIMIT as nat).1,
                    view[i as int] is Ref,
                    descend(view, all, i, None, WALK_LIMIT as nat) is Some,
                    view == all_nodes(graph@, layout.mutable@),
                    all == final_lists(graph@, layout.mutable@, workspace_commit_id),
                    layout.mutable@ == reachable_segments(graph@, entries@),
                    graph.entrypoint matches Some((entry, _)) && entries@ == mutable_entries(
                        entry,
                        extra_mutable_refs@,
                    ),
                    first_unknown(extra_mutable_refs@, extra_mutable_refs@.len() as int) is None,
                    forall|j: int|
                        0 <= j < k ==> given_up(view, all, #[trigger] slots@[j]) <= slots@[j].1,
                decreases slots.len() - k,
            {
                let (node, slot) = slots[k];
                assert(slots@[k as int].0 < view.len());
                assert(all[node as int] == lists@[node as int]@);
                if !slot_has_room(nodes, lists, commits, node, slot) {
                    assert(!slots_have_room(view, all, slots@));
                    assert(!legs_have_room(view, all));
                    return false;
                }
                k += 1;
            }
            assert(slots_have_room(view, all, slots@));
        }
        i += 1;
    }
    assert(view.len() == nodes@.len());
    assert(legs_have_room(view, all));
    true
}

/// The ledger of where references are placed, read off the segments.
pub fn derive(
    graph: &SegmentGraph,
    extra_mutable_refs: &Vec<ExtraRef>,
    workspace_commit_id: Option<ObjectId>,
) -> (r: Result<RefPlacements, DeriveError>)
    requires
        graph.wf(),
        derivable(*graph, extra_mutable_refs@, workspace_commit_id),
    ensures
        match r {
            Err(DeriveError::NoEntrypoint) => graph.entrypoint is None,
            Err(DeriveError::UnknownRef(name)) => graph.entrypoint is Some && first_unknown(
                extra_mutable_refs@,
                extra_mutable_refs@.len() as int,
            ) == Some(name@),
            Ok(ledger) => {
                &&& graph.entrypoint matches Some((entry, _))
                &&& first_unknown(extra_mutable_refs@, extra_mutable_refs@.len() as int) is None
                &&& ledger@ == derived(
                    graph@,
                    reachable_segments(graph@, mutable_entries(entry, extra_mutable_refs@)),
                    entry as int,
                    workspace_commit_id,
                )
                &&& forall|id: ObjectId| #[trigger]
                    ledger.mutable_commits@.contains(id) <==> exists|s: int, i: int|
                        0 <= s < graph@.len() && reachable(
                            segment_steps(graph@),
                            mutable_entries(entry, extra_mutable_refs@),
                            s as usize,
                        ) && 0 <= i < graph@[s].commits.len() && (
                        #[trigger] graph@[s].commits[i]).id == id
                &&& connections_fit(graph@)
                &&& all_nodes(
                    graph@,
                    reachable_segments(graph@, mutable_entries(entry, extra_mutable_refs@)),
                ).len() <= usize::MAX
            },
        },
{
    let entries = match find_entries(graph, extra_mutable_refs) {
        Ok(entries) => entries,
        Err(e) => return Err(e),
    };
    let entry: usize = entries[0];
    count_connections(graph);
    let layout = lay_out(graph, &entries, workspace_commit_id);
    let refs = place_refs(&layout.nodes, &layout.lists, &layout.commits);
    let ghost view = run_view(layout.nodes@);
    let n: usize = layout.nodes.len();
    assert(view.len() == n);
    let ws_parents = match workspace_commit_id {
        None => None,
        Some(id) => {
            assert(commit_in(view, id, n as int) == commit_node(view, id));
            match layout.commits.get(&id) {
                None => None,
                Some(node) => {
                    assert(index_lists(layout.lists@)[*node as int]
                        == layout.lists@[*node as int]@);
                    Some(find_settled_ids(&layout.nodes, &layout.lists, *node))
                },
            }
        },
    };
    Ok(
        RefPlacements {
            refs,
            mutable_commits: find_commits(graph, &layout.mutable),
            head_refs: find_heads(graph, entry),
            ws_parents,
        },
    )
}

proof fn lemma_unknown_stays(extra: Seq<ExtraRef>, n: int, m: int)
    requires
        n <= m,
        first_unknown(extra, n) is Some,
    ensures
        first_unknown(extra, m) == first_unknown(extra, n),
    decreases m - n,
{
    if n < m {
        lemma_unknown_stays(extra, n, m - 1);
    }
}

/// The segments and their commits can be counted.
pub open spec fn commits_fit(segments: Seq<SegmentView>) -> bool {
    &&& segments.len() <= usize::MAX
    &&& forall|s: int|
        0 <= s < segments.len() ==> (#[trigger] segments[s]).commits.len() <= usize::MAX
}

/// That the segments and their commits can be counted.
fn count_commits(graph: &SegmentGraph)
    ensures
        commits_fit(graph@),
{
    let mut s: usize = 0;
    while s < graph.segments.len()
        invariant
            s <= graph.segments@.len(),
            forall|t: int| 0 <= t < s ==> (#[trigger] graph@[t]).commits.len() <= usize::MAX,
        decreases graph.segments.len() - s,
    {
        let n: usize = graph.segments[s].commits.len();
        assert(graph@[s as int].commits.len() == n);
        s += 1;
    }
}

/// Whether each commit is in one segment, and there once.
pub fn has_distinct_commits(graph: &SegmentGraph) -> (r: bool)
    ensures
        r == distinct_commits(graph@),
{
    let ghost segments = graph@;
    count_commits(graph);
    let mut seen: SortedMap<ObjectId, (usize, usize)> = SortedMap::new();
    let mut s: usize = 0;
    while s < graph.segments.len()
        invariant
            s <= graph.segments@.len(),
            segments == graph@,
            commits_fit(segments),
            held_upto(segments, seen@, s as int, 0),
        decreases graph.segments.len() - s,
    {
        let commits = &graph.segments[s].commits;
        assert(segments[s as int].commits == commits_view(commits@));
        let mut c: usize = 0;
        while c < commits.len()
            invariant
                c <= commits@.len(),
                s < graph.segments@.len(),
                segments == graph@,
                commits_fit(segments),
                segments[s as int].commits == commits_view(commits@),
                held_upto(segments, seen@, s as int, c as int),
            decreases commits.len() - c,
        {
            let id = commits[c].id;
            assert(segments[s as int].commits[c as int].id == id);
            if let Some(at) = seen.get(&id) {
                proof {
                    assert(seen@.dom().contains(id));
                    let (t, d) = seen@[id];
                    assert(segments[t as int].commits[d as int].id == id);
                    assert(!distinct_commits(segments));
                }
                return false;
            }
            let ghost before = seen@;
            seen.insert(id, (s, c));
            proof {
                assert forall|t: int, d: int|
                    0 <= t < segments.len() && 0 <= d < segments[t].commits.len() && earlier(
                        t,
                        d,
                        s as int,
                        c + 1,
                    ) implies seen@.dom().contains((#[trigger] segments[t].commits[d]).id)
                    && seen@[segments[t].commits[d].id] == (t as usize, d as usize) by {
                    if t != s || d != c {
                        assert(earlier(t, d, s as int, c as int));
                        assert(before.dom().contains(segments[t].commits[d].id));
                    }
                }
            }
            c += 1;
        }
        proof {
            assert forall|t: int, d: int|
                0 <= t < segments.len() && 0 <= d < segments[t].commits.len() && earlier(
                    t,
                    d,
                    s + 1,
                    0,
                ) implies seen@.dom().contains((#[trigger] segments[t].commits[d]).id)
                && seen@[segments[t].commits[d].id] == (t as usize, d as usize) by {
                assert(earlier(t, d, s as int, c as int));
            }
            assert forall|id: ObjectId| #[trigger] seen@.dom().contains(id) implies {
                let (t, d) = seen@[id];
                &&& t < segments.len()
                &&& d < segments[t as int].commits.len()
                &&& segments[t as int].commits[d as int].id == id
                &&& earlier(t as int, d as int, s + 1, 0)
            } by {}
        }
        s += 1;
    }
    proof {
        assert forall|a: int, c: int, b: int, d: int|
            0 <= a < segments.len() && 0 <= c < segments[a].commits.len() && 0 <= b
                < segments.len() && 0 <= d < segments[b].commits.len() && (
            #[trigger] segments[a].commits[c]).id == (#[trigger] segments[b].commits[d]).id implies a
            == b && c == d by {
            assert(earlier(a, c, segments.len() as int, 0));
            assert(earlier(b, d, segments.len() as int, 0));
            assert(seen@[segments[a].commits[c].id] == (a as usize, c as usize));
            assert(seen@[segments[b].commits[d].id] == (b as usize, d as usize));
        }
    }
    true
}

/// Whether the commit at `d` of the segment `t` comes before the one at `c` of the segment `s`.
pub open spec fn earlier(t: int, d: int, s: int, c: int) -> bool {
    t < s || (t == s && d < c)
}

/// The map holds where the commits are that come before the one at `c` of the segment `s`.
pub open spec fn held_upto(
    segments: Seq<SegmentView>,
    seen: Map<ObjectId, (usize, usize)>,
    s: int,
    c: int,
) -> bool {
    &&& forall|t: int, d: int|
        0 <= t < segments.len() && 0 <= d < segments[t].commits.len() && earlier(t, d, s, c)
            ==> seen.dom().contains((#[trigger] segments[t].commits[d]).id)
            && seen[segments[t].commits[d].id] == (t as usize, d as usize)
    &&& forall|id: ObjectId| #[trigger]
        seen.dom().contains(id) ==> {
            let (t, d) = seen[id];
            &&& t < segments.len()
            &&& d < segments[t as int].commits.len()
            &&& segments[t as int].commits[d as int].id == id
            &&& earlier(t as int, d as int, s, c)
        }
}

} // verus!
