//! The creation of an editor: commits from the commit graph, references from the ledger.

use crate::collections::SortedMap;
use crate::commit::{clone_ids, names_view, CommitView};
use crate::commit_graph::{last_index, lemma_last_index, CommitGraph};
use crate::derivation::{
    all_nodes, connections_fit, derivable, derived, distinct_commits, first_unknown, is_derivable,
    mutable_entries, reachable_segments, DeriveError, ExtraRef,
};
use crate::derivation_laws::{
    connected_within, ids_pass, in_graph, law_derived_is_self_contained,
    law_distinct_commits_are_derivable, law_self_contained_is_built, lemma_checkouts_ok,
};
use crate::editor_graph::{EditorGraph, EditorGraphIndex, EditorLeg, EditorView, NodeView, RefView};
use crate::names::{ObjectId, RefName};
use crate::placements::{
    placed_view, Checkout, CommitLeg, Creation, PlacedRef, PlacedView, PlacementsView,
    RefPlacements, Selector,
};
use crate::segment_graph::SegmentGraph;
use crate::seqs::{lemma_filter_none, lemma_filter_take, lemma_take_all};
use crate::step::{Pick, PickSettings, PickView, SettingsView};
use vstd::prelude::*;
use vstd::string::*;

verus! {

/// Options for the editor.
#[derive(Debug)]
pub struct GraphEditorOptions {
    /// Whether picked commits are signed, by the text that it is shown as.
    pub default_sign_commit: String,
    /// References whose segments may be changed although they are not reachable from `HEAD`, each
    /// with the segment where it is.
    pub extra_mutable_refs: Vec<ExtraRef>,
}

impl Default for GraphEditorOptions {
    fn default() -> (r: Self)
        ensures
            r.default_sign_commit@ == "IfSignCommitsEnabled"@,
            r.extra_mutable_refs@.len() == 0,
    {
        GraphEditorOptions {
            default_sign_commit: "IfSignCommitsEnabled".to_string(),
            extra_mutable_refs: Vec::new(),
        }
    }
}

/// How commits are picked unless something else is asked for.
#[derive(Debug)]
pub struct PickDefaults {
    /// How a commit is picked.
    pub pick: PickSettings,
    /// How the managed workspace commit is picked.
    pub workspace_pick: PickSettings,
    /// Whether commits may be rewritten where nothing says which may.
    pub mutable: bool,
}

/// Why no graph can be built from a ledger.
#[derive(Debug)]
pub enum CreationError {
    /// There is no commit graph to build from.
    NoCommitGraph,
    /// A reference sits on a commit that is not in the graph.
    UnknownAnchor(ObjectId),
    /// What is underneath a reference is no reference of the ledger.
    UnknownBelow(RefName),
    /// A leg comes from a commit that is not in the graph.
    UnknownSource(ObjectId),
    /// What is checked out is no reference of the ledger.
    UnknownHead(RefName),
}

/// What a [`CreationError`] stands for.
pub enum CreationErrorView {
    /// There is no commit graph to build from.
    NoCommitGraph,
    /// A reference sits on a commit that is not in the graph.
    UnknownAnchor(ObjectId),
    /// What is underneath a reference is no reference of the ledger.
    UnknownBelow(Seq<u8>),
    /// A leg comes from a commit that is not in the graph.
    UnknownSource(ObjectId),
    /// What is checked out is no reference of the ledger.
    UnknownHead(Seq<u8>),
}

impl View for CreationError {
    type V = CreationErrorView;

    open spec fn view(&self) -> CreationErrorView {
        match self {
            CreationError::NoCommitGraph => CreationErrorView::NoCommitGraph,
            CreationError::UnknownAnchor(id) => CreationErrorView::UnknownAnchor(*id),
            CreationError::UnknownBelow(name) => CreationErrorView::UnknownBelow(name@),
            CreationError::UnknownSource(id) => CreationErrorView::UnknownSource(*id),
            CreationError::UnknownHead(name) => CreationErrorView::UnknownHead(name@),
        }
    }
}

/// How the commit `id` is picked.
pub open spec fn settings_for(
    defaults: PickDefaults,
    sign: Seq<char>,
    workspace_commit_id: Option<ObjectId>,
    id: ObjectId,
) -> SettingsView {
    if workspace_commit_id == Some(id) {
        defaults.workspace_pick@
    } else {
        SettingsView { sign_commit: sign, ..defaults.pick@ }
    }
}

/// The commits as nodes that have no parents yet.
pub open spec fn lone_nodes(
    commits: Seq<CommitView>,
    defaults: PickDefaults,
    sign: Seq<char>,
    workspace_commit_id: Option<ObjectId>,
    mutable: Set<ObjectId>,
    n: int,
) -> Seq<NodeView> {
    Seq::new(
        n as nat,
        |i: int|
            NodeView {
                pick: Some(
                    PickView {
                        id: commits[i].id,
                        settings: settings_for(defaults, sign, workspace_commit_id, commits[i].id),
                        preserved_parents: None,
                        mutable: mutable.contains(commits[i].id),
                    },
                ),
                parents: Seq::empty(),
            },
    )
}

/// The nodes of those of the first `n` ids that are in the graph.
pub open spec fn node_list(commits: Seq<CommitView>, ids: Seq<ObjectId>, n: int) -> Seq<
    EditorGraphIndex,
>
    decreases n,
{
    if n <= 0 {
        Seq::empty()
    } else {
        let before = node_list(commits, ids, n - 1);
        match last_index(commits, ids[n - 1]) {
            Some(i) => before.push(EditorGraphIndex::Node(i)),
            None => before,
        }
    }
}

/// Whether one of the ids is not in the graph.
pub open spec fn some_absent(commits: Seq<CommitView>, ids: Seq<ObjectId>) -> bool {
    exists|i: int| 0 <= i < ids.len() && last_index(commits, #[trigger] ids[i]) is None
}

/// The parents that the commit `id` has itself.
pub open spec fn raw_parents(commits: Seq<CommitView>, id: ObjectId) -> Seq<ObjectId> {
    commits[last_index(commits, id)->0 as int].parent_ids
}

/// The parents that the node of the commit `id` is to have: those of the commit that are in the
/// graph, but for the workspace commit those of the ledger.
pub open spec fn wanted_parents(
    commits: Seq<CommitView>,
    workspace_commit_id: Option<ObjectId>,
    ws_parents: Option<Seq<ObjectId>>,
    id: ObjectId,
) -> Seq<EditorGraphIndex> {
    let ids = if workspace_commit_id == Some(id) {
        match ws_parents {
            Some(ids) => ids,
            None => Seq::empty(),
        }
    } else {
        raw_parents(commits, id)
    };
    node_list(commits, ids, ids.len() as int)
}

/// The node of the commit `id` with its parents; all parents of the commit are kept where one is not
/// in the graph.
pub open spec fn wired_node(
    commits: Seq<CommitView>,
    workspace_commit_id: Option<ObjectId>,
    ws_parents: Option<Seq<ObjectId>>,
    id: ObjectId,
    node: NodeView,
) -> NodeView {
    NodeView {
        pick: if some_absent(commits, raw_parents(commits, id)) {
            Some(
                PickView { preserved_parents: Some(raw_parents(commits, id)), ..node.pick->0 },
            )
        } else {
            node.pick
        },
        parents: node.parents + wanted_parents(commits, workspace_commit_id, ws_parents, id),
    }
}

/// The nodes after the first `n` commits got their parents.
pub open spec fn wired_nodes(
    commits: Seq<CommitView>,
    workspace_commit_id: Option<ObjectId>,
    ws_parents: Option<Seq<ObjectId>>,
    nodes: Seq<NodeView>,
    n: int,
) -> Seq<NodeView>
    decreases n,
{
    if n <= 0 {
        nodes
    } else {
        let before = wired_nodes(commits, workspace_commit_id, ws_parents, nodes, n - 1);
        let id = commits[n - 1].id;
        let ix = last_index(commits, id)->0 as int;
        before.update(ix, wired_node(commits, workspace_commit_id, ws_parents, id, before[ix]))
    }
}

/// The references of the ledger without positions.
pub open spec fn lone_refs(refs: Seq<PlacedView>) -> Seq<RefView> {
    refs.map_values(
        |r: PlacedView| RefView { name: r.name, mutable: r.mutable, live: true, position: None },
    )
}

/// The last of the first `n` references with this name.
pub open spec fn name_in(refs: Seq<PlacedView>, name: Seq<u8>, n: int) -> Option<usize>
    decreases n,
{
    if n <= 0 {
        None
    } else if refs[n - 1].name == name {
        Some((n - 1) as usize)
    } else {
        name_in(refs, name, n - 1)
    }
}

/// The reference with this name.
pub open spec fn ref_named(refs: Seq<PlacedView>, name: Seq<u8>) -> Option<EditorGraphIndex> {
    match name_in(refs, name, refs.len() as int) {
        Some(i) => Some(EditorGraphIndex::Ref(i)),
        None => None,
    }
}

/// The first `n` legs by the nodes that they come from.
pub open spec fn node_legs(commits: Seq<CommitView>, legs: Seq<CommitLeg>, n: int) -> Result<
    Seq<EditorLeg>,
    CreationErrorView,
>
    decreases n,
{
    if n <= 0 {
        Ok(Seq::empty())
    } else {
        match node_legs(commits, legs, n - 1) {
            Err(e) => Err(e),
            Ok(before) => match last_index(commits, legs[n - 1].0) {
                Some(i) => Ok(before.push((EditorGraphIndex::Node(i), legs[n - 1].1))),
                None => Err(CreationErrorView::UnknownSource(legs[n - 1].0)),
            },
        }
    }
}

/// The graph after the reference got its position.
pub open spec fn with_placed(
    commits: Seq<CommitView>,
    refs: Seq<PlacedView>,
    graph: EditorView,
    placed: PlacedView,
) -> Result<EditorView, CreationErrorView> {
    match placed.anchor {
        None => Ok(graph),
        Some(id) => match last_index(commits, id) {
            None => Err(CreationErrorView::UnknownAnchor(id)),
            Some(anchor) => if placed.below matches Some(name) && ref_named(refs, name) is None {
                Err(CreationErrorView::UnknownBelow(placed.below->0))
            } else {
                let below = match placed.below {
                    Some(name) => ref_named(refs, name),
                    None => None,
                };
                match node_legs(commits, placed.approach, placed.approach.len() as int) {
                    Err(e) => Err(e),
                    Ok(legs) => Ok(
                        graph.set_position(
                            ref_named(refs, placed.name)->0,
                            EditorGraphIndex::Node(anchor),
                            legs,
                            placed.ambiguous,
                            below,
                        ),
                    ),
                }
            },
        },
    }
}

/// The graph after the first `n` references got their positions.
pub open spec fn with_positions(
    commits: Seq<CommitView>,
    refs: Seq<PlacedView>,
    graph: EditorView,
    n: int,
) -> Result<EditorView, CreationErrorView>
    decreases n,
{
    if n <= 0 {
        Ok(graph)
    } else {
        match with_positions(commits, refs, graph, n - 1) {
            Err(e) => Err(e),
            Ok(before) => with_placed(commits, refs, before, refs[n - 1]),
        }
    }
}

/// Whether the reference may be moved.
pub open spec fn may_move() -> spec_fn(PlacedView) -> bool {
    |r: PlacedView| r.mutable
}

/// The names of the references that may be moved.
pub open spec fn mutable_names(refs: Seq<PlacedView>) -> Seq<Seq<u8>> {
    refs.filter(may_move()).map_values(|r: PlacedView| r.name)
}

/// What is to be checked out for the first `n` names.
pub open spec fn head_checkouts(refs: Seq<PlacedView>, names: Seq<Seq<u8>>, n: int) -> Result<
    Seq<Checkout>,
    CreationErrorView,
>
    decreases n,
{
    if n <= 0 {
        Ok(Seq::empty())
    } else {
        match head_checkouts(refs, names, n - 1) {
            Err(e) => Err(e),
            Ok(before) => match ref_named(refs, names[n - 1]) {
                Some(id) => Ok(
                    before.push(
                        Checkout::Head { selector: Selector { id }, merge_base_override: None },
                    ),
                ),
                None => Err(CreationErrorView::UnknownHead(names[n - 1])),
            },
        }
    }
}

/// The graph of the commits, without references.
pub open spec fn commit_nodes(
    commits: Seq<CommitView>,
    defaults: PickDefaults,
    sign: Seq<char>,
    workspace_commit_id: Option<ObjectId>,
    ledger: PlacementsView,
) -> Seq<NodeView> {
    wired_nodes(
        commits,
        workspace_commit_id,
        ledger.ws_parents,
        lone_nodes(
            commits,
            defaults,
            sign,
            workspace_commit_id,
            ledger.mutable_commits,
            commits.len() as int,
        ),
        commits.len() as int,
    )
}

/// The graph that commits and a ledger make.
pub open spec fn created(
    commits: Seq<CommitView>,
    defaults: PickDefaults,
    sign: Seq<char>,
    workspace_commit_id: Option<ObjectId>,
    ledger: PlacementsView,
) -> Result<EditorView, CreationErrorView> {
    with_positions(
        commits,
        ledger.refs,
        EditorView {
            nodes: commit_nodes(commits, defaults, sign, workspace_commit_id, ledger),
            refs: lone_refs(ledger.refs),
            lanes: Map::empty(),
        },
        ledger.refs.len() as int,
    )
}

/// The parents of the workspace commit that the ledger has are in the graph.
pub open spec fn ws_parents_known(
    commits: Seq<CommitView>,
    workspace_commit_id: Option<ObjectId>,
    ledger: PlacementsView,
) -> bool {
    workspace_commit_id matches Some(ws) && last_index(commits, ws) is Some
        && ledger.ws_parents is Some ==> !some_absent(commits, ledger.ws_parents->0)
}

proof fn lemma_node_list(commits: Seq<CommitView>, ids: Seq<ObjectId>, n: int)
    requires
        commits.len() <= usize::MAX,
        n <= ids.len(),
    ensures
        forall|i: int|
            0 <= i < node_list(commits, ids, n).len() ==> #[trigger] node_list(commits, ids, n)[i]
                is Node && (node_list(commits, ids, n)[i]->Node_0 as int) < commits.len(),
    decreases n,
{
    if n > 0 {
        lemma_node_list(commits, ids, n - 1);
        lemma_last_index(commits, ids[n - 1]);
        let (before, all) = (node_list(commits, ids, n - 1), node_list(commits, ids, n));
        assert(all == before || all == before.push(
            EditorGraphIndex::Node(last_index(commits, ids[n - 1])->0),
        ));
        assert forall|i: int| 0 <= i < all.len() implies (#[trigger] all[i] is Node && (
        all[i]->Node_0 as int) < commits.len()) by {
            if i < before.len() {
                assert(all[i] == before[i]);
            }
        }
    } else {
        assert(node_list(commits, ids, n).len() == 0);
    }
}

/// Give the node those of the ids for parents that are in the graph.
fn push_parents(graph: &mut EditorGraph, cg: &CommitGraph, n: usize, ids: &Vec<ObjectId>)
    requires
        cg.wf(),
        n < old(graph)@.nodes.len(),
    ensures
        final(graph)@ == old(graph)@.with_parents(
            n as int,
            old(graph)@.nodes[n as int].parents + node_list(
                cg.commits(),
                ids@,
                ids@.len() as int,
            ),
        ),
{
    let ghost before = graph@;
    let ghost commits = cg.commits();
    let mut i: usize = 0;
    assert(before =~= before.with_parents(
        n as int,
        before.nodes[n as int].parents + node_list(commits, ids@, 0),
    )) by {
        assert(before.nodes[n as int].parents + node_list(commits, ids@, 0)
            =~= before.nodes[n as int].parents);
        assert(before.nodes =~= before.nodes.update(n as int, before.nodes[n as int]));
    }
    while i < ids.len()
        invariant
            i <= ids@.len(),
            n < before.nodes.len(),
            cg.wf(),
            commits == cg.commits(),
            graph@ == before.with_parents(
                n as int,
                before.nodes[n as int].parents + node_list(commits, ids@, i as int),
            ),
        decreases ids.len() - i,
    {
        let ghost held = graph@;
        if let Some(p) = cg.by_id.get(&ids[i]) {
            let parent = EditorGraphIndex::Node(*p);
            graph.push_parent(EditorGraphIndex::Node(n), parent);
            assert(held.parents(EditorGraphIndex::Node(n)) == held.nodes[n as int].parents);
            assert((before.nodes[n as int].parents + node_list(commits, ids@, i as int)).push(
                parent,
            ) =~= before.nodes[n as int].parents + node_list(commits, ids@, i + 1));
            assert(graph@ =~= before.with_parents(
                n as int,
                before.nodes[n as int].parents + node_list(commits, ids@, i + 1),
            )) by {
                assert(graph@.nodes =~= before.with_parents(
                    n as int,
                    before.nodes[n as int].parents + node_list(commits, ids@, i + 1),
                ).nodes);
            }
        }
        i += 1;
    }
}

/// Whether one of the ids is not in the graph.
fn is_some_absent(cg: &CommitGraph, ids: &Vec<ObjectId>) -> (r: bool)
    requires
        cg.wf(),
    ensures
        r == some_absent(cg.commits(), ids@),
{
    let mut i: usize = 0;
    while i < ids.len()
        invariant
            i <= ids@.len(),
            cg.wf(),
            forall|j: int| 0 <= j < i ==> last_index(cg.commits(), #[trigger] ids@[j]) is Some,
        decreases ids.len() - i,
    {
        if !cg.by_id.contains_key(&ids[i]) {
            assert(last_index(cg.commits(), ids@[i as int]) is None);
            return true;
        }
        assert(cg.by_id@.dom().contains(ids@[i as int]));
        i += 1;
    }
    false
}

/// The commit `id` as a step.
pub fn pick_for(
    defaults: &PickDefaults,
    sign: &String,
    workspace_commit_id: Option<ObjectId>,
    mutable: bool,
    id: ObjectId,
) -> (r: Pick)
    ensures
        r@ == (PickView {
            id,
            settings: settings_for(*defaults, sign@, workspace_commit_id, id),
            preserved_parents: None,
            mutable,
        }),
{
    let is_workspace: bool = match workspace_commit_id {
        Some(ws) => ws == id,
        None => false,
    };
    let settings = if is_workspace {
        defaults.workspace_pick.clone()
    } else {
        let mut settings = defaults.pick.clone();
        settings.sign_commit = sign.clone();
        settings
    };
    Pick { id, settings, preserved_parents: None, mutable }
}

/// The graph of the commits as nodes that have no parents yet.
fn add_commits(
    cg: &CommitGraph,
    defaults: &PickDefaults,
    sign: &String,
    workspace_commit_id: Option<ObjectId>,
    ledger: &RefPlacements,
) -> (graph: EditorGraph)
    ensures
        graph@ == (EditorView {
            nodes: lone_nodes(
                cg.commits(),
                *defaults,
                sign@,
                workspace_commit_id,
                ledger@.mutable_commits,
                cg.commits().len() as int,
            ),
            refs: Seq::empty(),
            lanes: Map::empty(),
        }),
{
    let ghost commits = cg.commits();
    let ghost mutable = ledger@.mutable_commits;
    let mut graph = EditorGraph::new();
    let mut i: usize = 0;
    assert(graph@.nodes =~= lone_nodes(commits, *defaults, sign@, workspace_commit_id, mutable, 0));
    while i < cg.nodes.len()
        invariant
            i <= cg.nodes@.len(),
            commits == cg.commits(),
            mutable == ledger@.mutable_commits,
            graph@ == (EditorView {
                nodes: lone_nodes(
                    commits,
                    *defaults,
                    sign@,
                    workspace_commit_id,
                    mutable,
                    i as int,
                ),
                refs: Seq::empty(),
                lanes: Map::empty(),
            }),
        decreases cg.nodes.len() - i,
    {
        let id = cg.nodes[i].commit.id;
        assert(commits[i as int].id == id);
        let pick = pick_for(
            defaults,
            sign,
            workspace_commit_id,
            ledger.mutable_commits.contains(&id),
            id,
        );
        let ghost before = graph@.nodes;
        graph.add_node(pick);
        assert(graph@.nodes =~= lone_nodes(
            commits,
            *defaults,
            sign@,
            workspace_commit_id,
            mutable,
            i + 1,
        ));
        i += 1;
    }
    graph
}

proof fn lemma_wired_len(
    commits: Seq<CommitView>,
    ws: Option<ObjectId>,
    ws_parents: Option<Seq<ObjectId>>,
    nodes: Seq<NodeView>,
    n: int,
)
    requires
        n <= commits.len() <= usize::MAX,
        nodes.len() == commits.len(),
        forall|i: int|
            0 <= i < commits.len() ==> (#[trigger] nodes[i]).pick is Some && nodes[i].pick->0.id
                == commits[i].id,
    ensures
        wired_nodes(commits, ws, ws_parents, nodes, n).len() == commits.len(),
        forall|i: int|
            0 <= i < commits.len() ==> (#[trigger] wired_nodes(
                commits,
                ws,
                ws_parents,
                nodes,
                n,
            )[i]).pick is Some && wired_nodes(commits, ws, ws_parents, nodes, n)[i].pick->0.id
                == commits[i].id,
    decreases n,
{
    if n > 0 {
        lemma_wired_len(commits, ws, ws_parents, nodes, n - 1);
        let id = commits[n - 1].id;
        lemma_last_index(commits, id);
        assert(last_index(commits, id) is Some);
        let ix = last_index(commits, id)->0 as int;
        let before = wired_nodes(commits, ws, ws_parents, nodes, n - 1);
        assert(before[ix].pick is Some);
    }
}

/// Give the nodes their parents.
fn wire_commits(
    graph: &mut EditorGraph,
    cg: &CommitGraph,
    workspace_commit_id: Option<ObjectId>,
    ledger: &RefPlacements,
)
    requires
        cg.wf(),
        old(graph)@.nodes.len() == cg.commits().len(),
        forall|i: int|
            0 <= i < cg.commits().len() ==> (#[trigger] old(graph)@.nodes[i]).pick is Some
                && old(graph)@.nodes[i].pick->0.id == cg.commits()[i].id,
    ensures
        final(graph)@ == (EditorView {
            nodes: wired_nodes(
                cg.commits(),
                workspace_commit_id,
                ledger@.ws_parents,
                old(graph)@.nodes,
                cg.commits().len() as int,
            ),
            ..old(graph)@
        }),
{
    let ghost given = graph@;
    let ghost commits = cg.commits();
    let ghost wsp = ledger@.ws_parents;
    let mut i: usize = 0;
    while i < cg.nodes.len()
        invariant
            i <= cg.nodes@.len(),
            cg.wf(),
            commits == cg.commits(),
            wsp == ledger@.ws_parents,
            given.nodes.len() == commits.len(),
            forall|i: int|
                0 <= i < commits.len() ==> (#[trigger] given.nodes[i]).pick is Some
                    && given.nodes[i].pick->0.id == commits[i].id,
            graph@ == (EditorView {
                nodes: wired_nodes(commits, workspace_commit_id, wsp, given.nodes, i as int),
                ..given
            }),
        decreases cg.nodes.len() - i,
    {
        let id = cg.nodes[i].commit.id;
        assert(commits[i as int].id == id);
        proof {
            lemma_last_index(commits, id);
            lemma_wired_len(commits, workspace_commit_id, wsp, given.nodes, i as int);
        }
        let ghost before = graph@;
        let ix: usize = *cg.by_id.get(&id).unwrap();
        let raw = &cg.nodes[ix].commit.parent_ids;
        assert(raw@ == raw_parents(commits, id));
        assert(before.nodes[ix as int].pick is Some);
        if is_some_absent(cg, raw) {
            graph.set_preserved_parents(EditorGraphIndex::Node(ix), Some(clone_ids(raw)));
        }
        let ghost kept = graph@;
        let is_workspace: bool = match workspace_commit_id {
            Some(ws) => ws == id,
            None => false,
        };
        if is_workspace {
            if let Some(parents) = &ledger.ws_parents {
                push_parents(graph, cg, ix, parents);
            } else {
                assert(kept.nodes[ix as int].parents =~= kept.nodes[ix as int].parents
                    + Seq::empty());
            }
        } else {
            push_parents(graph, cg, ix, raw);
        }
        assert(graph@.nodes =~= wired_nodes(
            commits,
            workspace_commit_id,
            wsp,
            given.nodes,
            i + 1,
        ));
        i += 1;
    }
}

/// The map holds the references by their names.
pub open spec fn names_index(map: Map<Seq<u8>, usize>, refs: Seq<PlacedView>, n: int) -> bool {
    forall|name: Seq<u8>|
        #![trigger map.dom().contains(name)]
        #![trigger name_in(refs, name, n)]
        name_in(refs, name, n) == if map.dom().contains(name) {
            Some(map[name])
        } else {
            None
        }
}

proof fn lemma_name_in(refs: Seq<PlacedView>, name: Seq<u8>, n: int)
    requires
        n <= refs.len() <= usize::MAX,
    ensures
        name_in(refs, name, n) matches Some(i) ==> i < n && refs[i as int].name == name,
        forall|i: int|
            0 <= i < n && (#[trigger] refs[i]).name == name ==> name_in(refs, name, n) is Some,
    decreases n,
{
    if n > 0 {
        lemma_name_in(refs, name, n - 1);
    }
}

/// Add the references of the ledger, and give them by their names.
fn add_references(graph: &mut EditorGraph, refs: &Vec<PlacedRef>) -> (by_name: SortedMap<
    RefName,
    usize,
>)
    requires
        old(graph)@.refs.len() == 0,
    ensures
        final(graph)@ == (EditorView { refs: lone_refs(placed_view(refs@)), ..old(graph)@ }),
        names_index(by_name@, placed_view(refs@), refs@.len() as int),
{
    let ghost given = graph@;
    let ghost all = placed_view(refs@);
    let mut by_name: SortedMap<RefName, usize> = SortedMap::new();
    let mut i: usize = 0;
    assert(graph@.refs =~= lone_refs(all).take(0));
    while i < refs.len()
        invariant
            i <= refs@.len(),
            all == placed_view(refs@),
            graph@ == (EditorView { refs: lone_refs(all).take(i as int), ..given }),
            names_index(by_name@, all, i as int),
        decreases refs.len() - i,
    {
        assert(all[i as int] == refs@[i as int]@);
        let ghost before = graph@;
        let ghost held = by_name@;
        graph.add_reference(refs[i].name.clone(), refs[i].mutable);
        assert(lone_refs(all).take(i + 1) =~= lone_refs(all).take(i as int).push(
            lone_refs(all)[i as int],
        ));
        by_name.insert(refs[i].name.clone(), i);
        assert forall|name: Seq<u8>| name_in(all, name, i + 1)
            == if #[trigger] by_name@.dom().contains(name) {
            Some(by_name@[name])
        } else {
            None
        } by {
            assert(name_in(all, name, i as int) == if held.dom().contains(name) {
                Some(held[name])
            } else {
                None
            });
        }
        i += 1;
    }
    assert(lone_refs(all).take(i as int) =~= lone_refs(all));
    by_name
}

proof fn lemma_node_legs_fail(commits: Seq<CommitView>, legs: Seq<CommitLeg>, n: int, m: int)
    requires
        n <= m,
        node_legs(commits, legs, n) is Err,
    ensures
        node_legs(commits, legs, m) == node_legs(commits, legs, n),
    decreases m - n,
{
    if n < m {
        lemma_node_legs_fail(commits, legs, n, m - 1);
    }
}

/// The legs by the nodes that they come from.
fn find_node_legs(cg: &CommitGraph, legs: &Vec<CommitLeg>) -> (r: Result<
    Vec<EditorLeg>,
    CreationError,
>)
    requires
        cg.wf(),
    ensures
        match (r, node_legs(cg.commits(), legs@, legs@.len() as int)) {
            (Ok(v), Ok(w)) => v@ == w,
            (Err(e), Err(f)) => e@ == f,
            _ => false,
        },
{
    let ghost commits = cg.commits();
    let mut r: Vec<EditorLeg> = Vec::new();
    let mut i: usize = 0;
    while i < legs.len()
        invariant
            i <= legs@.len(),
            cg.wf(),
            commits == cg.commits(),
            node_legs(commits, legs@, i as int) == Ok::<Seq<EditorLeg>, CreationErrorView>(r@),
        decreases legs.len() - i,
    {
        let (source, slot) = legs[i];
        match cg.by_id.get(&source) {
            Some(ix) => {
                r.push((EditorGraphIndex::Node(*ix), slot));
            },
            None => {
                assert(last_index(commits, source) is None);
                proof {
                    lemma_node_legs_fail(commits, legs@, i + 1, legs@.len() as int);
                }
                return Err(CreationError::UnknownSource(source));
            },
        }
        i += 1;
    }
    Ok(r)
}

/// Give the reference its position.
fn place_one(
    graph: &mut EditorGraph,
    cg: &CommitGraph,
    by_name: &SortedMap<RefName, usize>,
    placed: &PlacedRef,
    Ghost(refs): Ghost<Seq<PlacedView>>,
) -> (r: Result<(), CreationError>)
    requires
        cg.wf(),
        refs.len() <= usize::MAX,
        old(graph)@.refs.len() == refs.len(),
        names_index(by_name@, refs, refs.len() as int),
        refs.contains(placed@),
    ensures
        match (r, with_placed(cg.commits(), refs, old(graph)@, placed@)) {
            (Ok(_), Ok(v)) => final(graph)@ == v && v.refs.len() == refs.len(),
            (Err(e), Err(f)) => e@ == f,
            _ => false,
        },
{
    let ghost commits = cg.commits();
    let id = match placed.anchor {
        Some(id) => id,
        None => return Ok(()),
    };
    proof {
        lemma_name_in(refs, placed.name@, refs.len() as int);
        let i = choose|i: int| 0 <= i < refs.len() && refs[i] == placed@;
        assert(refs[i].name == placed.name@);
    }
    let node: usize = *by_name.get(&placed.name).unwrap();
    let anchor: usize = match cg.by_id.get(&id) {
        Some(ix) => *ix,
        None => {
            assert(last_index(commits, id) is None);
            return Err(CreationError::UnknownAnchor(id));
        },
    };
    let below = match &placed.below {
        Some(name) => {
            assert(name_in(refs, name@, refs.len() as int) is Some
                <==> by_name@.dom().contains(name@));
            match by_name.get(name) {
                Some(b) => Some(EditorGraphIndex::Ref(*b)),
                None => return Err(CreationError::UnknownBelow(name.clone())),
            }
        },
        None => None,
    };
    let approach = match find_node_legs(cg, &placed.approach) {
        Ok(legs) => legs,
        Err(e) => return Err(e),
    };
    graph.set_position(
        EditorGraphIndex::Ref(node),
        EditorGraphIndex::Node(anchor),
        &approach,
        placed.ambiguous,
        below,
    );
    Ok(())
}

proof fn lemma_positions_fail(
    commits: Seq<CommitView>,
    refs: Seq<PlacedView>,
    graph: EditorView,
    n: int,
    m: int,
)
    requires
        n <= m,
        with_positions(commits, refs, graph, n) is Err,
    ensures
        with_positions(commits, refs, graph, m) == with_positions(commits, refs, graph, n),
    decreases m - n,
{
    if n < m {
        lemma_positions_fail(commits, refs, graph, n, m - 1);
    }
}

/// Give the references their positions.
fn place_all(
    graph: &mut EditorGraph,
    cg: &CommitGraph,
    by_name: &SortedMap<RefName, usize>,
    refs: &Vec<PlacedRef>,
) -> (r: Result<(), CreationError>)
    requires
        cg.wf(),
        old(graph)@.refs.len() == refs@.len(),
        names_index(by_name@, placed_view(refs@), refs@.len() as int),
    ensures
        match (
            r,
            with_positions(
                cg.commits(),
                placed_view(refs@),
                old(graph)@,
                refs@.len() as int,
            ),
        ) {
            (Ok(_), Ok(v)) => final(graph)@ == v,
            (Err(e), Err(f)) => e@ == f,
            _ => false,
        },
{
    let ghost given = graph@;
    let ghost commits = cg.commits();
    let ghost all = placed_view(refs@);
    let n: usize = refs.len();
    let mut i: usize = 0;
    while i < n
        invariant
            i <= n,
            n == refs@.len(),
            cg.wf(),
            commits == cg.commits(),
            all == placed_view(refs@),
            names_index(by_name@, all, n as int),
            given == old(graph)@,
            graph@.refs.len() == n,
            with_positions(commits, all, given, i as int) == Ok::<EditorView, CreationErrorView>(
                graph@,
            ),
        decreases n - i,
    {
        assert(all[i as int] == refs@[i as int]@);
        assert(all.contains(all[i as int]));
        assert(all.len() == n);
        match place_one(graph, cg, by_name, &refs[i], Ghost(all)) {
            Ok(_) => {},
            Err(e) => {
                proof {
                    lemma_positions_fail(commits, all, given, i + 1, n as int);
                }
                return Err(e);
            },
        }
        i += 1;
    }
    Ok(())
}

/// The names of the references that may be moved.
fn find_mutable_names(refs: &Vec<PlacedRef>) -> (r: Vec<RefName>)
    ensures
        names_view(r@) == mutable_names(placed_view(refs@)),
{
    let ghost all = placed_view(refs@);
    let ghost keep = may_move();
    let ghost named = |r: PlacedView| r.name;
    let mut r: Vec<RefName> = Vec::new();
    let mut i: usize = 0;
    proof {
        lemma_filter_none(all, keep);
        assert(names_view(r@) =~= all.take(0).filter(keep).map_values(named));
    }
    while i < refs.len()
        invariant
            i <= refs@.len(),
            all == placed_view(refs@),
            keep == may_move(),
            named == (|r: PlacedView| r.name),
            names_view(r@) == all.take(i as int).filter(keep).map_values(named),
        decreases refs.len() - i,
    {
        assert(all[i as int] == refs@[i as int]@);
        proof {
            lemma_filter_take(all, keep, i as int);
        }
        if refs[i].mutable {
            let ghost before = r@;
            let x = refs[i].name.clone();
            r.push(x);
            assert(names_view(r@) =~= names_view(before).push(x@));
            assert(all.take(i + 1).filter(keep).map_values(named) =~= all.take(i as int).filter(
                keep,
            ).map_values(named).push(x@));
        }
        i += 1;
    }
    proof {
        lemma_take_all(all);
        assert(names_view(r@) =~= mutable_names(all));
    }
    r
}

proof fn lemma_checkouts_fail(refs: Seq<PlacedView>, names: Seq<Seq<u8>>, n: int, m: int)
    requires
        n <= m,
        head_checkouts(refs, names, n) is Err,
    ensures
        head_checkouts(refs, names, m) == head_checkouts(refs, names, n),
    decreases m - n,
{
    if n < m {
        lemma_checkouts_fail(refs, names, n, m - 1);
    }
}

/// What is to be checked out.
fn find_checkouts(
    by_name: &SortedMap<RefName, usize>,
    names: &Vec<RefName>,
    Ghost(refs): Ghost<Seq<PlacedView>>,
) -> (r: Result<Vec<Checkout>, CreationError>)
    requires
        names_index(by_name@, refs, refs.len() as int),
    ensures
        match (r, head_checkouts(refs, names_view(names@), names@.len() as int)) {
            (Ok(v), Ok(w)) => v@ == w,
            (Err(e), Err(f)) => e@ == f,
            _ => false,
        },
{
    let ghost all = names_view(names@);
    let mut r: Vec<Checkout> = Vec::new();
    let mut i: usize = 0;
    while i < names.len()
        invariant
            i <= names@.len(),
            all == names_view(names@),
            names_index(by_name@, refs, refs.len() as int),
            head_checkouts(refs, all, i as int) == Ok::<Seq<Checkout>, CreationErrorView>(r@),
        decreases names.len() - i,
    {
        assert(all[i as int] == names@[i as int]@);
        assert(name_in(refs, all[i as int], refs.len() as int) is Some
            <==> by_name@.dom().contains(all[i as int]));
        match by_name.get(&names[i]) {
            Some(ix) => {
                let id = EditorGraphIndex::Ref(*ix);
                r.push(Checkout::Head { selector: Selector { id }, merge_base_override: None });
            },
            None => {
                proof {
                    lemma_checkouts_fail(refs, all, i + 1, names@.len() as int);
                }
                return Err(CreationError::UnknownHead(names[i].clone()));
            },
        }
        i += 1;
    }
    Ok(r)
}

/// What a creation from a ledger gives.
pub open spec fn creates(
    r: Result<Creation, CreationError>,
    commits: Seq<CommitView>,
    defaults: PickDefaults,
    sign: Seq<char>,
    workspace_commit_id: Option<ObjectId>,
    ledger: PlacementsView,
) -> bool {
    match created(commits, defaults, sign, workspace_commit_id, ledger) {
        Err(e) => r matches Err(f) && f@ == e,
        Ok(graph) => match head_checkouts(
            ledger.refs,
            ledger.head_refs,
            ledger.head_refs.len() as int,
        ) {
            Err(e) => r matches Err(f) && f@ == e,
            Ok(checkouts) => {
                &&& r matches Ok(c)
                &&& c.graph@ == graph
                &&& names_view(c.initial_references@) == mutable_names(ledger.refs)
                &&& c.checkouts@ == checkouts
            },
        },
    }
}

/// The node at each index is the commit at that index.
pub open spec fn mirrors(graph: EditorView, commits: Seq<CommitView>) -> bool {
    &&& graph.nodes.len() == commits.len()
    &&& forall|i: int|
        0 <= i < commits.len() ==> #[trigger] graph.commit_id(EditorGraphIndex::Node(i as usize))
            == Some(commits[i].id)
}

/// Build the graph: commits and their ordered parents from the commit graph, references and their
/// positions from the ledger. Each node has the index that its commit has in the commit graph.
pub fn create_native(
    cg: Option<&CommitGraph>,
    workspace_commit_id: Option<ObjectId>,
    defaults: &PickDefaults,
    options: &GraphEditorOptions,
    ledger: &RefPlacements,
) -> (r: Result<Creation, CreationError>)
    requires
        cg matches Some(cg) ==> cg.wf() && ws_parents_known(
            cg.commits(),
            workspace_commit_id,
            ledger@,
        ),
    ensures
        match cg {
            None => r matches Err(e) && e@ == CreationErrorView::NoCommitGraph,
            Some(cg) => creates(
                r,
                cg.commits(),
                *defaults,
                options.default_sign_commit@,
                workspace_commit_id,
                ledger@,
            ) && (r matches Ok(c) ==> mirrors(c.graph@, cg.commits())),
        },
{
    let cg = match cg {
        Some(cg) => cg,
        None => return Err(CreationError::NoCommitGraph),
    };
    let ghost commits = cg.commits();
    let ghost all = placed_view(ledger.refs@);
    let mut graph = add_commits(
        cg,
        defaults,
        &options.default_sign_commit,
        workspace_commit_id,
        ledger,
    );
    let ghost lone = graph@.nodes;
    wire_commits(&mut graph, cg, workspace_commit_id, ledger);
    proof {
        lemma_wired_len(
            commits,
            workspace_commit_id,
            ledger@.ws_parents,
            lone,
            commits.len() as int,
        );
    }
    let by_name = add_references(&mut graph, &ledger.refs);
    let ghost bare = graph@;
    assert(bare =~= EditorView {
        nodes: commit_nodes(
            commits,
            *defaults,
            options.default_sign_commit@,
            workspace_commit_id,
            ledger@,
        ),
        refs: lone_refs(all),
        lanes: Map::empty(),
    });
    let n: usize = ledger.refs.len();
    match place_all(&mut graph, cg, &by_name, &ledger.refs) {
        Ok(_) => {},
        Err(e) => return Err(e),
    }
    proof {
        lemma_positions_nodes(commits, all, bare, n as int);
    }
    let checkouts = match find_checkouts(&by_name, &ledger.head_refs, Ghost(all)) {
        Ok(checkouts) => checkouts,
        Err(e) => return Err(e),
    };
    Ok(
        Creation {
            graph,
            initial_references: find_mutable_names(&ledger.refs),
            checkouts,
        },
    )
}

/// Positions of references leave the commits as they are.
proof fn lemma_positions_nodes(
    commits: Seq<CommitView>,
    refs: Seq<PlacedView>,
    graph: EditorView,
    n: int,
)
    ensures
        with_positions(commits, refs, graph, n) matches Ok(v) ==> v.nodes == graph.nodes,
    decreases n,
{
    if n > 0 {
        lemma_positions_nodes(commits, refs, graph, n - 1);
    }
}

/// What an editor is made from.
pub struct WorkspaceGraph {
    /// The segments of the traversal.
    pub segments: SegmentGraph,
    /// The commit graph, if the traversal carries one.
    pub commit_graph: Option<CommitGraph>,
    /// The managed workspace commit that the entrypoint is at, if it is at one.
    pub workspace_commit_id: Option<ObjectId>,
}

impl WorkspaceGraph {
    /// The segments and the commit graph are valid.
    pub open spec fn wf(self) -> bool {
        &&& self.segments.wf()
        &&& self.commit_graph matches Some(cg) ==> cg.wf()
    }

    /// Each commit of the segments is there once, and it is in the commit graph.
    pub open spec fn complete(self) -> bool {
        &&& distinct_commits(self.segments@)
        &&& self.commit_graph matches Some(cg) ==> ids_pass(self.segments@, in_graph(cg.commits()))
    }

    /// A ledger can be read off the segments, and the lanes of the workspace commit in it lead to
    /// commits of the commit graph. It holds wherever the graph is complete.
    pub open spec fn editable(self, extra: Seq<ExtraRef>) -> bool {
        &&& derivable(self.segments, extra, self.workspace_commit_id)
        &&& self.segments.entrypoint is Some && first_unknown(extra, extra.len() as int) is None
            ==> (self.commit_graph matches Some(cg) ==> ws_parents_known(
            cg.commits(),
            self.workspace_commit_id,
            self.ledger(extra),
        ))
    }

    /// The ledger that is read off the segments.
    pub open spec fn ledger(self, extra: Seq<ExtraRef>) -> PlacementsView {
        let entry = (self.segments.entrypoint->0).0;
        derived(
            self.segments@,
            reachable_segments(self.segments@, mutable_entries(entry, extra)),
            entry as int,
            self.workspace_commit_id,
        )
    }
}

/// A graph that is complete is editable, whatever references are named beside the entrypoint.
pub proof fn law_complete_is_editable(graph: WorkspaceGraph, extra: Seq<ExtraRef>)
    requires
        graph.wf(),
        graph.complete(),
        connections_fit(graph.segments@),
        all_nodes(
            graph.segments@,
            reachable_segments(
                graph.segments@,
                mutable_entries((graph.segments.entrypoint->0).0, extra),
            ),
        ).len() <= usize::MAX,
    ensures
        graph.editable(extra),
{
    let segments = graph.segments@;
    law_distinct_commits_are_derivable(graph.segments, extra, graph.workspace_commit_id);
    if graph.segments.entrypoint is Some {
        if let Some(cg) = graph.commit_graph {
            let entry = (graph.segments.entrypoint->0).0;
            lemma_connected(graph.segments);
            law_derived_is_self_contained(
                segments,
                reachable_segments(segments, mutable_entries(entry, extra)),
                entry as int,
                graph.workspace_commit_id,
                in_graph(cg.commits()),
            );
            if let Some(ids) = graph.ledger(extra).ws_parents {
                assert forall|i: int| 0 <= i < ids.len() implies last_index(
                    cg.commits(),
                    #[trigger] ids[i],
                ) is Some by {
                    assert(in_graph(cg.commits())(ids[i]));
                }
            }
        }
    }
}

proof fn lemma_connected(graph: SegmentGraph)
    requires
        graph.wf(),
    ensures
        connected_within(graph@),
{
    let segments = graph@;
    assert forall|s: int, c: int|
        0 <= s < segments.len() && 0 <= c < segments[s].connections.len() implies (
    #[trigger] segments[s].connections[c]).target < segments.len() by {
        assert(segments[s].connections[c] == graph.segments@[s].connections@[c]);
    }
}

impl WorkspaceGraph {
    /// Whether the graph is editable.
    pub fn is_editable(&self, extra: &Vec<ExtraRef>) -> (r: bool)
        requires
            self.wf(),
        ensures
            r == self.editable(extra@),
    {
        if !is_derivable(&self.segments, extra, self.workspace_commit_id) {
            return false;
        }
        let ledger = match crate::derivation::derive(
            &self.segments,
            extra,
            self.workspace_commit_id,
        ) {
            Ok(ledger) => ledger,
            Err(_) => return true,
        };
        if let (Some(cg), Some(ws), Some(ids)) = (
            &self.commit_graph,
            self.workspace_commit_id,
            &ledger.ws_parents,
        ) {
            let ghost commits = cg.commits();
            if cg.node(ws).is_none() {
                return true;
            }
            let mut i: usize = 0;
            while i < ids.len()
                invariant
                    i <= ids@.len(),
                    cg.wf(),
                    commits == cg.commits(),
                    self.commit_graph == Some(*cg),
                    self.workspace_commit_id == Some(ws),
                    last_index(commits, ws) is Some,
                    self.segments.entrypoint is Some,
                    first_unknown(extra@, extra@.len() as int) is None,
                    self.ledger(extra@).ws_parents == Some(ids@),
                    forall|j: int| 0 <= j < i ==> last_index(commits, #[trigger] ids@[j]) is Some,
                decreases ids.len() - i,
            {
                if cg.node(ids[i]).is_none() {
                    assert(some_absent(commits, ids@));
                    return false;
                }
                i += 1;
            }
            assert(!some_absent(commits, ids@));
        }
        true
    }
}

/// Why there is no editor.
#[derive(Debug)]
pub enum EditorError {
    /// No ledger can be read off the segments.
    Derive(DeriveError),
    /// No graph can be built.
    Create(CreationError),
}

/// What is edited: the graph, and what it belongs to.
pub struct Editor<R, H, W, M> {
    /// The graph.
    pub graph: EditorGraph,
    /// The names of the references that may be moved.
    pub initial_references: Vec<RefName>,
    /// What is checked out.
    pub checkouts: Vec<Checkout>,
    /// The repository.
    pub repo: R,
    /// What the steps were before they were edited.
    pub history: H,
    /// The workspace.
    pub workspace: W,
    /// The metadata of references.
    pub meta: M,
}

/// What an editor belongs to.
pub struct Surroundings<R, H, W, M> {
    /// The repository.
    pub repo: R,
    /// What the steps were before they were edited.
    pub history: H,
    /// The workspace.
    pub workspace: W,
    /// The metadata of references.
    pub meta: M,
}

/// What the creation of an editor gives.
pub open spec fn creates_editor<R, H, W, M>(
    r: Result<Editor<R, H, W, M>, EditorError>,
    from: WorkspaceGraph,
    defaults: PickDefaults,
    sign: Seq<char>,
    extra: Seq<ExtraRef>,
    around: Surroundings<R, H, W, M>,
) -> bool {
    if from.segments.entrypoint is None {
        r matches Err(EditorError::Derive(DeriveError::NoEntrypoint))
    } else if first_unknown(extra, extra.len() as int) is Some {
        r matches Err(EditorError::Derive(DeriveError::UnknownRef(name))) && Some(name@)
            == first_unknown(extra, extra.len() as int)
    } else {
        match from.commit_graph {
            None => r matches Err(EditorError::Create(CreationError::NoCommitGraph)),
            Some(cg) => {
                let ledger = from.ledger(extra);
                match created(cg.commits(), defaults, sign, from.workspace_commit_id, ledger) {
                    Err(e) => r matches Err(EditorError::Create(f)) && f@ == e,
                    Ok(graph) => {
                        &&& r matches Ok(editor)
                        &&& editor.graph@ == graph
                        &&& mirrors(graph, cg.commits())
                        &&& names_view(editor.initial_references@) == mutable_names(ledger.refs)
                        &&& head_checkouts(
                            ledger.refs,
                            ledger.head_refs,
                            ledger.head_refs.len() as int,
                        ) == Ok::<Seq<Checkout>, CreationErrorView>(editor.checkouts@)
                        &&& editor.repo == around.repo
                        &&& editor.history == around.history
                        &&& editor.workspace == around.workspace
                        &&& editor.meta == around.meta
                    },
                }
            },
        }
    }
}

impl<R, H, W, M> Editor<R, H, W, M> {
    /// Creates an editor out of the workspace graph with the default options.
    pub fn create(
        from: &WorkspaceGraph,
        defaults: &PickDefaults,
        around: Surroundings<R, H, W, M>,
    ) -> (r: Result<Editor<R, H, W, M>, EditorError>)
        requires
            from.wf(),
            from.editable(Seq::empty()),
        ensures
            creates_editor(r, *from, *defaults, "IfSignCommitsEnabled"@, Seq::empty(), around),
            from.complete() && from.segments.entrypoint is Some && from.commit_graph is Some
                ==> r is Ok,
    {
        let options: GraphEditorOptions = Default::default();
        assert(options.extra_mutable_refs@ =~= Seq::empty());
        Self::create_with_opts(from, defaults, around, &options)
    }

    /// Creates an editor out of the workspace graph with the specified options. It fails if there is
    /// no entrypoint, if an extra reference is in no segment, if there is no commit graph, or if a
    /// commit that a reference sits on or that a leg comes from is not in it.
    pub fn create_with_opts(
        from: &WorkspaceGraph,
        defaults: &PickDefaults,
        around: Surroundings<R, H, W, M>,
        options: &GraphEditorOptions,
    ) -> (r: Result<Editor<R, H, W, M>, EditorError>)
        requires
            from.wf(),
            from.editable(options.extra_mutable_refs@),
        ensures
            creates_editor(
                r,
                *from,
                *defaults,
                options.default_sign_commit@,
                options.extra_mutable_refs@,
                around,
            ),
            from.complete() && from.segments.entrypoint is Some && first_unknown(
                options.extra_mutable_refs@,
                options.extra_mutable_refs@.len() as int,
            ) is None && from.commit_graph is Some ==> r is Ok,
    {
        let ledger = match crate::derivation::derive(
            &from.segments,
            &options.extra_mutable_refs,
            from.workspace_commit_id,
        ) {
            Ok(ledger) => ledger,
            Err(e) => return Err(EditorError::Derive(e)),
        };
        let cg = match &from.commit_graph {
            Some(cg) => Some(cg),
            None => None,
        };
        proof {
            if let Some(cg) = &from.commit_graph {
                let segments = from.segments@;
                let entry = (from.segments.entrypoint->0).0;
                let extra = options.extra_mutable_refs@;
                lemma_connected(from.segments);
                let mutable = reachable_segments(segments, mutable_entries(entry, extra));
                law_derived_is_self_contained(
                    segments,
                    mutable,
                    entry as int,
                    from.workspace_commit_id,
                    |id: ObjectId| true,
                );
                lemma_checkouts_ok(
                    ledger@.refs,
                    ledger@.head_refs,
                    ledger@.head_refs.len() as int,
                );
                if from.complete() {
                    law_derived_is_self_contained(
                        segments,
                        mutable,
                        entry as int,
                        from.workspace_commit_id,
                        in_graph(cg.commits()),
                    );
                    law_self_contained_is_built(
                        cg.commits(),
                        *defaults,
                        options.default_sign_commit@,
                        from.workspace_commit_id,
                        ledger@,
                    );
                }
            }
        }
        match create_native(cg, from.workspace_commit_id, defaults, options, &ledger) {
            Ok(made) => Ok(
                Editor {
                    graph: made.graph,
                    initial_references: made.initial_references,
                    checkouts: made.checkouts,
                    repo: around.repo,
                    history: around.history,
                    workspace: around.workspace,
                    meta: around.meta,
                },
            ),
            Err(e) => Err(EditorError::Create(e)),
        }
    }
}

} // verus!
