//! The references of a graph that was created from a ledger are stacked.

use crate::commit::CommitView;
use crate::commit_graph::lemma_last_index;
use crate::creation::{
    commit_nodes, created, lone_nodes, lone_refs, ref_named, wired_nodes, PickDefaults,
};
use crate::creation_laws::{distinct_names, lemma_name_at, lemma_placed_upto, placed_like};
use crate::derivation::{
    all_nodes, connections_fit, derived, descend, final_lists, is_commit, lists_below, placed_at,
    placed_refs, RunView,
};
use crate::derivation_laws::{connected_within, lemma_final_below};
use crate::editor_graph::{EditorGraphIndex, EditorView, NodeView, WALK_LIMIT};
use crate::names::ObjectId;
use crate::placements::{PlacedView, PlacementsView};
use crate::segment_graph::SegmentView;
use crate::stacking_laws::Height;
use vstd::prelude::*;

verus! {

/// A reference of the list is what the one at `i` rests on: it is on the same commit, and lower.
pub open spec fn carries(refs: Seq<PlacedView>, heights: Seq<nat>, i: int, j: int) -> bool {
    &&& 0 <= j < refs.len()
    &&& refs[i].below == Some(refs[j].name)
    &&& refs[j].anchor == refs[i].anchor
    &&& heights[j] < heights[i]
}

/// Each reference of the list that rests on one rests on one of the list, as high as `heights` has
/// them.
pub open spec fn listed_truly(refs: Seq<PlacedView>, heights: Seq<nat>) -> bool {
    &&& heights.len() == refs.len()
    &&& forall|i: int|
        0 <= i < refs.len() && (#[trigger] refs[i]).anchor is Some && refs[i].below is Some
            ==> exists|j: int| carries(refs, heights, i, j)
}

/// Each reference of the list that rests on one rests on one of the list, on the same commit, and
/// not on itself.
pub open spec fn stacked_list(refs: Seq<PlacedView>) -> bool {
    exists|heights: Seq<nat>| #[trigger] listed_truly(refs, heights)
}

proof fn lemma_wired_picks(
    commits: Seq<CommitView>,
    ws: Option<ObjectId>,
    ws_parents: Option<Seq<ObjectId>>,
    nodes: Seq<NodeView>,
    n: int,
)
    requires
        0 <= n <= commits.len() <= usize::MAX,
        nodes.len() == commits.len(),
        forall|i: int| 0 <= i < nodes.len() ==> (#[trigger] nodes[i]).pick is Some,
    ensures
        wired_nodes(commits, ws, ws_parents, nodes, n).len() == nodes.len(),
        forall|i: int|
            0 <= i < nodes.len() ==> (#[trigger] wired_nodes(
                commits,
                ws,
                ws_parents,
                nodes,
                n,
            )[i]).pick is Some,
    decreases n,
{
    if n > 0 {
        lemma_wired_picks(commits, ws, ws_parents, nodes, n - 1);
        lemma_last_index(commits, commits[n - 1].id);
    }
}

/// Where the references of a ledger are stacked, those of the graph that is created from it are.
pub proof fn law_created_is_stacked(
    commits: Seq<CommitView>,
    defaults: PickDefaults,
    sign: Seq<char>,
    workspace_commit_id: Option<ObjectId>,
    l: PlacementsView,
)
    requires
        commits.len() <= usize::MAX,
        l.refs.len() <= usize::MAX,
        distinct_names(l.refs),
        stacked_list(l.refs),
        created(commits, defaults, sign, workspace_commit_id, l) is Ok,
    ensures
        created(commits, defaults, sign, workspace_commit_id, l)->Ok_0.stacked(),
{
    let heights = choose|heights: Seq<nat>| #[trigger] listed_truly(l.refs, heights);
    let nodes = commit_nodes(commits, defaults, sign, workspace_commit_id, l);
    let start = EditorView { nodes, refs: lone_refs(l.refs), lanes: Map::empty() };
    let v = created(commits, defaults, sign, workspace_commit_id, l)->Ok_0;
    let lone = lone_nodes(
        commits,
        defaults,
        sign,
        workspace_commit_id,
        l.mutable_commits,
        commits.len() as int,
    );
    lemma_wired_picks(commits, workspace_commit_id, l.ws_parents, lone, commits.len() as int);
    lemma_placed_upto(commits, l, start, l.refs.len() as int);
    assert forall|ix: EditorGraphIndex| #[trigger] v.position(ix) is Some implies placed_like(
        commits,
        l,
        v,
        l.refs[ix->Ref_0 as int],
        ix->Ref_0 as int,
    ) && l.refs[ix->Ref_0 as int].anchor is Some by {
        assert(placed_like(commits, l, v, l.refs[ix->Ref_0 as int], ix->Ref_0 as int));
    }
    assert(v.grounded()) by {
        assert forall|ix: EditorGraphIndex| #[trigger] v.position(ix) is Some implies v.position(
            ix,
        )->0.on is Node by {
            assert(placed_like(commits, l, v, l.refs[ix->Ref_0 as int], ix->Ref_0 as int));
        }
        assert forall|i: int| 0 <= i < v.nodes.len() implies (#[trigger] v.nodes[i]).pick is Some by {
            assert(nodes[i].pick is Some);
        }
    }
    let height: Height = |ix: EditorGraphIndex| heights[ix->Ref_0 as int];
    assert forall|ix: EditorGraphIndex|
        #![trigger v.below(ix)]
        v.below(ix) is Some implies v.rests_well(ix, height) by {
        assert(v.position(ix) is Some);
        let i = ix->Ref_0 as int;
        assert(placed_like(commits, l, v, l.refs[i], i));
        let j = choose|j: int| carries(l.refs, heights, i, j);
        lemma_name_at(l.refs, j, l.refs.len() as int);
        assert(ref_named(l.refs, l.refs[j].name) == Some(EditorGraphIndex::Ref(j as usize)));
        assert(placed_like(commits, l, v, l.refs[j], j));
    }
    assert(v.rests_truly(height));
}

/// How many steps it is from the node to the commit that it sits on.
pub open spec fn way_down(
    nodes: Seq<RunView>,
    lists: Seq<Seq<usize>>,
    cursor: usize,
    fuel: nat,
) -> nat
    decreases fuel,
{
    if fuel == 0 || lists[cursor as int].len() == 0 {
        0
    } else if is_commit(nodes[lists[cursor as int][0] as int]) {
        1
    } else {
        1 + way_down(nodes, lists, lists[cursor as int][0], (fuel - 1) as nat)
    }
}

/// A walk that gets to a commit gets there whatever it has seen, and with more steps to spare.
proof fn lemma_descend_more(
    nodes: Seq<RunView>,
    lists: Seq<Seq<usize>>,
    cursor: usize,
    below: Option<usize>,
    seen: Option<usize>,
    m: nat,
    n: nat,
)
    requires
        m <= n,
        descend(nodes, lists, cursor, below, m) is Some,
    ensures
        descend(nodes, lists, cursor, seen, n) is Some,
        (descend(nodes, lists, cursor, seen, n)->0).0 == (descend(
            nodes,
            lists,
            cursor,
            below,
            m,
        )->0).0,
        below is Some ==> (descend(nodes, lists, cursor, below, m)->0).1 == below,
        way_down(nodes, lists, cursor, n) == way_down(nodes, lists, cursor, m),
    decreases m,
{
    let next = lists[cursor as int][0];
    if !is_commit(nodes[next as int]) {
        let is_ref = nodes[next as int] is Ref;
        let under = if below is None && is_ref {
            Some(next)
        } else {
            below
        };
        let seen_under = if seen is None && is_ref {
            Some(next)
        } else {
            seen
        };
        lemma_descend_more(
            nodes,
            lists,
            next,
            under,
            seen_under,
            (m - 1) as nat,
            (n - 1) as nat,
        );
    }
}

/// The first reference on the way down is on the same commit, and nearer to it.
proof fn lemma_first_below(
    nodes: Seq<RunView>,
    lists: Seq<Seq<usize>>,
    cursor: usize,
    fuel: nat,
)
    requires
        lists.len() == nodes.len(),
        lists_below(lists, nodes.len() as int),
        cursor < nodes.len(),
        fuel <= WALK_LIMIT,
        descend(nodes, lists, cursor, None, fuel) matches Some((_, Some(_))),
    ensures
        ({
            let (anchor, below) = descend(nodes, lists, cursor, None, fuel)->0;
            let b = below->0;
            &&& b < nodes.len()
            &&& nodes[b as int] is Ref
            &&& descend(nodes, lists, b, None, WALK_LIMIT as nat) matches Some((on, _)) && on
                == anchor
            &&& way_down(nodes, lists, b, WALK_LIMIT as nat) < way_down(nodes, lists, cursor, fuel)
        }),
    decreases fuel,
{
    let next = lists[cursor as int][0];
    assert(lists[cursor as int][0] < nodes.len());
    if nodes[next as int] is Ref {
        lemma_descend_more(
            nodes,
            lists,
            next,
            Some(next),
            None,
            (fuel - 1) as nat,
            WALK_LIMIT as nat,
        );
    } else {
        lemma_first_below(nodes, lists, next, (fuel - 1) as nat);
    }
}

/// How many steps it is from those of the first `n` nodes that are references to their commits.
pub open spec fn ways_down(nodes: Seq<RunView>, lists: Seq<Seq<usize>>, n: int) -> Seq<nat>
    decreases n,
{
    if n <= 0 {
        Seq::empty()
    } else {
        let before = ways_down(nodes, lists, n - 1);
        if nodes[n - 1] is Ref {
            before.push(way_down(nodes, lists, (n - 1) as usize, WALK_LIMIT as nat))
        } else {
            before
        }
    }
}

/// The place in the list of a node that is a reference.
spec fn listed_at(nodes: Seq<RunView>, lists: Seq<Seq<usize>>, n: int, i: int, k: int) -> bool {
    &&& 0 <= i < n
    &&& nodes[i] is Ref
    &&& 0 <= k < placed_refs(nodes, lists, n).len()
    &&& placed_refs(nodes, lists, n)[k] == placed_at(nodes, lists, i)
    &&& ways_down(nodes, lists, n)[k] == way_down(nodes, lists, i as usize, WALK_LIMIT as nat)
}

/// A node that is a reference is in the list.
proof fn lemma_place_of(nodes: Seq<RunView>, lists: Seq<Seq<usize>>, n: int, i: int) -> (k: int)
    requires
        0 <= i < n <= nodes.len(),
        nodes[i] is Ref,
    ensures
        listed_at(nodes, lists, n, i, k),
    decreases n,
{
    lemma_ways_len(nodes, lists, n - 1);
    if i < n - 1 {
        lemma_place_of(nodes, lists, n - 1, i)
    } else {
        placed_refs(nodes, lists, n - 1).len() as int
    }
}

/// What is in the list is a node that is a reference.
proof fn lemma_node_at(nodes: Seq<RunView>, lists: Seq<Seq<usize>>, n: int, k: int) -> (i: int)
    requires
        0 <= n <= nodes.len(),
        0 <= k < placed_refs(nodes, lists, n).len(),
    ensures
        listed_at(nodes, lists, n, i, k),
    decreases n,
{
    lemma_ways_len(nodes, lists, n - 1);
    if k < placed_refs(nodes, lists, n - 1).len() {
        lemma_node_at(nodes, lists, n - 1, k)
    } else {
        n - 1
    }
}

proof fn lemma_ways_len(nodes: Seq<RunView>, lists: Seq<Seq<usize>>, n: int)
    ensures
        ways_down(nodes, lists, n).len() == placed_refs(nodes, lists, n).len(),
    decreases n,
{
    if n > 0 {
        lemma_ways_len(nodes, lists, n - 1);
    }
}

/// The references that are read off segments are stacked.
pub proof fn law_derived_is_stacked(
    segments: Seq<SegmentView>,
    mutable: Set<usize>,
    entry: int,
    workspace_commit_id: Option<ObjectId>,
)
    requires
        connected_within(segments),
        connections_fit(segments),
        all_nodes(segments, mutable).len() <= usize::MAX,
    ensures
        stacked_list(derived(segments, mutable, entry, workspace_commit_id).refs),
{
    let nodes = all_nodes(segments, mutable);
    let lists = final_lists(segments, mutable, workspace_commit_id);
    let n = nodes.len() as int;
    let refs = placed_refs(nodes, lists, n);
    let heights = ways_down(nodes, lists, n);
    let limit = WALK_LIMIT as nat;
    lemma_final_below(segments, mutable, workspace_commit_id);
    lemma_ways_len(nodes, lists, n);
    assert forall|k: int|
        0 <= k < refs.len() && (#[trigger] refs[k]).anchor is Some
            && refs[k].below is Some implies exists|j: int| carries(refs, heights, k, j) by {
        let i = lemma_node_at(nodes, lists, n, k);
        lemma_first_below(nodes, lists, i as usize, limit);
        let b = (descend(nodes, lists, i as usize, None, limit)->0).1->0 as int;
        let j = lemma_place_of(nodes, lists, n, b);
        assert(carries(refs, heights, k, j));
    }
    assert(listed_truly(refs, heights));
}

} // verus!
