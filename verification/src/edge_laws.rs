//! What becomes of the edges of a step graph when one of them is added, removed or led elsewhere.

use crate::editor_graph::WALK_LIMIT;
use crate::order::lemma_sorted_alike;
use crate::seqs::lemma_filter_contains;
use crate::step_graph::{
    leg_of, lemma_adjacent_removed, lowest, other_than, source_end, target_end, Direction, Edge,
    EdgeRecord, StepEdgeIndex, StepEdgeRef, StepGraphIndex, StepGraphView, StepLeg,
};
use vstd::prelude::*;

verus! {

/// The list of edges of the step in this direction.
pub open spec fn id_list(v: StepGraphView, node: StepGraphIndex, direction: Direction) -> Seq<
    StepEdgeIndex,
> {
    match direction {
        Direction::Outgoing => v.outgoing[node as int],
        Direction::Incoming => v.incoming[node as int],
    }
}

/// The step that an edge touches in this direction.
pub open spec fn end_of(e: EdgeRecord, direction: Direction) -> StepGraphIndex {
    match direction {
        Direction::Outgoing => e.source,
        Direction::Incoming => e.target,
    }
}

/// Whether an edge has another index.
pub open spec fn not_called(id: StepEdgeIndex) -> spec_fn(StepEdgeRef) -> bool {
    |e: StepEdgeRef| e.id != id
}

proof fn lemma_directed(v: StepGraphView, node: StepGraphIndex, direction: Direction)
    requires
        v.wf(),
        node < v.nodes.len(),
    ensures
        v.directed(node, direction).len() == id_list(v, node, direction).len(),
        forall|i: int|
            0 <= i < v.directed(node, direction).len() ==> {
                let e = #[trigger] v.directed(node, direction)[i];
                &&& e == v.edge_at(e.id)
                &&& e.id < v.edges.len()
                &&& v.edges[e.id as int] is Some
                &&& end_of(e.record, direction) == node
            },
{
    let list = id_list(v, node, direction);
    assert forall|i: int| 0 <= i < v.directed(node, direction).len() implies {
        let e = #[trigger] v.directed(node, direction)[i];
        &&& e == v.edge_at(e.id)
        &&& e.id < v.edges.len()
        &&& v.edges[e.id as int] is Some
        &&& end_of(e.record, direction) == node
    } by {
        let id = list[list.len() - 1 - i];
        assert(list.contains(id));
        match direction {
            Direction::Outgoing => {
                assert(v.outgoing[node as int].contains(id));
                assert(source_end()(v.edges[id as int]->0) == node);
            },
            Direction::Incoming => {
                assert(v.incoming[node as int].contains(id));
                assert(target_end()(v.edges[id as int]->0) == node);
            },
        }
    }
}

/// A new edge is the newest one of both of its steps; all other edges stay what they are, where
/// they are.
pub proof fn law_added_edge_is_newest(
    v: StepGraphView,
    source: StepGraphIndex,
    target: StepGraphIndex,
    weight: Edge,
    node: StepGraphIndex,
    direction: Direction,
)
    requires
        v.wf(),
        v.edges.len() < usize::MAX,
        source < v.nodes.len(),
        target < v.nodes.len(),
        node < v.nodes.len(),
    ensures
        ({
            let after = v.add_edge(source, target, weight);
            let record = EdgeRecord { source, target, weight };
            let added = StepEdgeRef { id: v.edges.len() as usize, record };
            &&& forall|id: int| 0 <= id < v.edges.len() ==> #[trigger] after.edges[id] == v.edges[id]
            &&& after.directed(node, direction) == if end_of(record, direction) == node {
                seq![added] + v.directed(node, direction)
            } else {
                v.directed(node, direction)
            }
        }),
{
    let after = v.add_edge(source, target, weight);
    let record = EdgeRecord { source, target, weight };
    let added = StepEdgeRef { id: v.edges.len() as usize, record };
    lemma_directed(v, node, direction);
    if end_of(record, direction) == node {
        assert(after.directed(node, direction) =~= seq![added] + v.directed(node, direction));
    } else {
        assert(after.directed(node, direction) =~= v.directed(node, direction));
    }
}

/// What is filtered by name and turned around is turned around and filtered by name.
proof fn lemma_without(
    v: StepGraphView,
    w: StepGraphView,
    list: Seq<StepEdgeIndex>,
    id: StepEdgeIndex,
)
    requires
        forall|e: StepEdgeIndex| #[trigger]
            list.contains(e) && e != id ==> w.edge_at(e) == v.edge_at(e),
    ensures
        list.filter(other_than(id)).reverse().map_values(|e: StepEdgeIndex| w.edge_at(e))
            == list.reverse().map_values(|e: StepEdgeIndex| v.edge_at(e)).filter(not_called(id)),
    decreases list.len(),
{
    reveal_with_fuel(Seq::filter, 2);
    let left = list.filter(other_than(id)).reverse().map_values(|e: StepEdgeIndex| w.edge_at(e));
    let all = list.reverse().map_values(|e: StepEdgeIndex| v.edge_at(e));
    if list.len() == 0 {
        assert(left =~= all.filter(not_called(id)));
    } else {
        let front = list.drop_last();
        let last = list.last();
        assert forall|e: StepEdgeIndex| #[trigger]
            front.contains(e) && e != id implies w.edge_at(e) == v.edge_at(e) by {
            let i = choose|i: int| 0 <= i < front.len() && front[i] == e;
            assert(list[i] == e);
            assert(list.contains(e));
        }
        lemma_without(v, w, front, id);
        let rest = front.reverse().map_values(|e: StepEdgeIndex| v.edge_at(e));
        let first = seq![v.edge_at(last)];
        assert(all =~= first + rest);
        Seq::filter_distributes_over_add(first, rest, not_called(id));
        let kept = front.filter(other_than(id));
        let before = kept.reverse().map_values(|e: StepEdgeIndex| w.edge_at(e));
        assert(first.drop_last() =~= Seq::empty());
        if last != id {
            assert(list.contains(list[list.len() - 1]));
            assert(list.filter(other_than(id)) == kept.push(last));
            assert(left =~= seq![w.edge_at(last)] + before);
            assert(first.filter(not_called(id)) =~= first);
        } else {
            assert(list.filter(other_than(id)) == kept);
            assert(first.filter(not_called(id)) =~= Seq::empty());
            assert(left =~= Seq::<StepEdgeRef>::empty() + before);
        }
    }
}

/// An edge that is removed is gone from both of its steps; all other edges stay what they are, in
/// the order in which they were, and under their index. What references say of legs stays too.
pub proof fn law_removed_edge_leaves_others(
    v: StepGraphView,
    id: StepEdgeIndex,
    node: StepGraphIndex,
    direction: Direction,
)
    requires
        v.wf(),
        node < v.nodes.len(),
    ensures
        ({
            let after = v.remove_edge(id);
            &&& after.nodes == v.nodes && after.anchors == v.anchors && after.lanes == v.lanes
            &&& after.edges.len() == v.edges.len()
            &&& forall|e: int|
                0 <= e < v.edges.len() && e != id ==> #[trigger] after.edges[e] == v.edges[e]
            &&& after.directed(node, direction) == v.directed(node, direction).filter(
                not_called(id),
            )
        }),
{
    let after = v.remove_edge(id);
    let list = id_list(v, node, direction);
    lemma_directed(v, node, direction);
    assert forall|e: StepEdgeIndex| #[trigger]
        list.contains(e) && e != id implies after.edge_at(e) == v.edge_at(e) by {
        match direction {
            Direction::Outgoing => {
                assert(v.outgoing[node as int].contains(e));
            },
            Direction::Incoming => {
                assert(v.incoming[node as int].contains(e));
            },
        }
    }
    lemma_without(v, after, list, id);
    let now = id_list(after, node, direction);
    if now != list.filter(other_than(id)) {
        assert(now == list);
        assert(!list.contains(id)) by {
            match direction {
                Direction::Outgoing => {
                    assert(v.outgoing[node as int].contains(id) ==> source_end()(
                        v.edges[id as int]->0,
                    ) == node);
                },
                Direction::Incoming => {
                    assert(v.incoming[node as int].contains(id) ==> target_end()(
                        v.edges[id as int]->0,
                    ) == node);
                },
            }
        }
        lemma_nothing_left_out(list, id);
    }
}

proof fn lemma_nothing_left_out(list: Seq<StepEdgeIndex>, id: StepEdgeIndex)
    requires
        !list.contains(id),
    ensures
        list.filter(other_than(id)) == list,
    decreases list.len(),
{
    reveal(Seq::filter);
    if list.len() > 0 {
        let front = list.drop_last();
        assert(!front.contains(id)) by {
            if front.contains(id) {
                let i = choose|i: int| 0 <= i < front.len() && front[i] == id;
                assert(list[i] == id);
            }
        }
        lemma_nothing_left_out(front, id);
        assert(list[list.len() - 1] != id);
        assert(list =~= front.push(list.last()));
    } else {
        assert(list.filter(other_than(id)) =~= list);
    }
}

/// An edge that is led elsewhere is, for both of its steps, what it would be if it were removed and
/// added anew, but that it keeps its index.
pub proof fn law_moved_edge_is_newest(
    v: StepGraphView,
    id: StepEdgeIndex,
    new_target: StepGraphIndex,
    new_weight: Edge,
    node: StepGraphIndex,
    direction: Direction,
)
    requires
        v.wf(),
        id < v.edges.len(),
        v.edges[id as int] is Some,
        new_target < v.nodes.len(),
        node < v.nodes.len(),
    ensures
        ({
            let after = v.move_edge(id, new_target, new_weight);
            let record = EdgeRecord {
                source: v.edges[id as int]->0.source,
                target: new_target,
                weight: new_weight,
            };
            let moved = StepEdgeRef { id, record };
            let removed = v.remove_edge(id);
            &&& after.lanes == v.lanes && after.anchors == v.anchors && after.nodes == v.nodes
            &&& after.edges == v.edges.update(id as int, Some(record))
            &&& after.directed(node, direction) == if end_of(record, direction) == node {
                seq![moved] + removed.directed(node, direction)
            } else {
                removed.directed(node, direction)
            }
        }),
{
    let after = v.move_edge(id, new_target, new_weight);
    let removed = v.remove_edge(id);
    let record = EdgeRecord {
        source: v.edges[id as int]->0.source,
        target: new_target,
        weight: new_weight,
    };
    let moved = StepEdgeRef { id, record };
    law_removed_edge_leaves_others(v, id, node, direction);
    let rest = removed.directed(node, direction);
    let all = v.directed(node, direction);
    assert forall|i: int| 0 <= i < rest.len() implies (#[trigger] rest[i]).id != id && rest[i].id
        < v.edges.len() by {
        assert(rest.contains(rest[i]));
        lemma_filter_contains(all, not_called(id), rest[i]);
        let j = choose|j: int| 0 <= j < all.len() && all[j] == rest[i];
        lemma_directed(v, node, direction);
        assert(all[j].id < v.edges.len());
    }
    let list = id_list(removed, node, direction);
    assert forall|i: int| 0 <= i < list.len() implies after.edge_at(#[trigger] list[i])
        == removed.edge_at(list[i]) by {
        assert(rest[list.len() - 1 - i].id == list[i]);
    }
    if end_of(record, direction) == node {
        assert(id_list(after, node, direction) == list.push(id));
        assert(after.directed(node, direction) =~= seq![moved] + rest);
    } else {
        assert(id_list(after, node, direction) == list);
        assert(after.directed(node, direction) =~= rest);
    }
}

/// The legs of the edges that come from commits.
spec fn legs_of(v: StepGraphView, edges: Seq<StepEdgeRef>) -> Seq<StepLeg> {
    edges.filter(v.from_pick()).map_values(|e: StepEdgeRef| leg_of(e))
}

proof fn lemma_legs_add(v: StepGraphView, a: Seq<StepEdgeRef>, b: Seq<StepEdgeRef>)
    ensures
        legs_of(v, a + b) == legs_of(v, a) + legs_of(v, b),
{
    Seq::filter_distributes_over_add(a, b, v.from_pick());
    assert(legs_of(v, a + b) =~= legs_of(v, a) + legs_of(v, b));
}

proof fn lemma_all_kept(edges: Seq<StepEdgeRef>, id: StepEdgeIndex)
    requires
        forall|i: int| 0 <= i < edges.len() ==> (#[trigger] edges[i]).id != id,
    ensures
        edges.filter(not_called(id)) == edges,
    decreases edges.len(),
{
    reveal(Seq::filter);
    if edges.len() > 0 {
        let front = edges.drop_last();
        assert forall|i: int| 0 <= i < front.len() implies (#[trigger] front[i]).id != id by {
            assert(edges[i].id != id);
        }
        lemma_all_kept(front, id);
        assert(edges[edges.len() - 1].id != id);
        assert(edges =~= front.push(edges.last()));
    } else {
        assert(edges.filter(not_called(id)) =~= edges);
    }
}

/// An edge that is exchanged for one with the same leg leaves the same legs.
proof fn lemma_legs_exchanged(
    v: StepGraphView,
    edges: Seq<StepEdgeRef>,
    at: int,
    added: StepEdgeRef,
)
    requires
        0 <= at < edges.len(),
        forall|i: int|
            0 <= i < edges.len() && i != at ==> (#[trigger] edges[i]).id != edges[at].id,
        added.record == edges[at].record,
    ensures
        legs_of(v, seq![added] + edges.filter(not_called(edges[at].id))).to_multiset()
            == legs_of(v, edges).to_multiset(),
{
    reveal_with_fuel(Seq::filter, 2);
    let id = edges[at].id;
    let (front, back) = (edges.take(at), edges.skip(at + 1));
    let (old_one, new_one) = (seq![edges[at]], seq![added]);
    assert(edges =~= front + old_one + back);
    assert forall|i: int| 0 <= i < front.len() implies (#[trigger] front[i]).id != id by {
        assert(edges[i].id != id);
    }
    assert forall|i: int| 0 <= i < back.len() implies (#[trigger] back[i]).id != id by {
        assert(edges[at + 1 + i].id != id);
    }
    lemma_all_kept(front, id);
    lemma_all_kept(back, id);
    Seq::filter_distributes_over_add(front + old_one, back, not_called(id));
    Seq::filter_distributes_over_add(front, old_one, not_called(id));
    assert(old_one.drop_last() =~= Seq::empty());
    assert(new_one.drop_last() =~= Seq::empty());
    assert(old_one.filter(not_called(id)) =~= Seq::empty());
    assert(edges.filter(not_called(id)) =~= front + back);
    lemma_legs_add(v, front + old_one, back);
    lemma_legs_add(v, front, old_one);
    lemma_legs_add(v, new_one, front + back);
    lemma_legs_add(v, front, back);
    assert(legs_of(v, old_one) =~= legs_of(v, new_one));
    let (f, o, b) = (legs_of(v, front), legs_of(v, old_one), legs_of(v, back));
    vstd::seq_lib::lemma_multiset_commutative(f + o, b);
    vstd::seq_lib::lemma_multiset_commutative(f, o);
    vstd::seq_lib::lemma_multiset_commutative(o, f + b);
    vstd::seq_lib::lemma_multiset_commutative(f, b);
    assert((f + o + b).to_multiset() =~= (o + (f + b)).to_multiset());
}

/// The graph after the edge was removed and added anew.
pub open spec fn revived(v: StepGraphView, id: StepEdgeIndex) -> StepGraphView {
    let e = v.edges[id as int]->0;
    v.remove_edge(id).add_edge(e.source, e.target, e.weight)
}

proof fn lemma_removed_wf(v: StepGraphView, id: StepEdgeIndex)
    requires
        v.wf(),
    ensures
        v.remove_edge(id).wf(),
{
    if id < v.edges.len() && v.edges[id as int] is Some {
        lemma_adjacent_removed(v.outgoing, v.edges, source_end(), id);
        lemma_adjacent_removed(v.incoming, v.edges, target_end(), id);
    }
}

proof fn lemma_revived_elsewhere(
    v: StepGraphView,
    id: StepEdgeIndex,
    node: StepGraphIndex,
    direction: Direction,
)
    requires
        v.wf(),
        id < v.edges.len() < usize::MAX,
        v.edges[id as int] is Some,
        node < v.nodes.len(),
    ensures
        ({
            let e = v.edges[id as int]->0;
            let added = StepEdgeRef { id: v.edges.len() as usize, record: e };
            &&& end_of(e, direction) != node ==> revived(v, id).directed(node, direction)
                == v.directed(node, direction)
            &&& end_of(e, direction) == node ==> revived(v, id).directed(node, direction)
                == seq![added] + v.directed(node, direction).filter(not_called(id))
        }),
{
    let e = v.edges[id as int]->0;
    let all = v.directed(node, direction);
    law_removed_edge_leaves_others(v, id, node, direction);
    lemma_removed_wf(v, id);
    law_added_edge_is_newest(v.remove_edge(id), e.source, e.target, e.weight, node, direction);
    assert(EdgeRecord { source: e.source, target: e.target, weight: e.weight } == e);
    if end_of(e, direction) != node {
        lemma_directed(v, node, direction);
        assert forall|i: int| 0 <= i < all.len() implies (#[trigger] all[i]).id != id by {
            assert(end_of(all[i].record, direction) == node);
        }
        lemma_all_kept(all, id);
    }
}

proof fn lemma_revived_resolves(v: StepGraphView, id: StepEdgeIndex, node: StepGraphIndex, fuel: nat)
    requires
        v.wf(),
        id < v.edges.len() < usize::MAX,
        v.edges[id as int] is Some,
        v.is_pick(v.edges[id as int]->0.source),
    ensures
        revived(v, id).resolve_in(node, fuel) == v.resolve_in(node, fuel),
    decreases fuel,
{
    let w = revived(v, id);
    if fuel > 0 && node < v.nodes.len() && !v.is_pick(node) {
        match v.anchor(node) {
            Some(stored) => {
                lemma_revived_resolves(v, id, stored.anchor, (fuel - 1) as nat);
            },
            None => {
                lemma_revived_elsewhere(v, id, node, Direction::Outgoing);
                let edges = v.directed(node, Direction::Outgoing);
                if let Some(e) = lowest(edges, edges.len() as int) {
                    lemma_revived_resolves(v, id, e.record.target, (fuel - 1) as nat);
                }
            },
        }
    }
}

/// A leg that is dropped and comes back is what it was to all references: what they say of legs has
/// stayed, and so has which commit each step stands for and which legs lead there.
pub proof fn law_revived_leg_is_back(v: StepGraphView, id: StepEdgeIndex, node: StepGraphIndex)
    requires
        v.wf(),
        id < v.edges.len() < usize::MAX,
        v.edges[id as int] is Some,
        v.is_pick(v.edges[id as int]->0.source),
    ensures
        revived(v, id).lanes == v.lanes,
        revived(v, id).anchors == v.anchors,
        revived(v, id).resolve(node) == v.resolve(node),
        revived(v, id).legs_onto(node) == v.legs_onto(node),
{
    let w = revived(v, id);
    lemma_revived_resolves(v, id, node, WALK_LIMIT as nat);
    if let Some(pick) = v.resolve(node) {
        lemma_resolved_known(v, node, WALK_LIMIT as nat);
        let e = v.edges[id as int]->0;
        let edges = v.directed(pick, Direction::Incoming);
        let added = StepEdgeRef { id: v.edges.len() as usize, record: e };
        lemma_revived_elsewhere(v, id, pick, Direction::Incoming);
        assert(w.from_pick() =~= v.from_pick());
        if e.target == pick {
            let list = v.incoming[pick as int];
            assert(target_end()(e) == pick);
            assert(list.contains(id));
            let k = choose|k: int| 0 <= k < list.len() && list[k] == id;
            let at = list.len() - 1 - k;
            assert(edges[at].id == id);
            assert forall|i: int| 0 <= i < edges.len() && i != at implies (#[trigger] edges[i]).id
                != edges[at].id by {
                assert(list[list.len() - 1 - i] != list[k]);
            }
            lemma_legs_exchanged(v, edges, at, added);
            lemma_sorted_alike::<StepLeg>(
                legs_of(v, seq![added] + edges.filter(not_called(id))),
                legs_of(v, edges),
            );
        }
    }
}

proof fn lemma_resolved_known(v: StepGraphView, node: StepGraphIndex, fuel: nat)
    ensures
        v.resolve_in(node, fuel) matches Some(pick) ==> pick < v.nodes.len(),
    decreases fuel,
{
    if fuel > 0 && node < v.nodes.len() && !v.is_pick(node) {
        match v.anchor(node) {
            Some(stored) => {
                lemma_resolved_known(v, stored.anchor, (fuel - 1) as nat);
            },
            None => {
                let edges = v.directed(node, Direction::Outgoing);
                if let Some(e) = lowest(edges, edges.len() as int) {
                    lemma_resolved_known(v, e.record.target, (fuel - 1) as nat);
                }
            },
        }
    }
}

} // verus!
