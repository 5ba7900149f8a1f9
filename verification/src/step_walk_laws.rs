//! What is found in a step graph: its edges, its legs, and what its steps stand for.

use crate::editor_graph::WALK_LIMIT;
use crate::edge_laws::{end_of, id_list};
use crate::lanes::{deduped, is_leg, lane_of, renamed_legs, RenameLeg};
use crate::leg_laws::lemma_edited_lane;
use crate::order::{increasing, lemma_sorted, lemma_sorted_contains, ordered, sorted, Key};
use crate::seqs::{first_where, lemma_filter_contains, lemma_first_among, lemma_push_contains};
use crate::step_graph::{
    approach_kind, leg_of, lowest, without_edges, AnchorView, Direction, KindView, StepEdgeIndex,
    StepEdgeRef, StepGraphIndex, StepGraphView, StepLeg,
};
use vstd::prelude::*;

verus! {

/// The edges of a step in a direction are those that are there and touch it in that direction.
pub proof fn law_directed_edges(
    v: StepGraphView,
    node: StepGraphIndex,
    direction: Direction,
    e: StepEdgeRef,
)
    requires
        v.wf(),
        node < v.nodes.len(),
    ensures
        v.directed(node, direction).contains(e) <==> {
            &&& e.id < v.edges.len()
            &&& v.edges[e.id as int] == Some(e.record)
            &&& end_of(e.record, direction) == node
        },
        forall|i: int, j: int|
            0 <= i < j < v.directed(node, direction).len() ==> (#[trigger] v.directed(
                node,
                direction,
            )[i]).id != (#[trigger] v.directed(node, direction)[j]).id,
{
    let list = id_list(v, node, direction);
    let all = v.directed(node, direction);
    assert(list.contains(e.id) <==> e.id < v.edges.len() && v.edges[e.id as int] is Some && end_of(
        v.edges[e.id as int]->0,
        direction,
    ) == node);
    assert(list.no_duplicates());
    assert forall|i: int| 0 <= i < all.len() implies (#[trigger] all[i]) == v.edge_at(
        list[list.len() - 1 - i],
    ) by {}
    if all.contains(e) {
        let i = choose|i: int| 0 <= i < all.len() && all[i] == e;
        let k = list.len() - 1 - i;
        assert(list.contains(list[k]));
        assert(all[i] == v.edge_at(list[k]));
    }
    if e.id < v.edges.len() && v.edges[e.id as int] == Some(e.record) && end_of(
        e.record,
        direction,
    ) == node {
        let k = choose|k: int| 0 <= k < list.len() && list[k] == e.id;
        assert(all[list.len() - 1 - k] == e);
    }
    assert forall|i: int, j: int| 0 <= i < j < all.len() implies (#[trigger] all[i]).id != (
    #[trigger] all[j]).id by {
        assert(list[list.len() - 1 - i] != list[list.len() - 1 - j]);
    }
}

/// The edges of a graph are those that are there, by their indices.
pub proof fn law_live_edges(v: StepGraphView, n: int, e: StepEdgeRef)
    requires
        0 <= n <= v.edges.len() <= usize::MAX,
    ensures
        v.live_edges(n).contains(e) <==> e.id < n && v.edges[e.id as int] == Some(e.record),
        forall|i: int, j: int|
            0 <= i < j < v.live_edges(n).len() ==> (#[trigger] v.live_edges(n)[i]).id < (
            #[trigger] v.live_edges(n)[j]).id,
    decreases n,
{
    if n > 0 {
        law_live_edges(v, n - 1, e);
        let (before, all) = (v.live_edges(n - 1), v.live_edges(n));
        lemma_push_contains(before, v.edge_at((n - 1) as usize), e);
        assert forall|i: int, j: int| 0 <= i < j < all.len() implies (#[trigger] all[i]).id < (
        #[trigger] all[j]).id by {
            if j < before.len() {
                assert(all[i] == before[i] && all[j] == before[j]);
            } else {
                assert(before.contains(before[i]));
                law_live_edges(v, n - 1, before[i]);
            }
        }
    }
}

/// The lists of the edges of each step in this direction.
pub open spec fn lists_in(v: StepGraphView, direction: Direction) -> Seq<Seq<StepEdgeIndex>> {
    match direction {
        Direction::Outgoing => v.outgoing,
        Direction::Incoming => v.incoming,
    }
}

/// Whether an edge that is there touches the step in this direction.
pub open spec fn touches(
    v: StepGraphView,
    id: int,
    direction: Direction,
    step: StepGraphIndex,
) -> bool {
    v.edges[id] matches Some(e) && end_of(e, direction) == step
}

/// The steps without edges in a direction are those that no edge touches in it, by their indices.
pub proof fn law_externals(
    v: StepGraphView,
    direction: Direction,
    n: int,
    step: StepGraphIndex,
)
    requires
        v.wf(),
        0 <= n <= v.nodes.len() <= usize::MAX,
        v.edges.len() <= usize::MAX,
    ensures
        without_edges(lists_in(v, direction), n).contains(step) <==> step < n && forall|id: int|
            0 <= id < v.edges.len() ==> !#[trigger] touches(v, id, direction, step),
        forall|i: int, j: int|
            0 <= i < j < without_edges(lists_in(v, direction), n).len() ==> (
            #[trigger] without_edges(lists_in(v, direction), n)[i]) < (#[trigger] without_edges(
                lists_in(v, direction),
                n,
            )[j]),
        forall|i: int|
            0 <= i < without_edges(lists_in(v, direction), n).len() ==> (#[trigger] without_edges(
                lists_in(v, direction),
                n,
            )[i]) < n,
    decreases n,
{
    let lists = lists_in(v, direction);
    if n > 0 {
        law_externals(v, direction, n - 1, step);
        let (before, all) = (without_edges(lists, n - 1), without_edges(lists, n));
        lemma_push_contains(before, (n - 1) as usize, step);
        if step == n - 1 {
            let list = lists[n - 1];
            assert(list == id_list(v, step, direction));
            if list.len() > 0 {
                assert(list.contains(list[0]));
                let id = list[0];
                assert(touches(v, id as int, direction, step));
            } else {
                assert forall|id: int| 0 <= id < v.edges.len() implies !#[trigger] touches(
                    v,
                    id,
                    direction,
                    step,
                ) by {
                    assert(!list.contains(id as usize));
                }
            }
        }
        assert forall|i: int| 0 <= i < all.len() implies (#[trigger] all[i]) < n by {
            if i < before.len() {
                assert(all[i] == before[i]);
            }
        }
        assert forall|i: int, j: int| 0 <= i < j < all.len() implies (#[trigger] all[i]) < (
        #[trigger] all[j]) by {
            if j < before.len() {
                assert(all[i] == before[i] && all[j] == before[j]);
            } else {
                assert(all[i] == before[i]);
            }
        }
    }
}

/// The legs into a step are the edges that lead there from commits, by the commit and the order of the
/// edge, in order.
pub proof fn law_legs_into_step(v: StepGraphView, node: StepGraphIndex, leg: StepLeg)
    requires
        v.wf(),
        node < v.nodes.len(),
        v.edges.len() <= usize::MAX,
    ensures
        v.legs_into(node).contains(leg) <==> v.is_pick(leg.0) && exists|id: int|
            0 <= id < v.edges.len() && ((#[trigger] v.edges[id]) matches Some(e) && e.source
                == leg.0 && e.weight.order == leg.1 && e.target == node),
        ordered::<StepLeg>(v.legs_into(node)),
{
    let all = v.directed(node, Direction::Incoming);
    let kept = all.filter(v.from_pick());
    let legs = kept.map_values(|e: StepEdgeRef| leg_of(e));
    lemma_sorted::<StepLeg>(legs);
    lemma_sorted_contains::<StepLeg>(legs, leg);
    if legs.contains(leg) {
        let i = choose|i: int| 0 <= i < legs.len() && legs[i] == leg;
        assert(kept.contains(kept[i]));
        lemma_filter_contains(all, v.from_pick(), kept[i]);
        law_directed_edges(v, node, Direction::Incoming, kept[i]);
        assert(v.edges[kept[i].id as int] is Some);
    }
    if v.is_pick(leg.0) && exists|id: int|
        0 <= id < v.edges.len() && ((#[trigger] v.edges[id]) matches Some(e) && e.source == leg.0
            && e.weight.order == leg.1 && e.target == node) {
        let id = choose|id: int|
            0 <= id < v.edges.len() && ((#[trigger] v.edges[id]) matches Some(e) && e.source
                == leg.0 && e.weight.order == leg.1 && e.target == node);
        let e = StepEdgeRef { id: id as usize, record: v.edges[id]->0 };
        law_directed_edges(v, node, Direction::Incoming, e);
        lemma_filter_contains(all, v.from_pick(), e);
        let i = choose|i: int| 0 <= i < kept.len() && kept[i] == e;
        assert(legs[i] == leg);
    }
}

/// The lowest edge is one of them, and none has a lower order; there is none only if there are none.
pub proof fn law_lowest_edge(edges: Seq<StepEdgeRef>, n: int)
    requires
        0 <= n <= edges.len(),
    ensures
        match lowest(edges, n) {
            Some(best) => exists|i: int|
                0 <= i < n && #[trigger] edges[i] == best && (forall|j: int|
                    0 <= j < n ==> best.record.weight.order <= (
                    #[trigger] edges[j]).record.weight.order) && forall|j: int|
                    0 <= j < i ==> best.record.weight.order < (
                    #[trigger] edges[j]).record.weight.order,
            None => n == 0,
        },
    decreases n,
{
    if n > 0 {
        law_lowest_edge(edges, n - 1);
        if let Some(best) = lowest(edges, n - 1) {
            let i = choose|i: int|
                0 <= i < n - 1 && #[trigger] edges[i] == best && (forall|j: int|
                    0 <= j < n - 1 ==> best.record.weight.order <= (
                    #[trigger] edges[j]).record.weight.order) && forall|j: int|
                    0 <= j < i ==> best.record.weight.order < (
                    #[trigger] edges[j]).record.weight.order;
            assert(edges[i] == best);
        }
        assert(edges[n - 1] == edges[n - 1]);
    }
}

/// A commit stands for itself, and what is no commit only ever for one. What is anchored stands for what
/// its anchor stands for; anything else for what the target of its lowest edge does.
pub proof fn law_stands_for(v: StepGraphView, node: StepGraphIndex, fuel: nat)
    ensures
        v.resolve_in(node, fuel) matches Some(pick) ==> v.is_pick(pick),
        fuel > 0 && v.is_pick(node) ==> v.resolve_in(node, fuel) == Some(node),
        fuel > 0 && node < v.nodes.len() && !v.is_pick(node) ==> v.resolve_in(node, fuel) == match (
            v.anchor(node),
            lowest(
                v.directed(node, Direction::Outgoing),
                v.directed(node, Direction::Outgoing).len() as int,
            ),
        ) {
            (Some(stored), _) => v.resolve_in(stored.anchor, (fuel - 1) as nat),
            (None, Some(e)) => v.resolve_in(e.record.target, (fuel - 1) as nat),
            (None, None) => None,
        },
        v.resolve_in(node, fuel) is Some ==> v.resolve_in(node, fuel + 1) == v.resolve_in(
            node,
            fuel,
        ),
        v.resolve(node) == v.resolve_in(node, WALK_LIMIT as nat),
    decreases fuel,
{
    if fuel > 0 && node < v.nodes.len() && !v.is_pick(node) {
        let edges = v.directed(node, Direction::Outgoing);
        match (v.anchor(node), lowest(edges, edges.len() as int)) {
            (Some(stored), _) => {
                law_stands_for(v, stored.anchor, (fuel - 1) as nat);
            },
            (None, Some(e)) => {
                law_stands_for(v, e.record.target, (fuel - 1) as nat);
            },
            (None, None) => {},
        }
    }
}

/// An approach is none if it has no legs, all if it has exactly those that there are, and a lane of its
/// own legs otherwise.
pub proof fn law_approach_kind(approach: Seq<StepLeg>, legs: Seq<StepLeg>)
    ensures
        approach_kind(approach, legs) == KindView::Root <==> approach.len() == 0,
        approach_kind(approach, legs) == KindView::AllLegs <==> approach.len() > 0 && (forall|
            l: StepLeg,
        | #[trigger] approach.contains(l) ==> legs.contains(l)) && (forall|l: StepLeg| #[trigger]
            legs.contains(l) ==> approach.contains(l)),
        approach_kind(approach, legs) matches KindView::Lane(own) ==> own == approach,
{
    if (forall|l: StepLeg| #[trigger] approach.contains(l) ==> legs.contains(l)) && (forall|
        l: StepLeg,
    | #[trigger] legs.contains(l) ==> approach.contains(l)) {
        assert(crate::step_graph::same_step_legs(approach, legs));
    }
}

/// The references that sit somewhere are listed once each, by their indices, with where they sit.
pub proof fn law_anchored_steps(
    v: StepGraphView,
    n: int,
    node: StepGraphIndex,
    stored: AnchorView,
)
    requires
        0 <= n <= v.anchors.len() <= usize::MAX,
    ensures
        v.anchored(n).contains((node, stored)) <==> node < n && v.anchors[node as int] == Some(
            stored,
        ),
        forall|i: int| 0 <= i < v.anchored(n).len() ==> (#[trigger] v.anchored(n)[i]).0 < n,
        forall|i: int, j: int|
            0 <= i < j < v.anchored(n).len() ==> (#[trigger] v.anchored(n)[i]).0 < (
            #[trigger] v.anchored(n)[j]).0,
    decreases n,
{
    if n > 0 {
        law_anchored_steps(v, n - 1, node, stored);
        let (before, all) = (v.anchored(n - 1), v.anchored(n));
        if let Some(own) = v.anchors[n - 1] {
            lemma_push_contains(before, ((n - 1) as usize, own), (node, stored));
        }
        assert forall|i: int| 0 <= i < all.len() implies (#[trigger] all[i]).0 < n by {
            if i < before.len() {
                assert(all[i] == before[i]);
            }
        }
        assert forall|i: int, j: int| 0 <= i < j < all.len() implies (#[trigger] all[i]).0 < (
        #[trigger] all[j]).0 by {
            if j < before.len() {
                assert(all[i] == before[i] && all[j] == before[j]);
            } else {
                assert(all[i] == before[i]);
            }
        }
    }
}

/// A reference that gets another rank has that rank, and all else of where it sits is as it was, as is
/// where all others sit.
pub proof fn law_ranked(v: StepGraphView, node: StepGraphIndex, rank: usize, n: StepGraphIndex)
    requires
        node < v.anchors.len(),
    ensures
        v.set_rank(node, rank).anchor(n) == match v.anchor(n) {
            Some(stored) => Some(
                if n == node {
                    AnchorView { rank, ..stored }
                } else {
                    stored
                },
            ),
            None => None,
        },
{
}

/// Legs of which one has got a new name are the others, and that one by its new name; in order, and each
/// once.
pub proof fn law_renamed_legs(
    legs: Seq<StepLeg>,
    old_leg: StepLeg,
    new_leg: StepLeg,
    leg: StepLeg,
)
    requires
        increasing::<StepLeg>(legs),
    ensures
        renamed_legs(legs, old_leg, new_leg).contains(leg) <==> if legs.contains(old_leg) {
            leg == new_leg || (legs.contains(leg) && leg != old_leg)
        } else {
            legs.contains(leg)
        },
        increasing::<StepLeg>(renamed_legs(legs, old_leg, new_leg)),
{
    lemma_first_among(legs, is_leg(old_leg), legs.len() as int);
    match first_where(legs, is_leg(old_leg)) {
        Some(at) => {
            assert(legs[at] == old_leg);
            assert(legs.contains(legs[at]));
            let now = legs.update(at, new_leg);
            let list = sorted::<StepLeg>(now);
            lemma_sorted::<StepLeg>(now);
            lemma_sorted_contains::<StepLeg>(now, leg);
            lemma_deduped(list, leg);
            if now.contains(leg) {
                let i = choose|i: int| 0 <= i < now.len() && now[i] == leg;
                if i != at {
                    assert(legs[i] == leg);
                    if leg == old_leg {
                        lemma_twice(legs, i, at);
                    }
                }
            }
            if legs.contains(leg) && leg != old_leg {
                let i = choose|i: int| 0 <= i < legs.len() && legs[i] == leg;
                assert(now[i] == leg);
            }
            assert(now[at] == new_leg);
        },
        None => {
            if legs.contains(old_leg) {
                let i = choose|i: int| 0 <= i < legs.len() && legs[i] == old_leg;
                assert(is_leg(old_leg)(legs[i]));
            }
        },
    }
}

proof fn lemma_twice(legs: Seq<StepLeg>, i: int, j: int)
    requires
        increasing::<StepLeg>(legs),
        0 <= i < legs.len(),
        0 <= j < legs.len(),
        legs[i] == legs[j],
    ensures
        i == j,
{
    <StepLeg as Key>::lt_irreflexive(legs[i]);
    if i < j {
        crate::stack_move_laws::lemma_increases::<StepLeg>(legs, i, j);
    } else if j < i {
        crate::stack_move_laws::lemma_increases::<StepLeg>(legs, j, i);
    }
}

#[verifier::rlimit(40)]
proof fn lemma_deduped(s: Seq<StepLeg>, x: StepLeg)
    requires
        ordered::<StepLeg>(s),
    ensures
        deduped(s).contains(x) <==> s.contains(x),
        increasing::<StepLeg>(deduped(s)),
        s.len() > 0 ==> deduped(s).len() > 0 && deduped(s).last() == s.last(),
    decreases s.len(),
{
    if s.len() > 1 {
        let d = s.drop_last();
        assert(ordered::<StepLeg>(d)) by {
            assert forall|i: int, j: int| 0 <= i < j < d.len() implies !<StepLeg as Key>::lt(
                #[trigger] d[j],
                #[trigger] d[i],
            ) by {
                lemma_ordered_at(s, i, j);
            }
        }
        lemma_deduped(d, x);
        assert(s =~= d.push(s.last()));
        lemma_push_contains(d, s.last(), x);
        let n = s.len() - 1;
        assert(d.last() == s[n - 1]);
        if s.last() == s[n - 1] {
            assert(d.contains(d[n - 1]));
        } else {
            let before = deduped(d);
            lemma_push_contains(before, s.last(), x);
            let all = deduped(s);
            assert(all == before.push(s.last()));
            lemma_ordered_at(s, n - 1, n);
            if !<StepLeg as Key>::lt(s[n - 1], s[n]) {
                <StepLeg as Key>::lt_connected(s[n - 1], s[n]);
            }
            assert(<StepLeg as Key>::lt(s[n - 1], s[n]));
            assert forall|i: int, j: int| 0 <= i < j < all.len() implies <StepLeg as Key>::lt(
                #[trigger] all[i],
                #[trigger] all[j],
            ) by {
                if j < before.len() {
                    crate::stack_move_laws::lemma_increases::<StepLeg>(before, i, j);
                } else if i < before.len() - 1 {
                    crate::stack_move_laws::lemma_increases::<StepLeg>(
                        before,
                        i,
                        before.len() - 1,
                    );
                    <StepLeg as Key>::lt_transitive(before[i], s[n - 1], s[n]);
                }
            }
        }
    } else if s.len() == 1 {
        assert(deduped(s) == s);
    }
}

proof fn lemma_ordered_at(s: Seq<StepLeg>, i: int, j: int)
    requires
        ordered::<StepLeg>(s),
        0 <= i < j < s.len(),
    ensures
        !<StepLeg as Key>::lt(s[j], s[i]),
{
    lemma_ordered_generic::<StepLeg>(s, i, j);
}

pub proof fn lemma_ordered_generic<K: Key>(s: Seq<K::Model>, i: int, j: int)
    requires
        ordered::<K>(s),
        0 <= i < j < s.len(),
    ensures
        !K::lt(s[j], s[i]),
{
}

/// Where a leg has got a new name, each lane and each kind that named it has its legs renamed, and what
/// did not name it is as it was.
pub proof fn law_renamed_in_lanes(
    v: StepGraphView,
    old_leg: StepLeg,
    new_leg: StepLeg,
    key: StepGraphIndex,
    node: StepGraphIndex,
)
    ensures
        ({
            let after = v.rename_leg(old_leg, new_leg);
            &&& match (lane_of(v.lanes, key, node), lane_of(after.lanes, key, node)) {
                (Some(a), Some(b)) => b.members == a.members && b.legs == renamed_legs(
                    a.legs,
                    old_leg,
                    new_leg,
                ),
                (None, None) => true,
                _ => false,
            }
            &&& after.anchor(node) == match v.anchor(node) {
                Some(stored) => Some(
                    AnchorView {
                        kind: match stored.kind {
                            KindView::Lane(legs) => KindView::Lane(
                                renamed_legs(legs, old_leg, new_leg),
                            ),
                            other => other,
                        },
                        ..stored
                    },
                ),
                None => None,
            }
        }),
{
    let edit = RenameLeg { old_leg, new_leg };
    lemma_edited_lane(v.lanes, edit, key, node);
    if let Some(lane) = lane_of(v.lanes, key, node) {
        lemma_first_among(lane.legs, is_leg(old_leg), lane.legs.len() as int);
        if !lane.legs.contains(old_leg) {
            if let Some(at) = first_where(lane.legs, is_leg(old_leg)) {
                assert(lane.legs.contains(lane.legs[at]));
            }
        }
    }
}

} // verus!
