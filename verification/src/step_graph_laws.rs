//! What all changes of a step graph have in common.

use crate::lane_laws::{
    carry_alike, lane_counted, lanes_counted, lemma_entered_counted, lemma_entered_keeps,
    lemma_entered_lane, lemma_joined_counted, lemma_left_counted, lemma_left_keeps, lemma_own_lane,
    place_gone,
};
use crate::lanes::{
    carries, entered_lanes, lane_of, lane_position, lanes_agree, lanes_at, lemma_edited_lanes_agree,
    lemma_entered_lanes_agree, lemma_joined_lanes_agree, lemma_lane_found, lemma_left_lanes_agree,
    lemma_memberships_push, memberships, LaneCarry, LaneView, RenameLeg,
};
use crate::order::ascending;
use crate::step_graph::{
    carried_anchors, carried_lanes, kind_carry, kind_legs, mapped_kind, mapped_lane, mapped_lanes,
    mapped_steps, renamed_anchor, AnchorView, StepGraphIndex, StepGraphView, StepLeg,
};
use vstd::prelude::*;

verus! {

impl StepGraphView {
    /// What the reference is anchored at.
    pub open spec fn anchored_at(self, node: StepGraphIndex) -> Option<StepGraphIndex> {
        match self.anchor(node) {
            Some(stored) => Some(stored.anchor),
            None => None,
        }
    }

    /// What each reference is anchored at.
    pub open spec fn anchored_places(self) -> spec_fn(StepGraphIndex) -> Option<StepGraphIndex> {
        |n: StepGraphIndex| self.anchored_at(n)
    }

    /// The lanes say of each reference that is anchored what it is anchored at: it is in one lane,
    /// once, above that step, and no other reference is in a lane.
    pub open spec fn in_step(self) -> bool {
        lanes_agree(self.lanes, self.anchored_places())
    }

    /// The lane that the reference is in.
    pub open spec fn own_lane(self, node: StepGraphIndex) -> Option<LaneView<StepGraphIndex>> {
        match self.anchor(node) {
            Some(stored) => lane_of(self.lanes, stored.anchor, node),
            None => None,
        }
    }
}

proof fn lemma_agree_alike(
    lanes: Map<StepGraphIndex, Seq<LaneView<StepGraphIndex>>>,
    f: spec_fn(StepGraphIndex) -> Option<StepGraphIndex>,
    g: spec_fn(StepGraphIndex) -> Option<StepGraphIndex>,
)
    requires
        lanes_agree(lanes, f),
        forall|n: StepGraphIndex| #[trigger] f(n) == g(n),
    ensures
        lanes_agree(lanes, g),
{
    assert(f =~= g);
}

/// The places once the reference has none.
pub open spec fn places_without(v: StepGraphView, node: StepGraphIndex) -> spec_fn(
    StepGraphIndex,
) -> Option<StepGraphIndex> {
    |n: StepGraphIndex|
        if n == node {
            None
        } else {
            v.anchored_at(n)
        }
}

proof fn lemma_left(v: StepGraphView, node: StepGraphIndex)
    requires
        v.in_step(),
    ensures
        lanes_agree(v.lanes_left(node), places_without(v, node)),
{
    let g = places_without(v, node);
    match v.anchor(node) {
        Some(previous) => {
            lemma_left_lanes_agree(v.lanes, v.anchored_places(), node, previous.anchor);
            let f = |n: StepGraphIndex|
                if n == node {
                    None
                } else {
                    v.anchored_places()(n)
                };
            lemma_agree_alike(v.lanes_left(node), f, g);
        },
        None => {
            assert forall|n: StepGraphIndex| #[trigger] v.anchored_places()(n) == g(n) by {}
            lemma_agree_alike(v.lanes, v.anchored_places(), g);
        },
    }
}

proof fn lemma_entered(
    v: StepGraphView,
    after: StepGraphView,
    node: StepGraphIndex,
    key: StepGraphIndex,
    carry: LaneCarry,
    legs: Seq<StepLeg>,
)
    requires
        v.in_step(),
        after.lanes == entered_lanes(v.lanes_left(node), node, key, carry, legs),
        forall|n: StepGraphIndex| #[trigger]
            after.anchored_at(n) == if n == node {
                Some(key)
            } else {
                v.anchored_at(n)
            },
    ensures
        after.in_step(),
{
    lemma_left(v, node);
    let gone = places_without(v, node);
    lemma_entered_lanes_agree(v.lanes_left(node), gone, node, key, carry, legs);
    let f = |n: StepGraphIndex|
        if n == node {
            Some(key)
        } else {
            gone(n)
        };
    assert forall|n: StepGraphIndex| #[trigger] f(n) == after.anchored_places()(n) by {
        assert(after.anchored_at(n) == if n == node {
            Some(key)
        } else {
            v.anchored_at(n)
        });
    }
    lemma_agree_alike(after.lanes, f, after.anchored_places());
}

/// The lane of another reference carries what it carried.
proof fn lemma_others_carry(
    v: StepGraphView,
    after: StepGraphView,
    node: StepGraphIndex,
    other: StepGraphIndex,
)
    requires
        v.in_step(),
        after.in_step(),
        other != node,
        after.anchor(other) == v.anchor(other),
        v.anchor(other) is Some,
        after.lanes == v.lanes_left(node) || exists|
            key: StepGraphIndex,
            carry: LaneCarry,
            legs: Seq<StepLeg>,
        | after.lanes == #[trigger] entered_lanes(v.lanes_left(node), node, key, carry, legs),
    ensures
        carry_alike(v.own_lane(other), after.own_lane(other)),
{
    let at = v.anchor(other)->0.anchor;
    let gone = places_without(v, node);
    lemma_left(v, node);
    assert(v.anchored_places()(other) == Some(at));
    assert(after.anchored_places()(other) == Some(at));
    assert(gone(other) == Some(at));
    lemma_own_lane(v.lanes, v.anchored_places(), other, at);
    if let Some(previous) = v.anchor(node) {
        let g = place_gone(v.anchored_places(), node);
        assert forall|n: StepGraphIndex| #[trigger] gone(n) == g(n) by {}
        lemma_agree_alike(v.lanes_left(node), gone, g);
        lemma_left_keeps(v.lanes, v.anchored_places(), node, previous.anchor, other, at);
    }
    if after.lanes != v.lanes_left(node) {
        let (key, carry, legs) = choose|
            key: StepGraphIndex,
            carry: LaneCarry,
            legs: Seq<StepLeg>,
        | after.lanes == #[trigger] entered_lanes(v.lanes_left(node), node, key, carry, legs);
        lemma_entered_keeps(
            v.lanes_left(node),
            gone,
            after.anchored_places(),
            node,
            key,
            carry,
            legs,
            other,
            at,
        );
    }
}

/// The lanes name as many legs as they say once the reference has left.
proof fn lemma_left_count(v: StepGraphView, node: StepGraphIndex)
    requires
        lanes_counted(v.lanes),
    ensures
        lanes_counted(v.lanes_left(node)),
{
    if let Some(previous) = v.anchor(node) {
        lemma_left_counted(v.lanes, node, previous.anchor);
    }
}

/// Putting a reference somewhere, or nowhere, leaves the steps and edges alone, and keeps the lanes
/// in step. The reference is then in a lane that carries what its kind says, and the lanes of the
/// other references carry what they carried.
pub proof fn law_set_anchor(v: StepGraphView, node: StepGraphIndex, anchor: Option<AnchorView>)
    requires
        v.in_step(),
        node < v.anchors.len(),
    ensures
        ({
            let after = v.set_anchor(node, anchor);
            &&& after.in_step()
            &&& after.nodes == v.nodes
            &&& after.edges == v.edges
            &&& after.anchor(node) == anchor
            &&& forall|n: StepGraphIndex| n != node ==> #[trigger] after.anchor(n) == v.anchor(n)
            &&& forall|n: StepGraphIndex|
                n != node ==> carry_alike(v.own_lane(n), #[trigger] after.own_lane(n))
            &&& anchor matches Some(stored) ==> (after.own_lane(node) matches Some(lane)
                && carries(lane, kind_carry(stored.kind), kind_legs(stored.kind)))
            &&& lanes_counted(v.lanes) ==> lanes_counted(after.lanes) && (anchor matches Some(stored)
                ==> (after.own_lane(node) matches Some(lane) && lane.carry == kind_carry(
                stored.kind,
            ) && lane.legs == kind_legs(stored.kind)))
        }),
{
    let after = v.set_anchor(node, anchor);
    lemma_set_anchor_in_step(v, node, anchor);
    assert forall|n: StepGraphIndex| n != node implies carry_alike(
        v.own_lane(n),
        #[trigger] after.own_lane(n),
    ) by {
        assert(after.anchor(n) == v.anchor(n));
        if v.anchor(n) is Some {
            lemma_others_carry(v, after, node, n);
        }
    }
    if lanes_counted(v.lanes) {
        lemma_left_count(v, node);
    }
    if let Some(stored) = anchor {
        let (carry, legs) = (kind_carry(stored.kind), kind_legs(stored.kind));
        let left = v.lanes_left(node);
        assert(after.anchored_places()(node) == Some(stored.anchor));
        lemma_entered_lane(left, after.anchored_places(), node, stored.anchor, carry, legs);
        if lanes_counted(v.lanes) {
            assert(lane_counted(LaneView { members: seq![node], carry, legs }));
            lemma_entered_counted(left, node, stored.anchor, carry, legs);
            lemma_own_lane(after.lanes, after.anchored_places(), node, stored.anchor);
            let i = lane_position(lanes_at(after.lanes, stored.anchor), node)->0;
            assert(lane_counted(lanes_at(after.lanes, stored.anchor)[i]));
        }
    }
}

proof fn lemma_set_anchor_in_step(
    v: StepGraphView,
    node: StepGraphIndex,
    anchor: Option<AnchorView>,
)
    requires
        v.in_step(),
        node < v.anchors.len(),
    ensures
        ({
            let after = v.set_anchor(node, anchor);
            &&& after.in_step()
            &&& after.anchor(node) == anchor
            &&& forall|n: StepGraphIndex| n != node ==> #[trigger] after.anchor(n) == v.anchor(n)
        }),
{
    let after = v.set_anchor(node, anchor);
    assert forall|n: StepGraphIndex| #[trigger] after.anchor(n) == if n == node {
        anchor
    } else {
        v.anchor(n)
    } by {}
    match anchor {
        Some(stored) => {
            assert forall|n: StepGraphIndex| #[trigger] after.anchored_at(n) == if n == node {
                Some(stored.anchor)
            } else {
                v.anchored_at(n)
            } by {
                assert(after.anchor(n) == if n == node {
                    anchor
                } else {
                    v.anchor(n)
                });
            }
            lemma_entered(
                v,
                after,
                node,
                stored.anchor,
                kind_carry(stored.kind),
                kind_legs(stored.kind),
            );
        },
        None => {
            lemma_left(v, node);
            assert forall|n: StepGraphIndex| #[trigger]
                places_without(v, node)(n) == after.anchored_places()(n) by {
                assert(after.anchor(n) == if n == node {
                    anchor
                } else {
                    v.anchor(n)
                });
            }
            lemma_agree_alike(after.lanes, places_without(v, node), after.anchored_places());
        },
    }
}

/// A reference that joins the lane of another one is then in the same lane as that one, and the
/// lanes stay in step.
pub proof fn law_join_lane_of(
    v: StepGraphView,
    node: StepGraphIndex,
    mate: StepGraphIndex,
    rank: usize,
)
    requires
        v.in_step(),
        node < v.anchors.len(),
        node != mate,
    ensures
        ({
            let after = v.join_lane_of(node, mate, rank);
            &&& after.in_step()
            &&& after.nodes == v.nodes
            &&& after.edges == v.edges
            &&& v.anchor(mate) matches Some(m) ==> after.anchor(node) == Some(
                AnchorView { rank, ..m },
            ) && lane_of(after.lanes, m.anchor, node) == lane_of(after.lanes, m.anchor, mate)
            &&& lanes_counted(v.lanes) ==> lanes_counted(after.lanes)
        }),
{
    let after = v.join_lane_of(node, mate, rank);
    if let Some(m) = v.anchor(mate) {
        let left = v.lanes_left(node);
        let gone = places_without(v, node);
        lemma_left(v, node);
        assert(gone(mate) == Some(m.anchor));
        lemma_own_lane(left, gone, mate, m.anchor);
        let list = lanes_at(left, m.anchor);
        let i = lane_position(list, mate)->0;
        lemma_joined_lanes_agree(left, gone, node, mate, m.anchor);
        if lanes_counted(v.lanes) {
            lemma_left_count(v, node);
            lemma_joined_counted(left, node, mate, m.anchor);
        }
        let f = |n: StepGraphIndex|
            if n == node {
                Some(m.anchor)
            } else {
                gone(n)
            };
        assert forall|n: StepGraphIndex| #[trigger] f(n) == after.anchored_places()(n) by {
            assert(after.anchor(n) == if n == node {
                Some(AnchorView { rank, ..m })
            } else {
                v.anchor(n)
            });
        }
        lemma_agree_alike(after.lanes, f, after.anchored_places());
        let now = lanes_at(after.lanes, m.anchor);
        let members = list[i].members;
        assert(now[i].members == members.push(node));
        assert(members.push(node)[members.len() as int] == node);
        let at = choose|at: int| 0 <= at < members.len() && members[at] == mate;
        assert(members.push(node)[at] == mate);
        assert(after.anchored_places()(node) == Some(m.anchor));
        assert(after.anchored_places()(mate) == Some(m.anchor));
        lemma_lane_found(after.lanes, after.anchored_places(), node, m.anchor, i);
        lemma_lane_found(after.lanes, after.anchored_places(), mate, m.anchor, i);
    }
}

/// A reference that is anchored elsewhere keeps its rank, its kind, whether it is ambiguous and what
/// its lane carries, and the lanes stay in step.
pub proof fn law_rekey_anchor(v: StepGraphView, node: StepGraphIndex, new_anchor: StepGraphIndex)
    requires
        v.in_step(),
        node < v.anchors.len(),
    ensures
        ({
            let after = v.rekey_anchor(node, new_anchor);
            &&& after.in_step()
            &&& after.nodes == v.nodes
            &&& after.edges == v.edges
            &&& after.anchor(node) == match v.anchor(node) {
                Some(stored) => Some(AnchorView { anchor: new_anchor, ..stored }),
                None => None,
            }
            &&& lanes_counted(v.lanes) ==> lanes_counted(after.lanes) && carry_alike(
                v.own_lane(node),
                after.own_lane(node),
            )
        }),
{
    let after = v.rekey_anchor(node, new_anchor);
    if let Some(stored) = v.anchor(node) {
        if stored.anchor != new_anchor {
            let (carry, legs) = match lane_of(v.lanes, stored.anchor, node) {
                Some(lane) => (lane.carry, lane.legs),
                None => (kind_carry(stored.kind), kind_legs(stored.kind)),
            };
            assert forall|n: StepGraphIndex| #[trigger] after.anchored_at(n) == if n == node {
                Some(new_anchor)
            } else {
                v.anchored_at(n)
            } by {
                assert(after.anchor(n) == if n == node {
                    Some(AnchorView { anchor: new_anchor, ..stored })
                } else {
                    v.anchor(n)
                });
            }
            lemma_entered(v, after, node, new_anchor, carry, legs);
            if lanes_counted(v.lanes) {
                assert(v.anchored_places()(node) == Some(stored.anchor));
                lemma_own_lane(v.lanes, v.anchored_places(), node, stored.anchor);
                let i = lane_position(lanes_at(v.lanes, stored.anchor), node)->0;
                assert(lane_counted(lanes_at(v.lanes, stored.anchor)[i]));
                lemma_left_count(v, node);
                let left = v.lanes_left(node);
                assert(lane_counted(LaneView { members: seq![node], carry, legs }));
                lemma_entered_counted(left, node, new_anchor, carry, legs);
                assert(after.anchored_places()(node) == Some(new_anchor));
                lemma_entered_lane(left, after.anchored_places(), node, new_anchor, carry, legs);
                lemma_own_lane(after.lanes, after.anchored_places(), node, new_anchor);
                let j = lane_position(lanes_at(after.lanes, new_anchor), node)->0;
                assert(lane_counted(lanes_at(after.lanes, new_anchor)[j]));
                assert(after.own_lane(node)->0.legs =~= legs);
            }
        }
    }
}

/// Another rank changes no lane.
pub proof fn law_set_rank(v: StepGraphView, node: StepGraphIndex, rank: usize)
    requires
        v.in_step(),
        node < v.anchors.len(),
    ensures
        v.set_rank(node, rank).in_step(),
        v.set_rank(node, rank).lanes == v.lanes,
        v.set_rank(node, rank).nodes == v.nodes,
        v.set_rank(node, rank).edges == v.edges,
{
    let after = v.set_rank(node, rank);
    assert forall|n: StepGraphIndex| #[trigger]
        v.anchored_places()(n) == after.anchored_places()(n) by {
        assert(after.anchored_at(n) == v.anchored_at(n));
    }
    lemma_agree_alike(v.lanes, v.anchored_places(), after.anchored_places());
}

/// Another name of a leg leaves every reference where it is anchored, and the lanes in step.
pub proof fn law_rename_leg(v: StepGraphView, old_leg: StepLeg, new_leg: StepLeg)
    requires
        v.in_step(),
    ensures
        v.rename_leg(old_leg, new_leg).in_step(),
        forall|n: StepGraphIndex| #[trigger]
            v.rename_leg(old_leg, new_leg).anchored_at(n) == v.anchored_at(n),
        lanes_counted(v.lanes) ==> lanes_counted(v.rename_leg(old_leg, new_leg).lanes),
{
    let after = v.rename_leg(old_leg, new_leg);
    let edit = RenameLeg { old_leg, new_leg };
    lemma_edited_lanes_agree(v.lanes, v.anchored_places(), edit);
    if lanes_counted(v.lanes) {
        assert forall|key: StepGraphIndex, i: int|
            0 <= i < lanes_at(after.lanes, key).len() implies lane_counted(
            #[trigger] lanes_at(after.lanes, key)[i],
        ) by {
            assert(lane_counted(lanes_at(v.lanes, key)[i]));
        }
    }
    assert forall|n: StepGraphIndex| #[trigger] after.anchored_at(n) == v.anchored_at(n) by {
        if n < v.anchors.len() {
            assert(after.anchors[n as int] == renamed_anchor(v.anchors[n as int], old_leg, new_leg));
        }
    }
    assert forall|n: StepGraphIndex| #[trigger]
        v.anchored_places()(n) == after.anchored_places()(n) by {
        assert(after.anchored_at(n) == v.anchored_at(n));
    }
    lemma_agree_alike(after.lanes, v.anchored_places(), after.anchored_places());
}

/// No two steps get the same new index.
pub open spec fn injective(mapping: Map<StepGraphIndex, StepGraphIndex>) -> bool {
    forall|a: StepGraphIndex, b: StepGraphIndex|
        mapping.dom().contains(a) && mapping.dom().contains(b) && #[trigger] mapping[a]
            == #[trigger] mapping[b] ==> a == b
}

/// The new index belongs to no step.
pub open spec fn unused(
    mapping: Map<StepGraphIndex, StepGraphIndex>,
    x: StepGraphIndex,
) -> bool {
    forall|n: StepGraphIndex| #[trigger] mapping.dom().contains(n) ==> mapping[n] != x
}

/// Where the step is anchored, by the new indices.
pub open spec fn mapped_anchor(
    source: StepGraphView,
    mapping: Map<StepGraphIndex, StepGraphIndex>,
    n: StepGraphIndex,
) -> Option<AnchorView> {
    match source.anchor(n) {
        Some(stored) => if mapping.dom().contains(stored.anchor) {
            Some(
                AnchorView {
                    anchor: mapping[stored.anchor],
                    rank: stored.rank,
                    kind: mapped_kind(stored.kind, mapping),
                    ambiguous: stored.ambiguous,
                },
            )
        } else {
            None
        },
        None => None,
    }
}

proof fn lemma_carried_prefix(
    anchors: Seq<Option<AnchorView>>,
    a: Seq<(StepGraphIndex, AnchorView)>,
    b: Seq<(StepGraphIndex, AnchorView)>,
    mapping: Map<StepGraphIndex, StepGraphIndex>,
    n: int,
)
    requires
        0 <= n <= a.len(),
        n <= b.len(),
        forall|i: int| 0 <= i < n ==> a[i] == b[i],
    ensures
        carried_anchors(anchors, a, mapping, n) == carried_anchors(anchors, b, mapping, n),
    decreases n,
{
    if n > 0 {
        lemma_carried_prefix(anchors, a, b, mapping, n - 1);
    }
}

/// The anchors that were carried over from the first `k` steps.
proof fn lemma_carried_anchors(
    anchors: Seq<Option<AnchorView>>,
    source: StepGraphView,
    mapping: Map<StepGraphIndex, StepGraphIndex>,
    k: int,
)
    requires
        0 <= k <= source.anchors.len() <= usize::MAX,
        injective(mapping),
        forall|n: StepGraphIndex| #[trigger]
            mapping.dom().contains(n) ==> mapping[n] < anchors.len(),
        forall|i: int| 0 <= i < anchors.len() ==> #[trigger] anchors[i] is None,
    ensures
        ({
            let list = source.anchored(k);
            let after = carried_anchors(anchors, list, mapping, list.len() as int);
            &&& after.len() == anchors.len()
            &&& forall|n: StepGraphIndex| #[trigger]
                mapping.dom().contains(n) ==> after[mapping[n] as int] == if n < k {
                    mapped_anchor(source, mapping, n)
                } else {
                    None
                }
            &&& forall|x: StepGraphIndex|
                x < anchors.len() && #[trigger] unused(mapping, x) ==> after[x as int] is None
        }),
    decreases k,
{
    if k > 0 {
        lemma_carried_anchors(anchors, source, mapping, k - 1);
        let before = source.anchored(k - 1);
        let list = source.anchored(k);
        let held = carried_anchors(anchors, before, mapping, before.len() as int);
        let after = carried_anchors(anchors, list, mapping, list.len() as int);
        let own = (k - 1) as StepGraphIndex;
        assert(source.anchor(own) == source.anchors[k - 1]);
        if let Some(stored) = source.anchors[k - 1] {
            assert(list == before.push((own, stored)));
            lemma_carried_prefix(anchors, list, before, mapping, before.len() as int);
        } else {
            assert(list == before);
        }
        assert forall|n: StepGraphIndex| #[trigger] mapping.dom().contains(n) implies after[mapping[n] as int]
            == if n < k {
            mapped_anchor(source, mapping, n)
        } else {
            None
        } by {
            assert(held[mapping[n] as int] == if n < k - 1 {
                mapped_anchor(source, mapping, n)
            } else {
                None
            });
            if mapping.dom().contains(own) && n != own {
                assert(mapping[n] != mapping[own]);
            }
        }
        assert forall|x: StepGraphIndex|
            x < anchors.len() && #[trigger] unused(mapping, x) implies after[x as int] is None by {
            assert(held[x as int] is None);
        }
    } else {
        assert(source.anchored(k).len() == 0);
    }
}

/// The lanes that were carried over from the first `n` keys.
proof fn lemma_carried_lanes(
    source: Map<StepGraphIndex, Seq<LaneView<StepGraphIndex>>>,
    mapping: Map<StepGraphIndex, StepGraphIndex>,
    keys: Seq<StepGraphIndex>,
    n: int,
)
    requires
        0 <= n <= keys.len(),
        keys.no_duplicates(),
        injective(mapping),
    ensures
        ({
            let after = carried_lanes(Map::empty(), source, mapping, keys, n);
            &&& forall|key: StepGraphIndex| #[trigger]
                mapping.dom().contains(key) ==> lanes_at(after, mapping[key])
                    == if keys.take(n).contains(key) {
                    mapped_lanes(source[key], mapping)
                } else {
                    Seq::empty()
                }
            &&& forall|x: StepGraphIndex| #[trigger] unused(mapping, x) ==> !after.dom().contains(x)
            &&& forall|x: StepGraphIndex| #[trigger] after.dom().contains(x) ==> after[x].len() > 0
        }),
    decreases n,
{
    let after = carried_lanes(Map::empty(), source, mapping, keys, n);
    if n > 0 {
        lemma_carried_lanes(source, mapping, keys, n - 1);
        let before = carried_lanes(Map::empty(), source, mapping, keys, n - 1);
        let own = keys[n - 1];
        let list = mapped_lanes(source[own], mapping);
        assert(keys.take(n) =~= keys.take(n - 1).push(own));
        assert(!keys.take(n - 1).contains(own)) by {
            let earlier = keys.take(n - 1);
            if earlier.contains(own) {
                let i = choose|i: int| 0 <= i < earlier.len() && earlier[i] == own;
                assert(keys[i] == keys[n - 1]);
            }
        }
        assert forall|key: StepGraphIndex| #[trigger] mapping.dom().contains(key) implies lanes_at(
            after,
            mapping[key],
        ) == if keys.take(n).contains(key) {
            mapped_lanes(source[key], mapping)
        } else {
            Seq::empty()
        } by {
            crate::seqs::lemma_push_contains(keys.take(n - 1), own, key);
            assert(lanes_at(before, mapping[key]) == if keys.take(n - 1).contains(key) {
                mapped_lanes(source[key], mapping)
            } else {
                Seq::empty()
            });
            if key == own {
                assert(lanes_at(after, mapping[key]) =~= list);
            } else if mapping.dom().contains(own) {
                assert(mapping[key] != mapping[own]);
            }
        }
        assert forall|x: StepGraphIndex| #[trigger] unused(mapping, x) implies !after.dom().contains(
            x,
        ) by {
            assert(!before.dom().contains(x));
        }
        assert forall|x: StepGraphIndex| #[trigger] after.dom().contains(x) implies after[x].len()
            > 0 by {
            assert(before.dom().contains(x) ==> before[x].len() > 0);
        }
    } else {
        assert(keys.take(0).len() == 0);
    }
}

proof fn lemma_mapped_count(
    members: Seq<StepGraphIndex>,
    mapping: Map<StepGraphIndex, StepGraphIndex>,
    x: StepGraphIndex,
    y: StepGraphIndex,
)
    requires
        injective(mapping),
        mapping.dom().contains(x) && mapping[x] == y,
    ensures
        mapped_steps(members, mapping).to_multiset().count(y) == members.to_multiset().count(x),
    decreases members.len(),
{
    broadcast use vstd::seq_lib::group_to_multiset_ensures;

    reveal(Seq::filter);
    let all = mapped_steps(members, mapping);
    if members.len() > 0 {
        let d = members.drop_last();
        let last = members.last();
        lemma_mapped_count(d, mapping, x, y);
        assert(members =~= d.push(last));
        let before = mapped_steps(d, mapping);
        if mapping.dom().contains(last) {
            assert(all =~= before.push(mapping[last]));
            if last != x {
                assert(mapping[last] != mapping[x]);
            }
        } else {
            assert(all =~= before);
        }
    } else {
        assert(members =~= Seq::empty());
        assert(all =~= Seq::empty());
    }
}

proof fn lemma_mapped_none(
    members: Seq<StepGraphIndex>,
    mapping: Map<StepGraphIndex, StepGraphIndex>,
    y: StepGraphIndex,
)
    requires
        unused(mapping, y),
    ensures
        mapped_steps(members, mapping).to_multiset().count(y) == 0,
    decreases members.len(),
{
    broadcast use vstd::seq_lib::group_to_multiset_ensures;

    reveal(Seq::filter);
    let all = mapped_steps(members, mapping);
    if members.len() > 0 {
        let d = members.drop_last();
        let last = members.last();
        lemma_mapped_none(d, mapping, y);
        assert(members =~= d.push(last));
        let before = mapped_steps(d, mapping);
        if mapping.dom().contains(last) {
            assert(all =~= before.push(mapping[last]));
        } else {
            assert(all =~= before);
        }
    } else {
        assert(all =~= Seq::empty());
    }
}

/// The memberships in lanes by the new indices.
proof fn lemma_mapped_memberships(
    list: Seq<LaneView<StepGraphIndex>>,
    mapping: Map<StepGraphIndex, StepGraphIndex>,
    y: StepGraphIndex,
)
    requires
        injective(mapping),
    ensures
        ({
            let now = mapped_lanes(list, mapping);
            &&& forall|x: StepGraphIndex|
                #![trigger mapping.dom().contains(x)]
                mapping.dom().contains(x) && mapping[x] == y ==> memberships(
                    now,
                    y,
                    now.len() as int,
                ) == memberships(list, x, list.len() as int)
            &&& unused(mapping, y) ==> memberships(now, y, now.len() as int) == 0
            &&& forall|i: int| 0 <= i < now.len() ==> (#[trigger] now[i]).members.len() > 0
        }),
    decreases list.len(),
{
    broadcast use vstd::seq_lib::group_to_multiset_ensures;

    reveal(Seq::filter);
    let turn = |l: LaneView<StepGraphIndex>| mapped_lane(l, mapping);
    let now = mapped_lanes(list, mapping);
    if list.len() > 0 {
        let d = list.drop_last();
        let last = list.last();
        lemma_mapped_memberships(d, mapping, y);
        let before = mapped_lanes(d, mapping);
        assert(list =~= d.push(last));
        assert(list.map_values(turn).drop_last() =~= d.map_values(turn));
        let own = mapped_lane(last, mapping);
        assert(list.map_values(turn).last() == own);
        if own.members.len() > 0 {
            assert(now == before.push(own));
            lemma_memberships_push(before, own, y);
        } else {
            assert(now == before);
            assert(own.members =~= Seq::empty());
        }
        assert forall|x: StepGraphIndex|
            #![trigger mapping.dom().contains(x)]
            mapping.dom().contains(x) && mapping[x] == y implies memberships(
            now,
            y,
            now.len() as int,
        ) == memberships(list, x, list.len() as int) by {
            lemma_mapped_count(last.members, mapping, x, y);
            lemma_memberships_push(d, last, x);
        }
        if unused(mapping, y) {
            lemma_mapped_none(last.members, mapping, y);
        }
    } else {
        assert(now.len() == 0);
    }
}

/// A rebuild carries all positions over: each step that survives it is anchored, by the new indices,
/// where it was anchored, if that survives it too; nothing else is anchored; and the lanes are in
/// step if they were.
pub proof fn law_carry_positions(
    fresh: StepGraphView,
    source: StepGraphView,
    mapping: Map<StepGraphIndex, StepGraphIndex>,
)
    requires
        source.in_step(),
        source.anchors.len() <= usize::MAX,
        source.lanes.dom().finite(),
        injective(mapping),
        forall|n: StepGraphIndex| #[trigger]
            mapping.dom().contains(n) ==> mapping[n] < fresh.anchors.len(),
        forall|i: int| 0 <= i < fresh.anchors.len() ==> #[trigger] fresh.anchors[i] is None,
        fresh.lanes == Map::<StepGraphIndex, Seq<LaneView<StepGraphIndex>>>::empty(),
    ensures
        ({
            let after = fresh.carry_positions(source, mapping);
            &&& after.in_step()
            &&& after.nodes == fresh.nodes
            &&& after.edges == fresh.edges
            &&& forall|n: StepGraphIndex| #[trigger]
                mapping.dom().contains(n) ==> after.anchor(mapping[n]) == mapped_anchor(
                    source,
                    mapping,
                    n,
                )
            &&& forall|x: StepGraphIndex| #[trigger] unused(mapping, x) ==> after.anchor(x) is None
        }),
{
    let after = fresh.carry_positions(source, mapping);
    let keys = ascending::<StepGraphIndex>(source.lanes.dom());
    lemma_carried_anchors(fresh.anchors, source, mapping, source.anchors.len() as int);
    crate::order::lemma_ascending_of_set::<StepGraphIndex>(source.lanes.dom());
    assert forall|i: int, j: int|
        0 <= i < keys.len() && 0 <= j < keys.len() && i != j implies keys[i] != keys[j] by {
        if i < j {
            assert(<usize as crate::order::Key>::lt(keys[i], keys[j]));
        } else {
            assert(<usize as crate::order::Key>::lt(keys[j], keys[i]));
        }
    }
    lemma_carried_lanes(source.lanes, mapping, keys, keys.len() as int);
    assert(keys.take(keys.len() as int) =~= keys);
    assert forall|n: StepGraphIndex| #[trigger] mapping.dom().contains(n) implies after.anchor(
        mapping[n],
    ) == mapped_anchor(source, mapping, n) by {}
    assert forall|x: StepGraphIndex| #[trigger] unused(mapping, x) implies after.anchor(
        x,
    ) is None by {}
    let places = after.anchored_places();
    assert forall|k: StepGraphIndex, y: StepGraphIndex| #[trigger]
        memberships(lanes_at(after.lanes, k), y, lanes_at(after.lanes, k).len() as int)
            == if places(y) == Some(k) {
            1nat
        } else {
            0nat
        } by {
        if unused(mapping, k) {
            assert(!after.lanes.dom().contains(k));
            if !unused(mapping, y) {
                let n = choose|n: StepGraphIndex| #[trigger]
                    mapping.dom().contains(n) && mapping[n] == y;
                assert(after.anchor(mapping[n]) == mapped_anchor(source, mapping, n));
                if let Some(stored) = source.anchor(n) {
                    if mapping.dom().contains(stored.anchor) {
                        assert(mapping[stored.anchor] != k);
                    }
                }
            }
        } else {
            let key = choose|n: StepGraphIndex| #[trigger]
                mapping.dom().contains(n) && mapping[n] == k;
            let old_list = lanes_at(source.lanes, key);
            assert(keys.contains(key) <==> source.lanes.dom().contains(key));
            assert(mapped_lanes(Seq::empty(), mapping) =~= Seq::empty()) by {
                reveal(Seq::filter);
            }
            assert(lanes_at(after.lanes, k) == mapped_lanes(old_list, mapping));
            lemma_mapped_memberships(old_list, mapping, y);
            if !unused(mapping, y) {
                let n = choose|n: StepGraphIndex| #[trigger]
                    mapping.dom().contains(n) && mapping[n] == y;
                assert(after.anchor(mapping[n]) == mapped_anchor(source, mapping, n));
                assert(memberships(old_list, n, old_list.len() as int)
                    == if source.anchored_places()(n) == Some(key) {
                    1nat
                } else {
                    0nat
                });
                if let Some(stored) = source.anchor(n) {
                    if mapping.dom().contains(stored.anchor) && stored.anchor != key {
                        assert(mapping[stored.anchor] != mapping[key]);
                    }
                }
            }
        }
    }
    assert forall|k: StepGraphIndex| #[trigger] after.lanes.dom().contains(
        k,
    ) implies after.lanes[k].len() > 0 && forall|i: int|
        0 <= i < after.lanes[k].len() ==> (#[trigger] after.lanes[k][i]).members.len() > 0 by {
        if !unused(mapping, k) {
            let key = choose|n: StepGraphIndex| #[trigger]
                mapping.dom().contains(n) && mapping[n] == k;
            assert(lanes_at(after.lanes, mapping[key]) == if keys.contains(key) {
                mapped_lanes(source.lanes[key], mapping)
            } else {
                Seq::empty()
            });
            lemma_mapped_memberships(source.lanes[key], mapping, k);
        }
    }
}

} // verus!
