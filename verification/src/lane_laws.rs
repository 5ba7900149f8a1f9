//! What leaving and entering a lane does to the lanes of the others.

use crate::lanes::{
    carries, entered_lanes, grown, joined_lanes, lane_of, lane_position, lanes_agree, lanes_at,
    lanes_with, lanes_without, left_lanes, lemma_lane_found, memberships, without_member, LaneCarry,
    LaneView,
};
use crate::seqs::{first_where, lemma_filter_contains, lemma_first_among};
use vstd::prelude::*;

verus! {

/// The lane says how many legs it names, and one that carries all legs or none names none.
pub open spec fn lane_counted<I>(lane: LaneView<I>) -> bool {
    match lane.carry {
        LaneCarry::Count(n) => n == lane.legs.len() as usize,
        _ => lane.legs.len() == 0,
    }
}

/// Each lane says how many legs it names.
pub open spec fn lanes_counted<I>(lanes: Map<I, Seq<LaneView<I>>>) -> bool {
    forall|key: I, i: int|
        0 <= i < lanes_at(lanes, key).len() ==> lane_counted(#[trigger] lanes_at(lanes, key)[i])
}

/// Both lanes carry the same.
pub open spec fn carry_alike<I>(a: Option<LaneView<I>>, b: Option<LaneView<I>>) -> bool {
    match (a, b) {
        (Some(x), Some(y)) => x.carry == y.carry && x.legs == y.legs,
        (None, None) => true,
        _ => false,
    }
}

proof fn lemma_no_memberships<I>(list: Seq<LaneView<I>>, node: I, n: int)
    requires
        n <= list.len(),
        forall|i: int| 0 <= i < n ==> !(#[trigger] list[i]).members.contains(node),
    ensures
        memberships(list, node, n) == 0,
    decreases n,
{
    if n > 0 {
        lemma_no_memberships(list, node, n - 1);
        assert(!list[n - 1].members.contains(node));
        list[n - 1].members.to_multiset_ensures();
        assert(list[n - 1].members.to_multiset().count(node) == 0);
    }
}

/// Where lanes agree with the places, what has a place has a lane.
pub proof fn lemma_own_lane<I>(
    lanes: Map<I, Seq<LaneView<I>>>,
    place_of: spec_fn(I) -> Option<I>,
    node: I,
    key: I,
)
    requires
        lanes_agree(lanes, place_of),
        place_of(node) == Some(key),
    ensures
        lane_of(lanes, key, node) is Some,
        ({
            let i = lane_position(lanes_at(lanes, key), node)->0;
            &&& 0 <= i < lanes_at(lanes, key).len()
            &&& lanes_at(lanes, key)[i].members.contains(node)
        }),
{
    let list = lanes_at(lanes, key);
    let test = |l: LaneView<I>| l.members.contains(node);
    lemma_first_among(list, test, list.len() as int);
    assert(memberships(list, node, list.len() as int) == 1);
    if lane_position(list, node) is None {
        lemma_no_memberships(list, node, list.len() as int);
    }
}

/// The places without that of `node`.
pub open spec fn place_gone<I>(place_of: spec_fn(I) -> Option<I>, node: I) -> spec_fn(I) -> Option<
    I,
> {
    |n: I|
        if n == node {
            None
        } else {
            place_of(n)
        }
}

/// The lane of another one carries what it carried once `node` has left.
pub proof fn lemma_left_keeps<I>(
    lanes: Map<I, Seq<LaneView<I>>>,
    place_of: spec_fn(I) -> Option<I>,
    node: I,
    key: I,
    other: I,
    at: I,
)
    requires
        lanes_agree(lanes, place_of),
        lanes_agree(left_lanes(lanes, node, key), place_gone(place_of, node)),
        other != node,
        place_of(other) == Some(at),
    ensures
        lane_of(lanes, at, other) is Some,
        carry_alike(lane_of(lanes, at, other), lane_of(left_lanes(lanes, node, key), at, other)),
{
    lemma_own_lane(lanes, place_of, other, at);
    let list = lanes_at(lanes, at);
    let i = lane_position(list, other)->0;
    let lane = list[i];
    let after = left_lanes(lanes, node, key);
    if at == key && lanes.dom().contains(key) {
        let lighter = list.map_values(|l: LaneView<I>| without_member(l, node));
        let filled = |l: LaneView<I>| l.members.len() > 0;
        let kept = lanes_without(list, node);
        let own = without_member(lane, node);
        assert(lighter[i] == own);
        assert(lighter.contains(own));
        lemma_filter_contains(lane.members, |m: I| m != node, other);
        assert(own.members.contains(other));
        assert(filled(own));
        lemma_filter_contains(lighter, filled, own);
        assert(kept.contains(own));
        let k = choose|k: int| 0 <= k < kept.len() && kept[k] == own;
        assert(lanes_at(after, at) == kept);
        lemma_lane_found(after, place_gone(place_of, node), other, at, k);
    } else {
        assert(lanes_at(after, at) == list);
    }
}

/// The lanes that are left name as many legs as they say if they all did.
pub proof fn lemma_left_counted<I>(lanes: Map<I, Seq<LaneView<I>>>, node: I, key: I)
    requires
        lanes_counted(lanes),
    ensures
        lanes_counted(left_lanes(lanes, node, key)),
{
    let after = left_lanes(lanes, node, key);
    assert forall|k: I, i: int| 0 <= i < lanes_at(after, k).len() implies lane_counted(
        #[trigger] lanes_at(after, k)[i],
    ) by {
        if k == key && lanes.dom().contains(key) {
            let list = lanes[key];
            let lighter = list.map_values(|l: LaneView<I>| without_member(l, node));
            let filled = |l: LaneView<I>| l.members.len() > 0;
            let kept = lanes_without(list, node);
            assert(kept.contains(kept[i]));
            lemma_filter_contains(lighter, filled, kept[i]);
            let m = choose|m: int| 0 <= m < lighter.len() && lighter[m] == kept[i];
            assert(lane_counted(lanes_at(lanes, key)[m]));
        } else {
            assert(lanes_at(after, k) == lanes_at(lanes, k));
        }
    }
}

/// Who enters is in a lane that carries what was asked for.
pub proof fn lemma_entered_lane<I>(
    lanes: Map<I, Seq<LaneView<I>>>,
    place_of: spec_fn(I) -> Option<I>,
    node: I,
    key: I,
    carry: LaneCarry,
    legs: Seq<(I, usize)>,
)
    requires
        lanes_agree(entered_lanes(lanes, node, key, carry, legs), place_of),
        place_of(node) == Some(key),
    ensures
        lane_of(entered_lanes(lanes, node, key, carry, legs), key, node) matches Some(lane)
            && carries(lane, carry, legs),
{
    let after = entered_lanes(lanes, node, key, carry, legs);
    let list = lanes_at(lanes, key);
    let now = lanes_with(list, node, carry, legs);
    let test = |l: LaneView<I>| carries(l, carry, legs);
    lemma_first_among(list, test, list.len() as int);
    assert(lanes_at(after, key) == now);
    let i = match first_where(list, test) {
        Some(i) => i,
        None => list.len() as int,
    };
    match first_where(list, test) {
        Some(i) => {
            assert(now == grown(list, i, node));
            let members = list[i].members.push(node);
            assert(members[list[i].members.len() as int] == node);
            assert(now[i].members.contains(node));
            assert(test(list[i]));
        },
        None => {
            assert(now[i].members =~= seq![node]);
            assert(seq![node][0] == node);
        },
    }
    lemma_lane_found(after, place_of, node, key, i);
}

/// The lane of another one carries what it carried once `node` has entered.
pub proof fn lemma_entered_keeps<I>(
    lanes: Map<I, Seq<LaneView<I>>>,
    before: spec_fn(I) -> Option<I>,
    place_of: spec_fn(I) -> Option<I>,
    node: I,
    key: I,
    carry: LaneCarry,
    legs: Seq<(I, usize)>,
    other: I,
    at: I,
)
    requires
        lanes_agree(lanes, before),
        lanes_agree(entered_lanes(lanes, node, key, carry, legs), place_of),
        before(other) == Some(at),
        place_of(other) == Some(at),
    ensures
        carry_alike(
            lane_of(lanes, at, other),
            lane_of(entered_lanes(lanes, node, key, carry, legs), at, other),
        ),
{
    lemma_own_lane(lanes, before, other, at);
    let after = entered_lanes(lanes, node, key, carry, legs);
    let list = lanes_at(lanes, at);
    let i = lane_position(list, other)->0;
    let now = lanes_at(after, at);
    if at == key {
        let test = |l: LaneView<I>| carries(l, carry, legs);
        lemma_first_among(list, test, list.len() as int);
        assert(now == lanes_with(list, node, carry, legs));
        match first_where(list, test) {
            Some(g) => {
                assert(now == grown(list, g, node));
                if g == i {
                    let m = list[i].members;
                    let k = choose|k: int| 0 <= k < m.len() && m[k] == other;
                    assert(m.push(node)[k] == other);
                }
            },
            None => {
                assert(now[i] == list[i]);
            },
        }
        assert(now[i].members.contains(other));
        assert(now[i].carry == list[i].carry && now[i].legs == list[i].legs);
    } else {
        assert(now == list);
    }
    lemma_lane_found(after, place_of, other, at, i);
}

/// Lanes name as many legs as they say if they did before, and the one that was asked for does.
pub proof fn lemma_entered_counted<I>(
    lanes: Map<I, Seq<LaneView<I>>>,
    node: I,
    key: I,
    carry: LaneCarry,
    legs: Seq<(I, usize)>,
)
    requires
        lanes_counted(lanes),
        lane_counted(LaneView { members: seq![node], carry, legs }),
    ensures
        lanes_counted(entered_lanes(lanes, node, key, carry, legs)),
{
    let after = entered_lanes(lanes, node, key, carry, legs);
    let list = lanes_at(lanes, key);
    let test = |l: LaneView<I>| carries(l, carry, legs);
    lemma_first_among(list, test, list.len() as int);
    assert forall|k: I, i: int| 0 <= i < lanes_at(after, k).len() implies lane_counted(
        #[trigger] lanes_at(after, k)[i],
    ) by {
        if k == key {
            if i < list.len() {
                assert(lane_counted(lanes_at(lanes, key)[i]));
            }
        } else {
            assert(lanes_at(after, k) == lanes_at(lanes, k));
        }
    }
}

/// Lanes name as many legs as they say once `node` has entered the lane of a mate.
pub proof fn lemma_joined_counted<I>(lanes: Map<I, Seq<LaneView<I>>>, node: I, mate: I, key: I)
    requires
        lanes_counted(lanes),
        lane_of(lanes, key, mate) is Some,
    ensures
        lanes_counted(joined_lanes(lanes, node, mate, key)),
{
    let after = joined_lanes(lanes, node, mate, key);
    let list = lanes_at(lanes, key);
    lemma_first_among(list, |l: LaneView<I>| l.members.contains(mate), list.len() as int);
    assert forall|k: I, i: int| 0 <= i < lanes_at(after, k).len() implies lane_counted(
        #[trigger] lanes_at(after, k)[i],
    ) by {
        assert(lane_counted(lanes_at(lanes, k)[i]));
    }
}

} // verus!
