//! Where a reference is after it was placed or moved into a slot.

use crate::approach_laws::{
    lemma_approach_leads, lemma_leads, lemma_legs_added, lemma_legs_moved_sound, lemma_listed_more,
    lemma_made_free_above, lemma_put, lemma_same_onto, lemma_same_places, lemma_settled_alike,
    listed_truly,
};
use crate::arrangement::{legs_added, resting_on, rests_on, Member, StackSlot};
use crate::arrangement_laws::{law_join_lane_of, law_spliced_out_carries_nothing, lemma_agree_alike};
use crate::creation_laws::{lemma_filter_distinct, lemma_legs_among};
use crate::editor_graph::{lemma_placed_refs, EditorGraphIndex, EditorLeg, EditorView, RefPosition};
use crate::lane_laws::{carry_alike, lemma_left_keeps, lemma_own_lane, place_gone};
use crate::lanes::{
    grown, lane_of, lane_position, lanes_agree, lanes_at, lemma_lane_found, lemma_left_lanes_agree,
};
use crate::order::{lemma_sorted_contains, sorted};
use crate::positions::lemma_kept_placed;
use crate::seqs::lemma_filter_contains;
use crate::stacking_laws::{
    lemma_approach_from_picks, lemma_legs_followed_spots, lemma_listed, lemma_rehung_position,
    lemma_settled_spots, lemma_still_grounded, up_to_date,
};
use vstd::prelude::*;

verus! {

/// The slot is at a reference that sits somewhere, other than `node`, or on a commit.
pub open spec fn slot_is_there(v: EditorView, node: EditorGraphIndex, slot: StackSlot) -> bool {
    match slot {
        StackSlot::Above(target) => target != node && v.seat(target) is Some,
        StackSlot::Below(target) => target != node && v.seat(target) is Some,
        StackSlot::Bottom(pick) => v.is_pick(pick),
        StackSlot::LaneTop { pick, .. } => v.is_pick(pick),
        StackSlot::Root(pick) => v.is_pick(pick),
    }
}

/// The commit that the slot is on.
pub open spec fn slot_pick(v: EditorView, slot: StackSlot) -> EditorGraphIndex {
    match slot {
        StackSlot::Above(target) => v.seat(target)->0,
        StackSlot::Below(target) => v.seat(target)->0,
        StackSlot::Bottom(pick) => pick,
        StackSlot::LaneTop { pick, .. } => pick,
        StackSlot::Root(pick) => pick,
    }
}

/// Making a slot free changes no place and no approach: it only changes what is underneath.
#[verifier::rlimit(40)]
proof fn lemma_made_free_slot(v: EditorView, node: EditorGraphIndex, slot: StackSlot)
    requires
        v.sound(),
        v.position(node) is Some,
        slot_is_there(v, node, slot),
    ensures
        ({
            let spliced = v.spliced_out(node, v.position(node)->0.below);
            let (free, landing) = spliced.made_free(node, slot);
            &&& spliced.sound()
            &&& free.sound()
            &&& free.nodes == v.nodes
            &&& free.refs.len() == v.refs.len()
            &&& forall|ix: EditorGraphIndex| #[trigger] free.approach(ix) == v.approach(ix)
            &&& forall|ix: EditorGraphIndex| #[trigger] free.place(ix) == v.place(ix)
            &&& landing matches Some(landing) && landing.on is Node && v.resolve(landing.on) == Some(
                slot_pick(v, slot),
            ) && landing.approach == match slot {
                StackSlot::Above(target) => v.approach(target),
                StackSlot::Below(target) => v.approach(target),
                StackSlot::LaneTop { leg, .. } => seq![leg],
                _ => Seq::empty(),
            }
        }),
{
    let spliced = v.spliced_out(node, v.position(node)->0.below);
    assert forall|ix: EditorGraphIndex| #[trigger] spliced.place(ix) == v.place(ix) by {
        lemma_rehung_position(v, v.resting(node), v.position(node)->0.below, ix);
    }
    lemma_same_places(v, spliced);
    assert(spliced.place(node) == v.place(node));
    match slot {
        StackSlot::Above(target) => {
            lemma_made_free_above(v, node, target);
        },
        StackSlot::Below(target) => {
            assert(spliced.place(target) == v.place(target));
            let stored = spliced.position(target)->0;
            let hung = spliced.set_below(node, stored.below);
            assert forall|ix: EditorGraphIndex| #[trigger] hung.place(ix) == spliced.place(ix) by {}
            lemma_same_places(spliced, hung);
            let free = hung.set_below(target, Some(node));
            assert forall|ix: EditorGraphIndex| #[trigger] free.place(ix) == hung.place(ix) by {}
            lemma_same_places(hung, free);
            lemma_chain_of_three(v, spliced, hung, free);
            assert(v.position(target) is Some);
        },
        StackSlot::Bottom(pick) => {
            let hung = spliced.set_below(node, None);
            assert forall|ix: EditorGraphIndex| #[trigger] hung.place(ix) == spliced.place(ix) by {}
            lemma_same_places(spliced, hung);
            let free = hung.rehung(hung.bottom_of(pick, node), Some(node));
            assert forall|ix: EditorGraphIndex| #[trigger] free.place(ix) == hung.place(ix) by {
                lemma_rehung_position(hung, hung.bottom_of(pick, node), Some(node), ix);
            }
            lemma_same_places(hung, free);
            lemma_chain_of_three(v, spliced, hung, free);
        },
        StackSlot::LaneTop { pick, leg } => {
            let free = spliced.set_below(node, spliced.lane_top(pick, leg, node));
            assert forall|ix: EditorGraphIndex| #[trigger] free.place(ix) == spliced.place(ix) by {}
            lemma_same_places(spliced, free);
            lemma_chain_of_three(v, spliced, spliced, free);
        },
        StackSlot::Root(pick) => {
            let free = spliced.set_below(node, None);
            assert forall|ix: EditorGraphIndex| #[trigger] free.place(ix) == spliced.place(ix) by {}
            lemma_same_places(spliced, free);
            lemma_chain_of_three(v, spliced, spliced, free);
        },
    }
}

proof fn lemma_chain_of_three(a: EditorView, b: EditorView, c: EditorView, d: EditorView)
    requires
        forall|ix: EditorGraphIndex| #[trigger] b.approach(ix) == a.approach(ix),
        forall|ix: EditorGraphIndex| #[trigger] c.approach(ix) == b.approach(ix),
        forall|ix: EditorGraphIndex| #[trigger] d.approach(ix) == c.approach(ix),
        forall|ix: EditorGraphIndex| #[trigger] b.place(ix) == a.place(ix),
        forall|ix: EditorGraphIndex| #[trigger] c.place(ix) == b.place(ix),
        forall|ix: EditorGraphIndex| #[trigger] d.place(ix) == c.place(ix),
    ensures
        forall|ix: EditorGraphIndex| #[trigger] d.approach(ix) == a.approach(ix),
        forall|ix: EditorGraphIndex| #[trigger] d.place(ix) == a.place(ix),
{
    assert forall|ix: EditorGraphIndex| #[trigger] d.approach(ix) == a.approach(ix) by {
        assert(d.approach(ix) == c.approach(ix));
        assert(c.approach(ix) == b.approach(ix));
        assert(b.approach(ix) == a.approach(ix));
    }
    assert forall|ix: EditorGraphIndex| #[trigger] d.place(ix) == a.place(ix) by {
        assert(d.place(ix) == c.place(ix));
        assert(c.place(ix) == b.place(ix));
        assert(b.place(ix) == a.place(ix));
    }
}

/// A reference that has moved into a slot other than above a reference is on the commit of the slot.
/// It is approached through the legs that approached it, if nothing of its chain was underneath it,
/// and these lead to the commit then; and through the legs of the slot: those that approach the
/// reference that it comes underneath, or the leg on top of whose lane it comes, if that leads to the
/// commit. At the bottom, and as a root, there are no others.
#[verifier::rlimit(40)]
pub proof fn law_legs_follow_into_slot(v: EditorView, node: EditorGraphIndex, slot: StackSlot)
    requires
        v.sound(),
        v.seat(node) is Some,
        slot_is_there(v, node, slot),
        !(slot is Above),
    ensures
        ({
            let after = v.moved_ref(node, slot);
            let pick = slot_pick(v, slot);
            let follow = v.sole_carrier(node);
            &&& after.sound()
            &&& after.seat(node) == Some(pick)
            &&& forall|l: EditorLeg| #[trigger]
                after.approach(node).contains(l) <==> (follow && v.approach(node).contains(l)) || (
                match slot {
                    StackSlot::Below(target) => v.approach(target).contains(l),
                    StackSlot::LaneTop { leg, .. } => l == leg && v.leads(leg, pick),
                    _ => false,
                })
            &&& forall|l: EditorLeg| #[trigger]
                after.approach(node).contains(l) ==> after.leads(l, pick)
            &&& forall|ix: EditorGraphIndex|
                ix != node ==> #[trigger] after.place(ix) == v.place(ix)
        }),
{
    let moving = v.position(node)->0;
    let (old_pick, new_pick) = (v.seat(node)->0, slot_pick(v, slot));
    let spliced = v.spliced_out(node, moving.below);
    let (free, landing) = spliced.made_free(node, slot);
    lemma_made_free_slot(v, node, slot);
    let landing = landing->0;
    lemma_same_onto(v, free, moving.on);
    lemma_same_onto(v, free, landing.on);
    assert(free.place(node) == v.place(node));
    let after = v.moved_ref(node, slot);
    let follow = v.sole_carrier(node);
    let legs = v.approach(node);
    assert forall|i: int| 0 <= i < legs.len() implies v.leads(#[trigger] legs[i], old_pick)
        && free.leads(legs[i], old_pick) by {
        assert(legs.contains(legs[i]));
        lemma_approach_leads(v, node, legs[i]);
        assert(free.parents(legs[i].0) == v.parents(legs[i].0));
        assert(free.pick(legs[i].0) == v.pick(legs[i].0));
    }
    let moved = if follow && old_pick != new_pick {
        free.legs_moved(legs, old_pick, new_pick, legs.len() as int)
    } else {
        free
    };
    if follow && old_pick != new_pick {
        lemma_legs_moved_sound(free, legs, old_pick, new_pick);
    }
    assert(moved.sound() && free.same_ground(moved) && moved.refs == free.refs);
    let approach = if follow {
        sorted::<EditorLeg>(legs_added(landing.approach, legs, legs.len() as int))
    } else {
        landing.approach
    };
    let given = if follow {
        Some(legs)
    } else {
        None
    };
    assert(free.legs_followed(node, slot, landing, given, moving.on) == (moved, approach));
    lemma_put(moved, node, landing.on, approach, approach.len() > 1, landing.below);
    crate::stacking_laws::lemma_ground(free, moved, landing.on);
    lemma_same_onto(moved, after, landing.on);
    let wanted = |l: EditorLeg| approach.contains(l);
    assert(after.approach(node) == moved.legs_into(new_pick).filter(wanted));
    assert forall|l: EditorLeg| #[trigger]
        after.approach(node).contains(l) <==> (follow && legs.contains(l)) || (match slot {
            StackSlot::Below(target) => v.approach(target).contains(l),
            StackSlot::LaneTop { leg, .. } => l == leg && v.leads(leg, new_pick),
            _ => false,
        }) by {
        lemma_filter_contains(moved.legs_into(new_pick), wanted, l);
        lemma_leads(moved, new_pick, l);
        if follow {
            lemma_sorted_contains::<EditorLeg>(
                legs_added(landing.approach, legs, legs.len() as int),
                l,
            );
            lemma_legs_added(landing.approach, legs, legs.len() as int, l);
            assert(legs.take(legs.len() as int) =~= legs);
        }
        if legs.contains(l) {
            let i = choose|i: int| 0 <= i < legs.len() && legs[i] == l;
            assert(free.leads(legs[i], old_pick));
        }
        assert(free.parents(l.0) == v.parents(l.0));
        assert(free.pick(l.0) == v.pick(l.0));
        match slot {
            StackSlot::Below(target) => {
                if v.approach(target).contains(l) {
                    lemma_approach_leads(v, target, l);
                }
            },
            StackSlot::LaneTop { leg, .. } => {
                assert(seq![leg][0] == leg);
                assert(landing.approach.contains(l) <==> l == leg);
            },
            _ => {},
        }
        assert(free.leads(l, new_pick) <==> v.leads(l, new_pick));
        assert(moved.leads(l, new_pick) <==> free.leads(l, new_pick) || (follow && legs.contains(
            l,
        )));
    }
    assert forall|l: EditorLeg| #[trigger] after.approach(node).contains(l) implies after.leads(
        l,
        new_pick,
    ) by {
        lemma_approach_leads(after, node, l);
    }
    assert forall|ix: EditorGraphIndex| ix != node implies #[trigger] after.place(ix) == v.place(
        ix,
    ) by {
        assert(after.position(ix) == moved.position(ix));
        assert(moved.position(ix) == free.position(ix));
        assert(free.place(ix) == v.place(ix));
    }
}

/// A reference that leaves its legs behind to go on top of the lane of a leg is approached through
/// just this leg.
pub proof fn law_lane_top_is_approached_by_its_leg(
    v: EditorView,
    node: EditorGraphIndex,
    pick: EditorGraphIndex,
    leg: EditorLeg,
)
    requires
        v.sound(),
        v.seat(node) is Some,
        v.is_pick(pick),
        v.leads(leg, pick),
    ensures
        v.moved_ref(node, StackSlot::LaneTop { pick, leg }).approach(node).contains(leg),
        !v.sole_carrier(node) ==> v.moved_ref(node, StackSlot::LaneTop { pick, leg }).approach(node)
            == seq![leg],
{
    let slot = StackSlot::LaneTop { pick, leg };
    law_legs_follow_into_slot(v, node, slot);
    let after = v.moved_ref(node, slot);
    let approach = after.approach(node);
    assert(approach.contains(leg));
    if !v.sole_carrier(node) {
        lemma_approach_distinct(after, node);
        lemma_only(approach, leg);
    }
}

/// A list without repetitions that holds one thing only.
proof fn lemma_only(list: Seq<EditorLeg>, leg: EditorLeg)
    requires
        list.no_duplicates(),
        list.contains(leg),
        forall|l: EditorLeg| #[trigger] list.contains(l) ==> l == leg,
    ensures
        list == seq![leg],
{
    let i = choose|i: int| 0 <= i < list.len() && list[i] == leg;
    assert(list.len() == 1) by {
        if list.len() > 1 {
            assert(list.contains(list[0]));
            assert(list.contains(list[1]));
        }
    }
    assert(list =~= seq![leg]);
}

/// No leg approaches a reference twice.
pub proof fn lemma_approach_distinct(v: EditorView, ix: EditorGraphIndex)
    requires
        v.sound(),
    ensures
        v.approach(ix).no_duplicates(),
{
    if let Some(stored) = v.position(ix) {
        if let Some(pick) = v.resolve(stored.on) {
            lemma_legs_among(v.nodes, pick, v.nodes.len() as int);
            lemma_filter_distinct(v.incoming(pick), |l: EditorLeg| v.is_pick(l.0));
            if let Some(lane) = lane_of(v.lanes, stored.on, ix) {
                lemma_filter_distinct(v.legs_into(pick), |l: EditorLeg| lane.legs.contains(l));
            }
        }
    }
}

/// What was underneath a reference that left: what rested on it rests on what it rested on.
pub open spec fn below_without(
    v: EditorView,
    node: EditorGraphIndex,
    ix: EditorGraphIndex,
) -> Option<EditorGraphIndex> {
    if v.below(ix) == Some(node) {
        v.below(node)
    } else {
        v.below(ix)
    }
}

proof fn lemma_spliced_below(v: EditorView, node: EditorGraphIndex, ix: EditorGraphIndex)
    requires
        v.fits(),
        v.position(node) is Some,
        v.below(node) != Some(node),
        ix != node,
    ensures
        v.spliced_out(node, v.below(node)).below(ix) == below_without(v, node, ix),
{
    law_spliced_out_carries_nothing(v, node, v.below(node), ix);
    lemma_rehung_position(v, v.resting(node), v.below(node), ix);
}

/// What is underneath what after a reference has moved: under a reference that it comes underneath
/// is the moved one, and under the moved one what was there; under all that sat on the commit itself
/// is one that moved to the bottom; and what rested on the moved one before rests on what that rested
/// on.
pub proof fn law_stack_after_move(
    v: EditorView,
    node: EditorGraphIndex,
    slot: StackSlot,
    ix: EditorGraphIndex,
)
    requires
        v.sound(),
        v.seat(node) is Some,
        v.below(node) != Some(node),
        slot_is_there(v, node, slot),
        !(slot is Above),
        ix != node,
        v.position(ix) is Some,
    ensures
        ({
            let after = v.moved_ref(node, slot);
            match slot {
                StackSlot::Below(target) => {
                    &&& after.below(node) == below_without(v, node, target)
                    &&& after.below(ix) == if ix == target {
                        Some(node)
                    } else {
                        below_without(v, node, ix)
                    }
                },
                StackSlot::Bottom(pick) => {
                    &&& after.below(node) is None
                    &&& after.below(ix) == if below_without(v, node, ix) is None && v.seat(ix)
                        == Some(pick) {
                        Some(node)
                    } else {
                        below_without(v, node, ix)
                    }
                },
                StackSlot::Root(_) => {
                    &&& after.below(node) is None
                    &&& after.below(ix) == below_without(v, node, ix)
                },
                _ => after.below(ix) == below_without(v, node, ix),
            }
        }),
{
    let moving = v.position(node)->0;
    let spliced = v.spliced_out(node, moving.below);
    let (free, landing) = spliced.made_free(node, slot);
    lemma_made_free_slot(v, node, slot);
    let landing = landing->0;
    let after = v.moved_ref(node, slot);
    lemma_spliced_below(v, node, ix);
    lemma_moved_stack(v, node, slot, ix);
    lemma_rehung_position(v, v.resting(node), moving.below, ix);
    match slot {
        StackSlot::Below(target) => {
            lemma_spliced_below(v, node, target);
            lemma_rehung_position(v, v.resting(node), moving.below, target);
        },
        StackSlot::Bottom(pick) => {
            let hung = spliced.set_below(node, None);
            assert(hung.position(ix) == spliced.position(ix));
            lemma_rehung_position(hung, hung.bottom_of(pick, node), Some(node), ix);
            lemma_listed(hung, hung.at_bottom(pick, node), ix);
            assert(spliced.place(ix) == v.place(ix));
            assert(hung.place(ix) == v.place(ix));
            lemma_same_onto(v, hung, v.position(ix)->0.on);
        },
        _ => {},
    }
}

/// Moving legs and putting the reference where it goes changes nothing else.
proof fn lemma_moved_stack(
    v: EditorView,
    node: EditorGraphIndex,
    slot: StackSlot,
    ix: EditorGraphIndex,
)
    requires
        v.sound(),
        v.seat(node) is Some,
        slot_is_there(v, node, slot),
        !(slot is Above),
        ix != node,
    ensures
        ({
            let (free, landing) = v.spliced_out(node, v.position(node)->0.below).made_free(
                node,
                slot,
            );
            &&& v.moved_ref(node, slot).position(ix) == free.position(ix)
            &&& v.moved_ref(node, slot).below(node) == landing->0.below
        }),
{
    let moving = v.position(node)->0;
    let (old_pick, new_pick) = (v.seat(node)->0, slot_pick(v, slot));
    let (free, landing) = v.spliced_out(node, moving.below).made_free(node, slot);
    lemma_made_free_slot(v, node, slot);
    let landing = landing->0;
    lemma_same_onto(v, free, moving.on);
    lemma_same_onto(v, free, landing.on);
    let legs = v.approach(node);
    let follow = v.sole_carrier(node);
    let given = if follow {
        Some(legs)
    } else {
        None
    };
    assert(free.place(node) == v.place(node));
    if follow && old_pick != new_pick {
        assert forall|i: int| 0 <= i < legs.len() implies free.leads(
            #[trigger] legs[i],
            old_pick,
        ) by {
            assert(legs.contains(legs[i]));
            lemma_approach_leads(v, node, legs[i]);
            assert(free.parents(legs[i].0) == v.parents(legs[i].0));
            assert(free.pick(legs[i].0) == v.pick(legs[i].0));
        }
        lemma_legs_moved_sound(free, legs, old_pick, new_pick);
    }
    let (moved, approach) = free.legs_followed(node, slot, landing, given, moving.on);
    assert(moved.refs == free.refs);
}

/// A reference that joins the lane of another one is approached as that one is, and all others are
/// approached as they were.
#[verifier::rlimit(40)]
proof fn lemma_joined_lane(
    v: EditorView,
    ix: EditorGraphIndex,
    mate: EditorGraphIndex,
    below: Option<EditorGraphIndex>,
)
    requires
        v.sound(),
        v.has_ref(ix),
        ix != mate,
        v.position(mate) is Some,
    ensures
        ({
            let after = v.join_lane_of(ix, mate, below);
            &&& after.sound()
            &&& after.nodes == v.nodes
            &&& after.refs.len() == v.refs.len()
            &&& after.position(ix) == Some(RefPosition { below, ..v.position(mate)->0 })
            &&& after.approach(ix) == v.approach(mate)
            &&& forall|j: EditorGraphIndex| j != ix ==> #[trigger] after.position(j) == v.position(j)
            &&& forall|j: EditorGraphIndex| j != ix ==> #[trigger] after.approach(j) == v.approach(j)
        }),
{
    let after = v.join_lane_of(ix, mate, below);
    let m = v.position(mate)->0;
    law_join_lane_of(v, ix, mate, below);
    assert(after.position(ix) == Some(RefPosition { below, ..m }));
    assert forall|j: EditorGraphIndex| j != ix implies #[trigger] after.position(j) == v.position(
        j,
    ) by {}
    assert forall|j: EditorGraphIndex|
        #[trigger] after.place(j) == v.place(j) || after.place(j) is Some && after.place(
            j,
        )->0 is Node by {
        if j != ix {
            assert(after.position(j) == v.position(j));
        }
    }
    lemma_still_grounded(v, after);
    let left = v.lanes_left(ix);
    let gone = place_gone(v.places(), ix);
    lemma_left_agrees(v, ix);
    lemma_own_lane(left, gone, mate, m.on);
    let list = lanes_at(left, m.on);
    let i = lane_position(list, mate)->0;
    let now = lanes_at(after.lanes, m.on);
    assert(now == grown(list, i, ix));
    let members = list[i].members;
    let k = choose|k: int| 0 <= k < members.len() && members[k] == mate;
    assert(members.push(ix)[k] == mate);
    assert(members.push(ix)[members.len() as int] == ix);
    assert(after.places()(ix) == Some(m.on));
    assert(after.places()(mate) == Some(m.on));
    lemma_lane_found(after.lanes, after.places(), ix, m.on, i);
    lemma_same_onto(v, after, m.on);
    lemma_left_alike(v, ix, mate);
    assert forall|j: EditorGraphIndex| j != ix implies #[trigger] after.approach(j) == v.approach(
        j,
    ) by {
        assert(after.position(j) == v.position(j));
        if let Some(p) = v.position(j) {
            lemma_same_onto(v, after, p.on);
            lemma_left_alike(v, ix, j);
            lemma_own_lane(left, gone, j, p.on);
            let own = lanes_at(left, p.on);
            let at = lane_position(own, j)->0;
            if p.on == m.on && at == i {
                let q = choose|q: int| 0 <= q < members.len() && members[q] == j;
                assert(members.push(ix)[q] == j);
            }
            assert(after.places()(j) == Some(p.on));
            lemma_lane_found(after.lanes, after.places(), j, p.on, at);
        }
    }
}

/// The lanes agree with the places once a reference has left.
proof fn lemma_left_agrees(v: EditorView, ix: EditorGraphIndex)
    requires
        v.in_step(),
    ensures
        lanes_agree(v.lanes_left(ix), place_gone(v.places(), ix)),
{
    let gone = place_gone(v.places(), ix);
    match v.position(ix) {
        Some(p) => {
            assert(v.places()(ix) == Some(p.on));
            lemma_left_lanes_agree(v.lanes, v.places(), ix, p.on);
            let f = |n: EditorGraphIndex|
                if n == ix {
                    None
                } else {
                    v.places()(n)
                };
            assert forall|n: EditorGraphIndex| #[trigger] f(n) == gone(n) by {}
            lemma_agree_alike(v.lanes_left(ix), f, gone);
        },
        None => {
            assert forall|n: EditorGraphIndex| #[trigger] v.places()(n) == gone(n) by {}
            lemma_agree_alike(v.lanes, v.places(), gone);
        },
    }
}

/// The lane of another reference carries what it carried once a reference has left.
proof fn lemma_left_alike(v: EditorView, ix: EditorGraphIndex, j: EditorGraphIndex)
    requires
        v.in_step(),
        j != ix,
        v.position(j) is Some,
    ensures
        carry_alike(
            lane_of(v.lanes, v.position(j)->0.on, j),
            lane_of(v.lanes_left(ix), v.position(j)->0.on, j),
        ),
        lane_of(v.lanes, v.position(j)->0.on, j) is Some,
{
    let on = v.position(j)->0.on;
    assert(v.places()(j) == Some(on));
    lemma_own_lane(v.lanes, v.places(), j, on);
    if let Some(p) = v.position(ix) {
        lemma_left_agrees(v, ix);
        lemma_left_keeps(v.lanes, v.places(), ix, p.on, j, on);
    }
}

/// A reference that is placed above another one sits on it, on the same commit, is approached as it
/// is and ambiguous if it is. What of the chain of that one sat on it sits on the new one, and all
/// else is as it was.
pub proof fn law_placed_above(
    v: EditorView,
    node: EditorGraphIndex,
    target: EditorGraphIndex,
    ix: EditorGraphIndex,
)
    requires
        v.sound(),
        v.has_ref(node),
        node != target,
        v.position(target) is Some,
        ix != node,
    ensures
        ({
            let after = v.placed_ref(node, StackSlot::Above(target));
            let stored = v.position(target)->0;
            &&& after.sound()
            &&& after.position(node) == Some(RefPosition { below: Some(target), ..stored })
            &&& after.approach(node) == v.approach(target)
            &&& after.approach(ix) == v.approach(ix)
            &&& after.position(ix) == match v.position(ix) {
                Some(p) => if p.below == Some(target) && v.seat(ix) == v.seat(target) && v.approach(
                    ix,
                ) == v.approach(target) {
                    Some(RefPosition { below: Some(node), ..p })
                } else {
                    Some(p)
                },
                None => None,
            }
        }),
{
    let mates = resting_on(v.chain(target), target, node);
    let hung = v.rehung(mates, Some(node));
    assert forall|x: EditorGraphIndex| #[trigger] hung.place(x) == v.place(x) by {
        lemma_rehung_position(v, mates, Some(node), x);
    }
    lemma_same_places(v, hung);
    lemma_rehung_position(v, mates, Some(node), target);
    lemma_rehung_position(v, mates, Some(node), ix);
    lemma_joined_lane(hung, node, target, Some(target));
    assert(hung.approach(ix) == v.approach(ix));
    assert(hung.approach(target) == v.approach(target));
    lemma_in_mates(v, target, node, ix);
    lemma_mate_of_itself(v, target, node);
}

/// Those of the chain of a reference that rest on it.
pub proof fn lemma_in_mates(
    v: EditorView,
    target: EditorGraphIndex,
    node: EditorGraphIndex,
    ix: EditorGraphIndex,
)
    requires
        v.fits(),
        v.position(target) is Some,
    ensures
        EditorView::listed(resting_on(v.chain(target), target, node), ix) <==> ix != node && (
        v.position(ix) matches Some(p) && p.below == Some(target)) && v.seat(ix) == v.seat(target)
            && v.approach(ix) == v.approach(target),
{
    let stored = v.position(target)->0;
    let in_chain = |m: Member|
        v.approach(m.0) == v.approach(target) && v.resolve(m.1.on) == v.resolve(stored.on);
    let chain = v.placed().filter(in_chain);
    assert(v.chain(target) == chain);
    let test = rests_on(target, node);
    let list = chain.filter(test);
    v.lemma_placed();
    lemma_kept_placed(v, in_chain);
    if let Some(p) = v.position(ix) {
        let m = (ix, p);
        assert(v.placed().contains(m));
        lemma_filter_contains(v.placed(), in_chain, m);
        lemma_filter_contains(chain, test, m);
        if list.contains(m) {
            let i = choose|i: int| 0 <= i < list.len() && list[i] == m;
            assert(list[i].0 == ix);
        }
    }
    if EditorView::listed(list, ix) {
        let i = choose|i: int| 0 <= i < list.len() && (#[trigger] list[i]).0 == ix;
        assert(list.contains(list[i]));
        lemma_filter_contains(chain, test, list[i]);
        let j = choose|j: int| 0 <= j < chain.len() && chain[j] == list[i];
        assert(v.position(chain[j].0) == Some(chain[j].1) && in_chain(chain[j]));
    }
}

proof fn lemma_mate_of_itself(v: EditorView, target: EditorGraphIndex, node: EditorGraphIndex)
    requires
        v.fits(),
        v.position(target) is Some,
    ensures
        EditorView::listed(resting_on(v.chain(target), target, node), target) ==> v.below(target)
            == Some(target),
{
    lemma_in_mates(v, target, node, target);
}

/// A reference that is placed underneath another one takes its place: it sits on what that sat on, on
/// the same commit, is approached as it is and ambiguous if it is, and that one sits on it. All else
/// is as it was.
pub proof fn law_placed_below(
    v: EditorView,
    node: EditorGraphIndex,
    target: EditorGraphIndex,
    ix: EditorGraphIndex,
)
    requires
        v.sound(),
        v.has_ref(node),
        node != target,
        v.position(target) is Some,
        ix != node,
    ensures
        ({
            let after = v.placed_ref(node, StackSlot::Below(target));
            let stored = v.position(target)->0;
            &&& after.sound()
            &&& after.position(node) == Some(stored)
            &&& after.approach(node) == v.approach(target)
            &&& after.approach(ix) == v.approach(ix)
            &&& after.position(ix) == if ix == target {
                Some(RefPosition { below: Some(node), ..stored })
            } else {
                v.position(ix)
            }
        }),
{
    let stored = v.position(target)->0;
    lemma_joined_lane(v, node, target, stored.below);
    let joined = v.join_lane_of(node, target, stored.below);
    let after = joined.set_below(target, Some(node));
    assert(joined.position(target) == v.position(target));
    assert forall|x: EditorGraphIndex| #[trigger] after.place(x) == joined.place(x) by {}
    lemma_same_places(joined, after);
    assert(after.approach(node) == joined.approach(node));
    assert(after.approach(ix) == joined.approach(ix));
    assert(joined.position(ix) == v.position(ix));
}

/// A reference that is placed at the bottom sits on the commit itself, with all legs into the commit,
/// and is ambiguous if these are more than one. What sat on the commit itself sits on it, and all
/// else is as it was.
pub proof fn law_placed_at_bottom(
    v: EditorView,
    node: EditorGraphIndex,
    pick: EditorGraphIndex,
    ix: EditorGraphIndex,
)
    requires
        v.sound(),
        v.has_ref(node),
        v.is_pick(pick),
        ix != node,
    ensures
        ({
            let after = v.placed_ref(node, StackSlot::Bottom(pick));
            &&& after.sound()
            &&& after.position(node) == Some(
                RefPosition { on: pick, below: None, ambiguous: v.legs_into(pick).len() > 1 },
            )
            &&& forall|l: EditorLeg| #[trigger]
                after.approach(node).contains(l) <==> v.leads(l, pick)
            &&& after.approach(ix) == v.approach(ix)
            &&& after.position(ix) == match v.position(ix) {
                Some(p) => if p.below is None && v.seat(ix) == Some(pick) {
                    Some(RefPosition { below: Some(node), ..p })
                } else {
                    Some(p)
                },
                None => None,
            }
        }),
{
    let list = v.bottom_of(pick, node);
    let hung = v.rehung(list, Some(node));
    assert forall|x: EditorGraphIndex| #[trigger] hung.place(x) == v.place(x) by {
        lemma_rehung_position(v, list, Some(node), x);
    }
    lemma_same_places(v, hung);
    lemma_rehung_position(v, list, Some(node), ix);
    lemma_listed(v, v.at_bottom(pick, node), ix);
    let legs = v.legs_into(pick);
    lemma_put(hung, node, pick, legs, legs.len() > 1, None);
    let after = v.placed_ref(node, StackSlot::Bottom(pick));
    assert(v.resolve(pick) == Some(pick));
    lemma_same_onto(v, hung, pick);
    assert(hung.approach(ix) == v.approach(ix));
    assert forall|l: EditorLeg| #[trigger] after.approach(node).contains(l) <==> v.leads(
        l,
        pick,
    ) by {
        lemma_filter_contains(hung.legs_onto(pick), |x: EditorLeg| legs.contains(x), l);
        lemma_leads(v, pick, l);
    }
}

/// A reference that is placed on top of the lane of a leg sits on the top of that lane, on the
/// commit, is approached through the leg alone if that leads to the commit, and is not ambiguous. All
/// others are as they were.
pub proof fn law_placed_on_lane(
    v: EditorView,
    node: EditorGraphIndex,
    pick: EditorGraphIndex,
    leg: EditorLeg,
    ix: EditorGraphIndex,
)
    requires
        v.sound(),
        v.has_ref(node),
        v.is_pick(pick),
        ix != node,
    ensures
        ({
            let after = v.placed_ref(node, StackSlot::LaneTop { pick, leg });
            &&& after.sound()
            &&& after.position(node) == Some(
                RefPosition { on: pick, below: v.lane_top(pick, leg, node), ambiguous: false },
            )
            &&& v.leads(leg, pick) ==> after.approach(node) == seq![leg]
            &&& !v.leads(leg, pick) ==> after.approach(node).len() == 0
            &&& after.approach(ix) == v.approach(ix)
            &&& after.position(ix) == v.position(ix)
        }),
{
    let top = v.lane_top(pick, leg, node);
    lemma_put(v, node, pick, seq![leg], false, top);
    let after = v.placed_ref(node, StackSlot::LaneTop { pick, leg });
    assert(v.resolve(pick) == Some(pick));
    let wanted = |l: EditorLeg| seq![leg].contains(l);
    assert forall|l: EditorLeg| #[trigger] after.approach(node).contains(l) <==> l == leg
        && v.leads(leg, pick) by {
        lemma_filter_contains(v.legs_onto(pick), wanted, l);
        lemma_leads(v, pick, l);
        assert(seq![leg][0] == leg);
    }
    lemma_approach_distinct(after, node);
    if v.leads(leg, pick) {
        assert(after.approach(node).contains(leg));
        lemma_only(after.approach(node), leg);
    } else if after.approach(node).len() > 0 {
        assert(after.approach(node).contains(after.approach(node)[0]));
    }
}

/// A reference that is placed as a root sits on the commit itself, with nothing that descends into
/// it, and is not ambiguous. All others are as they were.
pub proof fn law_placed_as_root(
    v: EditorView,
    node: EditorGraphIndex,
    pick: EditorGraphIndex,
    ix: EditorGraphIndex,
)
    requires
        v.sound(),
        v.has_ref(node),
        v.is_pick(pick),
        ix != node,
    ensures
        ({
            let after = v.placed_ref(node, StackSlot::Root(pick));
            &&& after.sound()
            &&& after.position(node) == Some(
                RefPosition { on: pick, below: None, ambiguous: false },
            )
            &&& after.approach(node).len() == 0
            &&& after.approach(ix) == v.approach(ix)
            &&& after.position(ix) == v.position(ix)
        }),
{
    lemma_put(v, node, pick, Seq::empty(), false, None);
    let after = v.placed_ref(node, StackSlot::Root(pick));
    if after.approach(node).len() > 0 {
        let l = after.approach(node)[0];
        assert(after.approach(node).contains(l));
        lemma_filter_contains(
            v.legs_onto(pick),
            |x: EditorLeg| Seq::<EditorLeg>::empty().contains(x),
            l,
        );
    }
}

/// The top of a lane is on the commit and approached through the leg alone, with most references
/// underneath of all that are, and the highest index of those with as many; there is none only if
/// nothing is.
pub proof fn law_top_of_lane(
    v: EditorView,
    pick: EditorGraphIndex,
    leg: EditorLeg,
    node: EditorGraphIndex,
    ix: EditorGraphIndex,
)
    requires
        v.fits(),
    ensures
        ({
            let found = ix != node && v.seat(ix) == Some(pick) && v.approach(ix) == seq![leg];
            match v.lane_top(pick, leg, node) {
                Some(top) => {
                    &&& top != node && v.seat(top) == Some(pick) && v.approach(top) == seq![leg]
                    &&& found ==> v.depth(ix) <= v.depth(top)
                    &&& found && v.depth(ix) == v.depth(top) ==> ix->Ref_0 <= top->Ref_0
                },
                None => !found,
            }
        }),
{
    let keep = v.approached_by(pick, seq![leg], node);
    let list = v.in_lane(pick, leg, node);
    lemma_listed(v, keep, ix);
    lemma_kept_placed(v, keep);
    lemma_in_order(v, keep);
    lemma_topmost(v, list, list.len() as int);
    if let Some(top) = v.lane_top(pick, leg, node) {
        let t = choose|t: int| 0 <= t < list.len() && (#[trigger] list[t]).0 == top && forall|
            j: int,
        |
            0 <= j < list.len() ==> v.depth((#[trigger] list[j]).0) <= v.depth(top) && (v.depth(
                list[j].0,
            ) == v.depth(top) ==> j <= t);
        assert(v.position(list[t].0) == Some(list[t].1) && keep(list[t]));
        if EditorView::listed(list, ix) {
            let i = choose|i: int| 0 <= i < list.len() && (#[trigger] list[i]).0 == ix;
            assert(v.depth(list[i].0) <= v.depth(top));
            if i < t {
                assert(list[i].0->Ref_0 < list[t].0->Ref_0);
            }
        }
    } else if EditorView::listed(list, ix) {
        let i = choose|i: int| 0 <= i < list.len() && (#[trigger] list[i]).0 == ix;
        assert(list.len() > 0);
    }
}

/// What is kept of the references comes in the order of their indices.
pub proof fn lemma_in_order(v: EditorView, keep: spec_fn(Member) -> bool)
    requires
        v.fits(),
    ensures
        forall|i: int, j: int|
            0 <= i < j < v.placed().filter(keep).len() ==> (#[trigger] v.placed().filter(
                keep,
            )[i]).0->Ref_0 < (#[trigger] v.placed().filter(keep)[j]).0->Ref_0,
{
    lemma_placed_refs(v.refs, v.refs.len() as int);
    lemma_filter_in_order(v.placed(), keep);
}

proof fn lemma_filter_in_order(list: Seq<Member>, keep: spec_fn(Member) -> bool)
    requires
        forall|i: int, j: int|
            0 <= i < j < list.len() ==> (#[trigger] list[i]).0->Ref_0 < (
            #[trigger] list[j]).0->Ref_0,
    ensures
        forall|i: int, j: int|
            0 <= i < j < list.filter(keep).len() ==> (#[trigger] list.filter(keep)[i]).0->Ref_0 < (
            #[trigger] list.filter(keep)[j]).0->Ref_0,
    decreases list.len(),
{
    reveal(Seq::filter);
    if list.len() > 0 {
        let d = list.drop_last();
        lemma_filter_in_order(d, keep);
        let (before, all) = (d.filter(keep), list.filter(keep));
        assert forall|i: int, j: int| 0 <= i < j < all.len() implies (#[trigger] all[i]).0->Ref_0
            < (#[trigger] all[j]).0->Ref_0 by {
            if j < before.len() {
                assert(all[i] == before[i] && all[j] == before[j]);
            } else {
                assert(before.contains(before[i]));
                lemma_filter_contains(d, keep, before[i]);
                let k = choose|k: int| 0 <= k < d.len() && d[k] == before[i];
                assert(list[k] == before[i]);
            }
        }
    }
}

proof fn lemma_topmost(v: EditorView, list: Seq<Member>, n: int)
    requires
        0 <= n <= list.len(),
    ensures
        match v.topmost(list, n) {
            Some(top) => exists|t: int|
                0 <= t < n && (#[trigger] list[t]).0 == top && forall|j: int|
                    0 <= j < n ==> v.depth((#[trigger] list[j]).0) <= v.depth(top) && (v.depth(
                        list[j].0,
                    ) == v.depth(top) ==> j <= t),
            None => n == 0,
        },
    decreases n,
{
    if n > 0 {
        lemma_topmost(v, list, n - 1);
        match v.topmost(list, n - 1) {
            Some(best) => {
                let t = choose|t: int|
                    0 <= t < n - 1 && (#[trigger] list[t]).0 == best && forall|j: int|
                        0 <= j < n - 1 ==> v.depth((#[trigger] list[j]).0) <= v.depth(best) && (
                        v.depth(list[j].0) == v.depth(best) ==> j <= t);
                if v.depth(list[n - 1].0) >= v.depth(best) {
                    assert(list[n - 1].0 == v.topmost(list, n)->0);
                } else {
                    assert(list[t].0 == v.topmost(list, n)->0);
                }
            },
            None => {
                assert(list[n - 1].0 == v.topmost(list, n)->0);
            },
        }
    }
}

/// What is underneath what after a reference has moved above another one: that one is under it, and
/// what of the chain of that one sat on that one sits on it. What rested on the moved one before rests
/// on what that rested on.
#[verifier::rlimit(40)]
pub proof fn law_stack_after_move_above(
    v: EditorView,
    node: EditorGraphIndex,
    target: EditorGraphIndex,
    ix: EditorGraphIndex,
)
    requires
        v.sound(),
        v.seat(node) is Some,
        v.below(node) != Some(node),
        node != target,
        v.seat(target) is Some,
        ix != node,
        v.position(ix) is Some,
    ensures
        ({
            let after = v.moved_ref(node, StackSlot::Above(target));
            let b = below_without(v, node, ix);
            &&& after.below(node) == Some(target)
            &&& after.place(node) == v.place(target)
            &&& after.place(ix) == v.place(ix)
            &&& after.below(ix) == if b == Some(target) && v.seat(ix) == v.seat(target)
                && v.approach(ix) == v.approach(target) {
                Some(node)
            } else {
                b
            }
        }),
{
    let slot = StackSlot::Above(target);
    let moving = v.position(node)->0;
    let spliced = v.spliced_out(node, moving.below);
    let (free, landing) = spliced.made_free(node, slot);
    lemma_made_free_slot(v, node, slot);
    let landing = landing->0;
    lemma_spliced_below(v, node, ix);
    lemma_rehung_position(v, v.resting(node), moving.below, ix);
    lemma_rehung_position(v, v.resting(node), moving.below, target);
    assert forall|x: EditorGraphIndex| #[trigger] spliced.place(x) == v.place(x) by {
        lemma_rehung_position(v, v.resting(node), moving.below, x);
    }
    lemma_same_places(v, spliced);
    let hung = spliced.set_below(node, Some(target));
    assert(spliced.place(node) == v.place(node));
    assert forall|x: EditorGraphIndex| #[trigger] hung.place(x) == spliced.place(x) by {}
    lemma_same_places(spliced, hung);
    lemma_in_mates(hung, target, node, ix);
    lemma_rehung_position(
        hung,
        resting_on(hung.chain(target), target, node),
        Some(node),
        ix,
    );
    assert(hung.position(ix) == spliced.position(ix));
    assert(hung.approach(ix) == spliced.approach(ix) && spliced.approach(ix) == v.approach(ix));
    assert(hung.approach(target) == spliced.approach(target) && spliced.approach(target)
        == v.approach(target));
    assert(hung.seat(ix) == spliced.seat(ix) && spliced.seat(ix) == v.seat(ix));
    assert(hung.seat(target) == spliced.seat(target) && spliced.seat(target) == v.seat(target));
    let legs = v.approach(node);
    let given = if v.sole_carrier(node) {
        Some(legs)
    } else {
        None
    };
    lemma_approach_from_picks(v, node);
    assert forall|i: int| 0 <= i < legs.len() implies free.is_pick((#[trigger] legs[i]).0) by {
        assert(v.is_pick(v.approach(node)[i].0));
        assert(free.pick(legs[i].0) == v.pick(legs[i].0));
    }
    lemma_legs_followed_spots(free, node, slot, landing, given, moving.on);
    let followed = free.legs_followed(node, slot, landing, given, moving.on).0;
    assert(followed.place(ix) == free.place(ix) && followed.below(ix) == free.below(ix));
    let after = v.moved_ref(node, slot);
    assert(after.position(ix) == followed.position(ix));
    assert(free.place(ix) == v.place(ix));
}

/// What a split has left behind stays where it is listed to sit, on what it sat on, is approached
/// through the leg of the commit that came into the chain, if that leads to its own commit, and
/// through no other, and is not ambiguous. All others are as they were.
pub proof fn law_settled_lower(
    v: EditorView,
    lower: Seq<Member>,
    leg: EditorLeg,
    ix: EditorGraphIndex,
)
    requires
        v.sound(),
        listed_truly(v, lower),
    ensures
        ({
            let after = v.settled(lower, seq![leg], false, lower.len() as int);
            &&& after.sound()
            &&& after.place(ix) == v.place(ix) && after.below(ix) == v.below(ix)
            &&& !EditorView::listed(lower, ix) ==> after.position(ix) == v.position(ix)
                && after.approach(ix) == v.approach(ix)
            &&& EditorView::listed(lower, ix) ==> {
                &&& after.position(ix) matches Some(p) && !p.ambiguous
                &&& forall|l: EditorLeg| #[trigger]
                    after.approach(ix).contains(l) <==> l == leg && (v.seat(ix) matches Some(pick)
                        && v.leads(leg, pick))
            }
        }),
{
    let n = lower.len() as int;
    lemma_settled_alike(v, lower, seq![leg], false, n);
    assert(lower.take(n) =~= lower);
    assert(up_to_date(v, lower)) by {
        assert forall|i: int| 0 <= i < lower.len() implies v.place((#[trigger] lower[i]).0) == Some(
            lower[i].1.on,
        ) && v.below(lower[i].0) == lower[i].1.below by {
            assert(v.position(lower[i].0) == Some(lower[i].1));
        }
    }
    lemma_settled_spots(v, lower, seq![leg], false, n);
    let after = v.settled(lower, seq![leg], false, n);
    assert(after.place(ix) == v.place(ix));
    if EditorView::listed(lower, ix) {
        let i = choose|i: int| 0 <= i < lower.len() && (#[trigger] lower[i]).0 == ix;
        assert(v.position(lower[i].0) == Some(lower[i].1));
        lemma_settled_clear(v, lower, seq![leg], n, ix);
        let onto = v.legs_onto(lower[i].1.on);
        let wanted = |l: EditorLeg| seq![leg].contains(l);
        assert forall|l: EditorLeg| #[trigger] after.approach(ix).contains(l) <==> l == leg && (
        v.seat(ix) matches Some(pick) && v.leads(leg, pick)) by {
            lemma_filter_contains(onto, wanted, l);
            assert(seq![leg][0] == leg);
            if let Some(pick) = v.seat(ix) {
                lemma_leads(v, pick, l);
            }
        }
    }
}

pub proof fn lemma_settled_clear(
    v: EditorView,
    list: Seq<Member>,
    approach: Seq<EditorLeg>,
    n: int,
    ix: EditorGraphIndex,
)
    requires
        v.sound(),
        listed_truly(v, list),
        0 <= n <= list.len(),
        EditorView::listed(list.take(n), ix),
    ensures
        v.settled(list, approach, false, n).position(ix) matches Some(p) && !p.ambiguous,
    decreases n,
{
    if n > 0 {
        let before = v.settled(list, approach, false, n - 1);
        let (node, m) = list[n - 1];
        assert(v.position(list[n - 1].0) == Some(m));
        lemma_settled_alike(v, list, approach, false, n - 1);
        lemma_put(before, node, m.on, approach, false, m.below);
        lemma_listed_more(list, n, ix);
        if ix != node {
            lemma_settled_clear(v, list, approach, n - 1, ix);
        }
    }
}

} // verus!
