//! What all changes of where references sit have in common, and what single ones bring about.

use crate::arrangement::{
    lemma_chain_has_refs, lemma_kept_has_refs, not_carried, resting_on, rests_on, subtree, Member,
    SplitBoundary, StackSlot,
};
use crate::editor_graph::{
    approach_carry, approach_legs, EditorGraphIndex, EditorLeg, EditorView, RefPosition, WALK_LIMIT,
};
use crate::lane_laws;
use crate::lane_laws::{lemma_entered_keeps, lemma_left_keeps, lemma_own_lane, place_gone};
use crate::lanes::{
    carries, entered_lanes, lane_of, lanes_agree, lemma_edited_lanes_agree,
    lemma_entered_lanes_agree, lemma_joined_lanes_agree, lemma_left_lanes_agree, DropLeg, LaneCarry,
    LaneView,
};
use crate::order::sorted;
use crate::positions::lemma_kept_placed;
use crate::seqs::lemma_filter_contains;
use vstd::prelude::*;

verus! {

impl EditorView {
    /// The lanes say of each reference that sits somewhere what it points at: it is in one lane,
    /// once, above that node, and no other reference is in a lane.
    pub open spec fn in_step(self) -> bool {
        lanes_agree(self.lanes, self.places())
    }

    /// What each reference points at.
    pub open spec fn places(self) -> spec_fn(EditorGraphIndex) -> Option<EditorGraphIndex> {
        |n: EditorGraphIndex| self.place(n)
    }

    /// `after` has the same commits and references, and its lanes are in step if those of this graph
    /// are.
    pub open spec fn kept(self, after: EditorView) -> bool {
        &&& after.refs.len() == self.refs.len()
        &&& after.nodes.len() == self.nodes.len()
        &&& forall|i: int|
            0 <= i < self.refs.len() ==> {
                &&& (#[trigger] after.refs[i]).name == self.refs[i].name
                &&& after.refs[i].mutable == self.refs[i].mutable
                &&& after.refs[i].live == self.refs[i].live
            }
        &&& forall|i: int|
            0 <= i < self.nodes.len() ==> (#[trigger] after.nodes[i]).pick == self.nodes[i].pick
        &&& self.in_step() ==> after.in_step()
    }
}

pub proof fn lemma_agree_alike(
    lanes: Map<EditorGraphIndex, Seq<LaneView<EditorGraphIndex>>>,
    f: spec_fn(EditorGraphIndex) -> Option<EditorGraphIndex>,
    g: spec_fn(EditorGraphIndex) -> Option<EditorGraphIndex>,
)
    requires
        lanes_agree(lanes, f),
        forall|n: EditorGraphIndex| #[trigger] f(n) == g(n),
    ensures
        lanes_agree(lanes, g),
{
    assert(f =~= g);
}

proof fn lemma_kept_twice(a: EditorView, b: EditorView, c: EditorView)
    requires
        a.kept(b),
        b.kept(c),
    ensures
        a.kept(c),
{
    assert forall|i: int| 0 <= i < a.refs.len() implies {
        &&& (#[trigger] c.refs[i]).name == a.refs[i].name
        &&& c.refs[i].mutable == a.refs[i].mutable
        &&& c.refs[i].live == a.refs[i].live
    } by {
        assert(b.refs[i].name == a.refs[i].name);
    }
    assert forall|i: int| 0 <= i < a.nodes.len() implies (#[trigger] c.nodes[i]).pick
        == a.nodes[i].pick by {
        assert(b.nodes[i].pick == a.nodes[i].pick);
    }
}

/// The lanes after the reference has left, and has no place.
pub proof fn lemma_left_in_step(v: EditorView, ix: EditorGraphIndex)
    requires
        v.in_step(),
    ensures
        lanes_agree(
            v.lanes_left(ix),
            |n: EditorGraphIndex|
                if n == ix {
                    None
                } else {
                    v.place(n)
                },
        ),
{
    let g = |n: EditorGraphIndex|
        if n == ix {
            None
        } else {
            v.place(n)
        };
    match v.position(ix) {
        Some(p) => {
            lemma_left_lanes_agree(v.lanes, v.places(), ix, p.on);
            let f = |n: EditorGraphIndex|
                if n == ix {
                    None
                } else {
                    v.places()(n)
                };
            lemma_agree_alike(v.lanes_left(ix), f, g);
        },
        None => {
            assert forall|n: EditorGraphIndex| #[trigger] v.places()(n) == g(n) by {}
            lemma_agree_alike(v.lanes, v.places(), g);
        },
    }
}

/// A reference that enters a lane above the node that it then points at.
proof fn lemma_entered_in_step(
    v: EditorView,
    after: EditorView,
    ix: EditorGraphIndex,
    on: EditorGraphIndex,
    carry: LaneCarry,
    legs: Seq<EditorLeg>,
)
    requires
        v.in_step(),
        after.lanes == entered_lanes(v.lanes_left(ix), ix, on, carry, legs),
        forall|n: EditorGraphIndex| #[trigger]
            after.place(n) == if n == ix {
                Some(on)
            } else {
                v.place(n)
            },
    ensures
        after.in_step(),
{
    lemma_left_in_step(v, ix);
    let gone = |n: EditorGraphIndex|
        if n == ix {
            None
        } else {
            v.place(n)
        };
    lemma_entered_lanes_agree(v.lanes_left(ix), gone, ix, on, carry, legs);
    let f = |n: EditorGraphIndex|
        if n == ix {
            Some(on)
        } else {
            gone(n)
        };
    assert forall|n: EditorGraphIndex| #[trigger] f(n) == after.places()(n) by {
        assert(after.place(n) == if n == ix {
            Some(on)
        } else {
            v.place(n)
        });
    }
    lemma_agree_alike(after.lanes, f, after.places());
}

pub proof fn lemma_with_position(v: EditorView, ix: EditorGraphIndex, p: RefPosition)
    requires
        v.fits(),
        v.has_ref(ix),
    ensures
        forall|n: EditorGraphIndex| #[trigger]
            v.with_position(ix->Ref_0 as int, p).position(n) == if n == ix {
                Some(p)
            } else {
                v.position(n)
            },
{
}

/// Putting a reference somewhere keeps the commits, the references, and the lanes in step.
pub proof fn law_set_position(
    v: EditorView,
    ix: EditorGraphIndex,
    on: EditorGraphIndex,
    approach: Seq<EditorLeg>,
    ambiguous: bool,
    below: Option<EditorGraphIndex>,
)
    requires
        v.fits(),
        v.has_ref(ix),
    ensures
        v.kept(v.set_position(ix, on, approach, ambiguous, below)),
{
    let after = v.set_position(ix, on, approach, ambiguous, below);
    let p = RefPosition { on, below, ambiguous };
    lemma_with_position(v, ix, p);
    if v.in_step() {
        assert forall|n: EditorGraphIndex| #[trigger] after.place(n) == if n == ix {
            Some(on)
        } else {
            v.place(n)
        } by {
            assert(after.position(n) == v.with_position(ix->Ref_0 as int, p).position(n));
        }
        lemma_entered_in_step(
            v,
            after,
            ix,
            on,
            approach_carry(approach, v.legs_onto(on)),
            approach_legs(approach, v.legs_onto(on)),
        );
    }
}

/// Pointing a reference at another node keeps the commits, the references, and the lanes in step.
pub proof fn law_rekey_position(v: EditorView, ix: EditorGraphIndex, on: EditorGraphIndex)
    requires
        v.fits(),
    ensures
        v.kept(v.rekey_position(ix, on)),
{
    match v.position(ix) {
        Some(stored) => if stored.on != on {
            let after = v.rekey_position(ix, on);
            let p = RefPosition { on, ..stored };
            lemma_with_position(v, ix, p);
            if v.in_step() {
                assert forall|n: EditorGraphIndex| #[trigger] after.place(n) == if n == ix {
                    Some(on)
                } else {
                    v.place(n)
                } by {
                    assert(after.position(n) == v.with_position(ix->Ref_0 as int, p).position(n));
                }
                let (carry, legs) = v.carry_of(ix);
                lemma_entered_in_step(v, after, ix, on, carry, legs);
            }
        },
        None => {},
    }
}

/// Putting a reference above another one keeps the commits, the references, and the lanes in step.
pub proof fn law_set_below(v: EditorView, ix: EditorGraphIndex, below: Option<EditorGraphIndex>)
    requires
        v.fits(),
    ensures
        v.kept(v.set_below(ix, below)),
{
    match v.position(ix) {
        Some(stored) => {
            let after = v.set_below(ix, below);
            let p = RefPosition { below, ..stored };
            lemma_with_position(v, ix, p);
            if v.in_step() {
                assert forall|n: EditorGraphIndex| #[trigger] v.places()(n) == after.places()(
                    n,
                ) by {
                    assert(after.position(n) == v.with_position(ix->Ref_0 as int, p).position(n));
                }
                lemma_agree_alike(v.lanes, v.places(), after.places());
            }
        },
        None => {},
    }
}

/// Joining the lane of another reference keeps the commits, the references, and the lanes in step.
pub proof fn law_join_lane_of(
    v: EditorView,
    ix: EditorGraphIndex,
    mate: EditorGraphIndex,
    below: Option<EditorGraphIndex>,
)
    requires
        v.fits(),
        v.has_ref(ix),
    ensures
        v.kept(v.join_lane_of(ix, mate, below)),
{
    match v.position(mate) {
        Some(m) => {
            let after = v.join_lane_of(ix, mate, below);
            let p = RefPosition { below, ..m };
            lemma_with_position(v, ix, p);
            if v.in_step() {
                assert forall|n: EditorGraphIndex| #[trigger] after.place(n) == if n == ix {
                    Some(m.on)
                } else {
                    v.place(n)
                } by {
                    assert(after.position(n) == v.with_position(ix->Ref_0 as int, p).position(n));
                }
                let lanes = v.lanes_left(ix);
                if lane_of(lanes, m.on, mate) is Some {
                    lemma_left_in_step(v, ix);
                    let gone = |n: EditorGraphIndex|
                        if n == ix {
                            None
                        } else {
                            v.place(n)
                        };
                    lemma_joined_lanes_agree(lanes, gone, ix, mate, m.on);
                    let f = |n: EditorGraphIndex|
                        if n == ix {
                            Some(m.on)
                        } else {
                            gone(n)
                        };
                    assert forall|n: EditorGraphIndex| #[trigger] f(n) == after.places()(n) by {
                        assert(after.place(n) == if n == ix {
                            Some(m.on)
                        } else {
                            v.place(n)
                        });
                    }
                    lemma_agree_alike(after.lanes, f, after.places());
                } else {
                    lemma_entered_in_step(
                        v,
                        after,
                        ix,
                        m.on,
                        LaneCarry::Nothing,
                        Seq::empty(),
                    );
                }
            }
        },
        None => {},
    }
}

/// Giving a commit another parent keeps the commits, the references, and the lanes in step.
pub proof fn law_replace_parent(
    v: EditorView,
    ix: EditorGraphIndex,
    slot: usize,
    parent: EditorGraphIndex,
)
    requires
        slot < v.parents(ix).len(),
    ensures
        v.kept(v.replace_parent(ix, slot, parent)),
{
    let after = v.replace_parent(ix, slot, parent);
    if v.in_step() {
        assert forall|n: EditorGraphIndex| #[trigger] v.places()(n) == after.places()(n) by {
            assert(after.position(n) == v.position(n));
        }
        lemma_agree_alike(v.lanes, v.places(), after.places());
    }
}

/// Taking a parent from a commit keeps the commits, the references, and the lanes in step.
pub proof fn law_remove_parent(v: EditorView, ix: EditorGraphIndex, slot: usize)
    requires
        slot < v.parents(ix).len(),
    ensures
        v.kept(v.remove_parent(ix, slot)),
{
    let after = v.remove_parent(ix, slot);
    if v.in_step() {
        let edit = DropLeg { node: ix, slot };
        lemma_edited_lanes_agree(v.lanes, v.places(), edit);
        assert forall|n: EditorGraphIndex| #[trigger] v.places()(n) == after.places()(n) by {
            assert(after.position(n) == v.position(n));
        }
        lemma_agree_alike(after.lanes, v.places(), after.places());
    }
}

proof fn lemma_rehung_kept(v: EditorView, list: Seq<Member>, below: Option<EditorGraphIndex>)
    ensures
        v.kept(v.rehung(list, below)),
{
    let after = v.rehung(list, below);
    if v.in_step() {
        assert forall|n: EditorGraphIndex| #[trigger] v.places()(n) == after.places()(n) by {
            match n {
                EditorGraphIndex::Ref(r) => if r < v.refs.len() {
                    assert(after.refs[r as int].position is Some
                        <==> v.refs[r as int].position is Some);
                },
                EditorGraphIndex::Node(_) => {},
            }
        }
        lemma_agree_alike(v.lanes, v.places(), after.places());
    }
}

pub proof fn lemma_legs_moved_kept(
    v: EditorView,
    legs: Seq<EditorLeg>,
    from: EditorGraphIndex,
    to: EditorGraphIndex,
    n: int,
)
    ensures
        v.kept(v.legs_moved(legs, from, to, n)),
        v.legs_moved(legs, from, to, n).refs == v.refs,
    decreases n,
{
    if n > 0 {
        lemma_legs_moved_kept(v, legs, from, to, n - 1);
        let before = v.legs_moved(legs, from, to, n - 1);
        let (leg, slot) = legs[n - 1];
        if before.parent_at(leg, slot) == Some(from) {
            law_replace_parent(before, leg, slot, to);
            lemma_kept_twice(v, before, before.replace_parent(leg, slot, to));
        }
    }
}

pub proof fn lemma_settled_kept(
    v: EditorView,
    list: Seq<Member>,
    approach: Seq<EditorLeg>,
    ambiguous: bool,
    n: int,
)
    requires
        v.fits(),
        0 <= n <= list.len(),
        forall|i: int| 0 <= i < list.len() ==> v.has_ref((#[trigger] list[i]).0),
    ensures
        v.kept(v.settled(list, approach, ambiguous, n)),
    decreases n,
{
    if n > 0 {
        lemma_settled_kept(v, list, approach, ambiguous, n - 1);
        let before = v.settled(list, approach, ambiguous, n - 1);
        let (mate, m) = list[n - 1];
        assert(v.has_ref(list[n - 1].0));
        law_set_position(before, mate, m.on, approach, ambiguous, m.below);
        lemma_kept_twice(v, before, v.settled(list, approach, ambiguous, n));
    }
}

pub proof fn lemma_rekeyed_kept(
    v: EditorView,
    list: Seq<EditorGraphIndex>,
    onto: EditorGraphIndex,
    n: int,
)
    requires
        v.fits(),
    ensures
        v.kept(v.rekeyed(list, onto, n)),
    decreases n,
{
    if n > 0 {
        lemma_rekeyed_kept(v, list, onto, n - 1);
        let before = v.rekeyed(list, onto, n - 1);
        law_rekey_position(before, list[n - 1], onto);
        lemma_kept_twice(v, before, v.rekeyed(list, onto, n));
    }
}

/// Placing a reference keeps the commits, the references, and the lanes in step.
pub proof fn law_place_ref_keeps(v: EditorView, node: EditorGraphIndex, slot: StackSlot)
    requires
        v.fits(),
        v.has_ref(node),
    ensures
        v.kept(v.placed_ref(node, slot)),
{
    match slot {
        StackSlot::Above(target) => if v.position(target) is Some {
            let mates = resting_on(v.chain(target), target, node);
            lemma_rehung_kept(v, mates, Some(node));
            let hung = v.rehung(mates, Some(node));
            law_join_lane_of(hung, node, target, Some(target));
            lemma_kept_twice(v, hung, v.placed_ref(node, slot));
        },
        StackSlot::Below(target) => match v.position(target) {
            Some(stored) => {
                law_join_lane_of(v, node, target, stored.below);
                let joined = v.join_lane_of(node, target, stored.below);
                law_set_below(joined, target, Some(node));
                lemma_kept_twice(v, joined, v.placed_ref(node, slot));
            },
            None => {},
        },
        StackSlot::Bottom(pick) => {
            let approach = v.legs_into(pick);
            let hung = v.rehung(v.bottom_of(pick, node), Some(node));
            lemma_rehung_kept(v, v.bottom_of(pick, node), Some(node));
            law_set_position(hung, node, pick, approach, approach.len() > 1, None);
            lemma_kept_twice(v, hung, v.placed_ref(node, slot));
        },
        StackSlot::LaneTop { pick, leg } => {
            law_set_position(v, node, pick, seq![leg], false, v.lane_top(pick, leg, node));
        },
        StackSlot::Root(pick) => {
            law_set_position(v, node, pick, Seq::empty(), false, None);
        },
    }
}

proof fn lemma_made_free_kept(v: EditorView, node: EditorGraphIndex, slot: StackSlot)
    requires
        v.fits(),
    ensures
        v.kept(v.made_free(node, slot).0),
{
    match slot {
        StackSlot::Above(target) => match v.position(target) {
            None => {},
            Some(_) => {
                law_set_below(v, node, Some(target));
                let hung = v.set_below(node, Some(target));
                let mates = resting_on(hung.chain(target), target, node);
                lemma_rehung_kept(hung, mates, Some(node));
                lemma_kept_twice(v, hung, hung.rehung(mates, Some(node)));
            },
        },
        StackSlot::Below(target) => match v.position(target) {
            None => {},
            Some(stored) => {
                law_set_below(v, node, stored.below);
                let hung = v.set_below(node, stored.below);
                law_set_below(hung, target, Some(node));
                lemma_kept_twice(v, hung, hung.set_below(target, Some(node)));
            },
        },
        StackSlot::Bottom(pick) => {
            law_set_below(v, node, None);
            let hung = v.set_below(node, None);
            lemma_rehung_kept(hung, hung.bottom_of(pick, node), Some(node));
            lemma_kept_twice(v, hung, hung.rehung(hung.bottom_of(pick, node), Some(node)));
        },
        StackSlot::LaneTop { pick, leg } => {
            law_set_below(v, node, v.lane_top(pick, leg, node));
        },
        StackSlot::Root(_) => {
            law_set_below(v, node, None);
        },
    }
}

/// Moving a reference keeps the commits, the references, and the lanes in step.
pub proof fn law_move_ref_keeps(v: EditorView, node: EditorGraphIndex, slot: StackSlot)
    requires
        v.fits(),
    ensures
        v.kept(v.moved_ref(node, slot)),
{
    match v.position(node) {
        None => {},
        Some(moving) => {
            let legs = if v.sole_carrier(node) {
                Some(v.approach(node))
            } else {
                None
            };
            lemma_rehung_kept(v, v.resting(node), moving.below);
            let spliced = v.spliced_out(node, moving.below);
            lemma_made_free_kept(spliced, node, slot);
            let (free, landing) = spliced.made_free(node, slot);
            lemma_kept_twice(v, spliced, free);
            match landing {
                None => {},
                Some(landing) => {
                    let (followed, approach) = free.legs_followed(
                        node,
                        slot,
                        landing,
                        legs,
                        moving.on,
                    );
                    match (legs, free.resolve(moving.on), free.resolve(landing.on)) {
                        (Some(legs), Some(old_pick), Some(new_pick)) => {
                            let moved = if old_pick != new_pick {
                                free.legs_moved(legs, old_pick, new_pick, legs.len() as int)
                            } else {
                                free
                            };
                            lemma_legs_moved_kept(
                                free,
                                legs,
                                old_pick,
                                new_pick,
                                legs.len() as int,
                            );
                            assert(free.kept(moved));
                            match slot {
                                StackSlot::Above(target) => if moved.position(target) is Some {
                                    let mates = moved.not_above(target, node);
                                    lemma_chain_has_refs(moved, target);
                                    lemma_kept_has_refs(
                                        moved,
                                        moved.chain(target),
                                        moved.no_higher(target, node),
                                    );
                                    lemma_settled_kept(
                                        moved,
                                        mates,
                                        approach,
                                        approach.len() > 1,
                                        mates.len() as int,
                                    );
                                    lemma_kept_twice(free, moved, followed);
                                },
                                _ => {},
                            }
                        },
                        _ => {},
                    }
                    assert(free.kept(followed));
                    lemma_kept_twice(v, free, followed);
                    law_set_position(
                        followed,
                        node,
                        landing.on,
                        approach,
                        approach.len() > 1,
                        landing.below,
                    );
                    lemma_kept_twice(v, followed, v.moved_ref(node, slot));
                },
            }
        },
    }
}

/// Pointing a reference at another commit keeps the commits, the references, and the lanes in step.
pub proof fn law_repoint_ref_keeps(v: EditorView, node: EditorGraphIndex, onto: EditorGraphIndex)
    requires
        v.fits(),
        v.has_ref(node),
    ensures
        v.kept(v.repointed_ref(node, onto)),
{
    law_rekey_position(v, node, onto);
    match v.position(node) {
        None => {
            law_place_ref_keeps(v, node, StackSlot::Root(onto));
        },
        Some(stored) => match v.resolve(stored.on) {
            Some(old_pick) => if old_pick != onto {
                let approach = v.approach(node);
                let moved = v.legs_moved(approach, old_pick, onto, approach.len() as int);
                lemma_legs_moved_kept(v, approach, old_pick, onto, approach.len() as int);
                let below = moved.mate_below(node, onto, moved.depth(node));
                let carried = subtree(moved.live_placed(), node);
                let mates = moved.left_behind(node, carried);
                lemma_chain_has_refs(moved, node);
                lemma_kept_has_refs(moved, moved.chain(node), not_carried(node, carried));
                let settled = moved.settled(mates, Seq::empty(), false, mates.len() as int);
                lemma_settled_kept(moved, mates, Seq::empty(), false, mates.len() as int);
                lemma_kept_twice(v, moved, settled);
                let keyed = settled.rekeyed(carried.skip(1), onto, carried.len() - 1);
                lemma_rekeyed_kept(settled, carried.skip(1), onto, carried.len() - 1);
                lemma_kept_twice(v, settled, keyed);
                law_set_position(keyed, node, onto, approach, stored.ambiguous, below);
                lemma_kept_twice(v, keyed, v.repointed_ref(node, onto));
            },
            None => {},
        },
    }
}

proof fn lemma_legs_dropped_kept(
    v: EditorView,
    legs: Seq<EditorLeg>,
    pick: EditorGraphIndex,
    n: int,
)
    ensures
        v.kept(v.legs_dropped(legs, pick, n)),
        v.legs_dropped(legs, pick, n).refs == v.refs,
    decreases legs.len() - n,
{
    if n < legs.len() {
        lemma_legs_dropped_kept(v, legs, pick, n + 1);
        let after = v.legs_dropped(legs, pick, n + 1);
        let (leg, slot) = legs[n];
        if after.parent_at(leg, slot) == Some(pick) {
            law_remove_parent(after, leg, slot);
            lemma_kept_twice(v, after, after.remove_parent(leg, slot));
        }
    }
}

impl EditorView {
    /// The graph just before the unhooked reference gets its new position.
    pub open spec fn unhooking(self, node: EditorGraphIndex, drop_legs: bool) -> EditorView {
        let unhooked = self.position(node)->0;
        let closed = self.rehung(resting_on(self.chain(node), node, node), unhooked.below);
        match closed.resolve(unhooked.on) {
            Some(pick) => if drop_legs {
                closed.legs_dropped(sorted::<EditorLeg>(closed.approach(node)), pick, 0)
            } else {
                closed
            },
            None => closed,
        }
    }
}

proof fn lemma_unhooking_kept(v: EditorView, node: EditorGraphIndex, drop_legs: bool)
    requires
        v.position(node) is Some,
    ensures
        v.kept(v.unhooking(node, drop_legs)),
{
    let unhooked = v.position(node)->0;
    let mates = resting_on(v.chain(node), node, node);
    let closed = v.rehung(mates, unhooked.below);
    lemma_rehung_kept(v, mates, unhooked.below);
    match closed.resolve(unhooked.on) {
        Some(pick) => if drop_legs {
            let legs = sorted::<EditorLeg>(closed.approach(node));
            lemma_legs_dropped_kept(closed, legs, pick, 0);
            lemma_kept_twice(v, closed, closed.legs_dropped(legs, pick, 0));
        },
        None => {},
    }
}

/// Unhooking a reference keeps the commits, the references, and the lanes in step.
pub proof fn law_unhook_ref_keeps(v: EditorView, node: EditorGraphIndex, drop_legs: bool)
    requires
        v.fits(),
    ensures
        v.kept(v.unhooked_ref(node, drop_legs)),
{
    match v.position(node) {
        None => {},
        Some(unhooked) => {
            lemma_unhooking_kept(v, node, drop_legs);
            let before = v.unhooking(node, drop_legs);
            law_set_position(before, node, unhooked.on, Seq::empty(), false, unhooked.below);
            lemma_kept_twice(v, before, v.unhooked_ref(node, drop_legs));
        },
    }
}

proof fn lemma_slice_moved_kept(
    v: EditorView,
    slice: Seq<EditorGraphIndex>,
    lead: EditorGraphIndex,
    dest: EditorGraphIndex,
    n: int,
)
    requires
        v.fits(),
    ensures
        v.kept(v.slice_moved(slice, lead, dest, n)),
    decreases n,
{
    if n > 0 {
        lemma_slice_moved_kept(v, slice, lead, dest, n - 1);
        let before = v.slice_moved(slice, lead, dest, n - 1);
        let node = slice[n - 1];
        match before.position(node) {
            Some(stored) => {
                law_set_position(
                    before,
                    node,
                    dest,
                    before.approach(node),
                    stored.ambiguous,
                    if node != lead {
                        stored.below
                    } else {
                        None
                    },
                );
                lemma_kept_twice(v, before, v.slice_moved(slice, lead, dest, n));
            },
            None => {},
        }
    }
}

/// Moving a slice of a stack keeps the commits, the references, and the lanes in step.
pub proof fn law_transfer_stack_keeps(
    v: EditorView,
    lead: EditorGraphIndex,
    source: EditorGraphIndex,
    dest: EditorGraphIndex,
)
    requires
        v.fits(),
    ensures
        v.kept(v.transferred_stack(lead, source, dest)),
{
    let slice = subtree(v.placed().filter(v.lane_on(source, v.approach(lead))), lead);
    lemma_slice_moved_kept(v, slice, lead, dest, slice.len() as int);
}

proof fn lemma_landed_kept(
    v: EditorView,
    moves: Seq<EditorGraphIndex>,
    dest: EditorGraphIndex,
    n: int,
)
    requires
        v.fits(),
    ensures
        v.kept(v.landed(moves, dest, n)),
    decreases n,
{
    if n > 0 {
        lemma_landed_kept(v, moves, dest, n - 1);
        let before = v.landed(moves, dest, n - 1);
        let node = moves[n - 1];
        law_set_below(before, node, before.mate_below(node, dest, before.depth(node)));
        lemma_kept_twice(v, before, v.landed(moves, dest, n));
    }
}

/// Carrying a part of a lane elsewhere keeps the commits, the references, and the lanes in step.
pub proof fn law_carry_stack_above_keeps(
    v: EditorView,
    source: EditorGraphIndex,
    lane: Seq<EditorLeg>,
    depth: nat,
    dest: EditorGraphIndex,
)
    requires
        v.fits(),
    ensures
        v.kept(v.carried_stack(source, lane, depth, dest)),
{
    let moves = v.placed().filter(v.higher_in_lane(source, lane, depth)).map_values(
        |m: Member| m.0,
    );
    lemma_rekeyed_kept(v, moves, dest, moves.len() as int);
    let keyed = v.rekeyed(moves, dest, moves.len() as int);
    lemma_landed_kept(keyed, moves, dest, moves.len() as int);
    lemma_kept_twice(v, keyed, v.carried_stack(source, lane, depth, dest));
}

proof fn lemma_bridged_kept(
    v: EditorView,
    moves: Seq<Member>,
    depths: Seq<nat>,
    top_depth: nat,
    bridge_node: EditorGraphIndex,
    bridge: Seq<EditorLeg>,
    n: int,
)
    requires
        v.fits(),
        0 <= n <= moves.len(),
        forall|i: int| 0 <= i < moves.len() ==> v.has_ref((#[trigger] moves[i]).0),
    ensures
        v.kept(v.bridged(moves, depths, top_depth, bridge_node, bridge, n)),
    decreases n,
{
    if n > 0 {
        lemma_bridged_kept(v, moves, depths, top_depth, bridge_node, bridge, n - 1);
        let before = v.bridged(moves, depths, top_depth, bridge_node, bridge, n - 1);
        let (node, stored) = moves[n - 1];
        assert(v.has_ref(moves[n - 1].0));
        let below = match stored.below {
            Some(b) => Some(b),
            None => before.mate_below(node, bridge_node, depths[n - 1] + top_depth + 1),
        };
        law_set_position(before, node, bridge_node, bridge, bridge.len() > 1, below);
        lemma_kept_twice(
            v,
            before,
            v.bridged(moves, depths, top_depth, bridge_node, bridge, n),
        );
    }
}

/// Stacking all references of a commit above another reference keeps the commits, the references,
/// and the lanes in step.
pub proof fn law_land_stack_above_keeps(
    v: EditorView,
    source: EditorGraphIndex,
    top: EditorGraphIndex,
    bridge_node: EditorGraphIndex,
)
    requires
        v.fits(),
    ensures
        v.kept(v.landed_stack(source, top, bridge_node)),
{
    match v.position(top) {
        None => {},
        Some(stored) => {
            let bridge = v.legs_into(bridge_node);
            let put = v.set_position(top, stored.on, bridge, bridge.len() > 1, stored.below);
            law_set_position(v, top, stored.on, bridge, bridge.len() > 1, stored.below);
            let moves = put.seated(source);
            lemma_kept_placed(put, |m: Member| put.resolve(m.1.on) == Some(source));
            let depths = moves.map_values(|m: Member| put.depth(m.0));
            lemma_bridged_kept(
                put,
                moves,
                depths,
                v.depth(top),
                bridge_node,
                bridge,
                moves.len() as int,
            );
            lemma_kept_twice(v, put, v.landed_stack(source, top, bridge_node));
        },
    }
}

/// Readopting references keeps the commits, the references, and the lanes in step.
pub proof fn law_readopt_keeps(v: EditorView, onto: EditorGraphIndex)
    requires
        v.fits(),
    ensures
        v.kept(v.readopted(onto)),
{
    let dangling = v.placed().filter(v.dangles()).map_values(|m: Member| m.0);
    lemma_rekeyed_kept(v, dangling, onto, dangling.len() as int);
}

proof fn lemma_upper_moved_kept(
    v: EditorView,
    members: Seq<Member>,
    moved: Seq<EditorGraphIndex>,
    upper: EditorGraphIndex,
    n: int,
)
    requires
        v.fits(),
    ensures
        v.kept(v.upper_moved(members, moved, upper, n).0),
    decreases n,
{
    if n > 0 {
        lemma_upper_moved_kept(v, members, moved, upper, n - 1);
        let (before, _) = v.upper_moved(members, moved, upper, n - 1);
        let (node, member) = members[n - 1];
        if moved.contains(node) {
            law_rekey_position(before, node, upper);
            let keyed = before.rekey_position(node, upper);
            lemma_kept_twice(v, before, keyed);
            law_set_below(keyed, node, None);
            lemma_kept_twice(v, keyed, keyed.set_below(node, None));
        }
    }
}

/// Splitting a chain keeps the commits, the references, and the lanes in step.
pub proof fn law_split_chain_keeps(
    v: EditorView,
    at: EditorGraphIndex,
    boundary: SplitBoundary,
    upper: EditorGraphIndex,
)
    requires
        v.fits(),
    ensures
        v.kept(v.split_chain(at, boundary, upper)),
{
    if v.position(at) is Some {
        let members = v.chain(at);
        let moved = v.split_off(at, boundary);
        let (up, sat_on) = v.upper_moved(members, moved, upper, members.len() as int);
        lemma_upper_moved_kept(v, members, moved, upper, members.len() as int);
        let left = up.placed().filter(crate::arrangement::stranded(moved));
        lemma_rehung_kept(up, left, sat_on);
        lemma_kept_twice(v, up, v.split_chain(at, boundary, upper));
    }
}

/// Settling what a split left behind keeps the commits, the references, and the lanes in step.
pub proof fn law_settle_chain_lower_keeps(v: EditorView, lower: Seq<Member>, leg: EditorLeg)
    requires
        v.fits(),
        forall|i: int| 0 <= i < lower.len() ==> v.has_ref((#[trigger] lower[i]).0),
    ensures
        v.kept(v.settled(lower, seq![leg], false, lower.len() as int)),
{
    lemma_settled_kept(v, lower, seq![leg], false, lower.len() as int);
}

proof fn lemma_chain_joined_kept(
    v: EditorView,
    members: Seq<Member>,
    approach: Seq<EditorLeg>,
    n: int,
)
    requires
        v.fits(),
        0 <= n <= members.len(),
        forall|i: int| 0 <= i < members.len() ==> v.has_ref((#[trigger] members[i]).0),
    ensures
        v.kept(v.chain_joined(members, approach, n)),
    decreases n,
{
    if n > 0 {
        lemma_chain_joined_kept(v, members, approach, n - 1);
        let before = v.chain_joined(members, approach, n - 1);
        let (node, member) = members[n - 1];
        assert(v.has_ref(members[n - 1].0));
        law_set_position(
            before,
            node,
            member.on,
            approach,
            member.ambiguous || approach.len() > 1,
            member.below,
        );
        lemma_kept_twice(v, before, v.chain_joined(members, approach, n));
    }
}

/// A leg that enters a chain keeps the commits, the references, and the lanes in step.
pub proof fn law_apply_chain_join_keeps(
    v: EditorView,
    members: Seq<Member>,
    approach: Seq<EditorLeg>,
)
    requires
        v.fits(),
        forall|i: int| 0 <= i < members.len() ==> v.has_ref((#[trigger] members[i]).0),
    ensures
        v.kept(v.chain_joined(members, approach, members.len() as int)),
{
    lemma_chain_joined_kept(v, members, approach, members.len() as int);
}

proof fn lemma_repositioned_kept(
    v: EditorView,
    moves: Seq<Member>,
    to: EditorGraphIndex,
    reclassify: bool,
    n: int,
)
    requires
        v.fits(),
        0 <= n <= moves.len(),
        forall|i: int| 0 <= i < moves.len() ==> v.has_ref((#[trigger] moves[i]).0),
    ensures
        v.kept(v.repositioned(moves, to, reclassify, n)),
    decreases n,
{
    if n > 0 {
        lemma_repositioned_kept(v, moves, to, reclassify, n - 1);
        let before = v.repositioned(moves, to, reclassify, n - 1);
        let (node, stored) = moves[n - 1];
        assert(v.has_ref(moves[n - 1].0));
        if reclassify {
            law_set_position(
                before,
                node,
                to,
                before.approach(node),
                stored.ambiguous,
                stored.below,
            );
        } else {
            law_rekey_position(before, node, to);
        }
        lemma_kept_twice(v, before, v.repositioned(moves, to, reclassify, n));
    }
}

/// Moving all references of a commit keeps the commits, the references, and the lanes in step.
pub proof fn law_reposition_refs_keeps(
    v: EditorView,
    from: EditorGraphIndex,
    to: EditorGraphIndex,
    reclassify: bool,
)
    requires
        v.fits(),
    ensures
        v.kept(v.repositioned(v.seated(from), to, reclassify, v.seated(from).len() as int)),
{
    lemma_kept_placed(v, |m: Member| v.resolve(m.1.on) == Some(from));
    lemma_repositioned_kept(v, v.seated(from), to, reclassify, v.seated(from).len() as int);
}

/// The lane that a reference has entered is found again, and carries what it was to carry.
proof fn lemma_entered_lane(
    v: EditorView,
    after: EditorView,
    ix: EditorGraphIndex,
    on: EditorGraphIndex,
    carry: LaneCarry,
    legs: Seq<EditorLeg>,
)
    requires
        after.in_step(),
        after.place(ix) == Some(on),
        after.lanes == entered_lanes(v.lanes_left(ix), ix, on, carry, legs),
    ensures
        lane_of(after.lanes, on, ix) matches Some(lane) && carries(lane, carry, legs),
{
    lane_laws::lemma_entered_lane(v.lanes_left(ix), after.places(), ix, on, carry, legs);
}

proof fn lemma_filter_all(legs: Seq<EditorLeg>, approach: Seq<EditorLeg>)
    requires
        forall|i: int| 0 <= i < legs.len() ==> approach.contains(#[trigger] legs[i]),
    ensures
        legs.filter(|l: EditorLeg| approach.contains(l)) == legs,
    decreases legs.len(),
{
    reveal(Seq::filter);
    if legs.len() > 0 {
        let d = legs.drop_last();
        assert forall|i: int| 0 <= i < d.len() implies approach.contains(#[trigger] d[i]) by {
            assert(d[i] == legs[i]);
        }
        lemma_filter_all(d, approach);
        assert(approach.contains(legs[legs.len() - 1]));
        assert(legs =~= d.push(legs.last()));
    } else {
        assert(legs.filter(|l: EditorLeg| approach.contains(l)) =~= legs);
    }
}

proof fn lemma_filter_nothing(legs: Seq<EditorLeg>)
    ensures
        legs.filter(|l: EditorLeg| Seq::<EditorLeg>::empty().contains(l)) == Seq::<
            EditorLeg,
        >::empty(),
    decreases legs.len(),
{
    reveal(Seq::filter);
    if legs.len() > 0 {
        lemma_filter_nothing(legs.drop_last());
    } else {
        assert(legs.filter(|l: EditorLeg| Seq::<EditorLeg>::empty().contains(l)) =~= Seq::empty());
    }
}

/// A reference that was put somewhere is approached through those of the legs there that it was to be
/// approached through.
pub proof fn lemma_approach_read_back(
    v: EditorView,
    ix: EditorGraphIndex,
    on: EditorGraphIndex,
    approach: Seq<EditorLeg>,
    ambiguous: bool,
    below: Option<EditorGraphIndex>,
)
    requires
        v.fits(),
        v.in_step(),
        v.has_ref(ix),
        v.set_position(ix, on, approach, ambiguous, below).resolve(on) == v.resolve(on),
    ensures
        v.set_position(ix, on, approach, ambiguous, below).approach(ix) == v.legs_onto(on).filter(
            |l: EditorLeg| approach.contains(l),
        ),
{
    let after = v.set_position(ix, on, approach, ambiguous, below);
    law_set_position(v, ix, on, approach, ambiguous, below);
    let legs = v.legs_onto(on);
    if let Some(pick) = v.resolve(on) {
        lemma_same_legs(v, after, pick);
    }
    assert(after.legs_onto(on) == legs);
    let carry = approach_carry(approach, legs);
    let named = approach_legs(approach, legs);
    lemma_entered_lane(v, after, ix, on, carry, named);
    let lane = lane_of(after.lanes, on, ix)->0;
    let wanted = |l: EditorLeg| approach.contains(l);
    if approach.len() == 0 {
        assert(approach =~= Seq::empty());
        lemma_filter_nothing(legs);
        assert(wanted =~= (|l: EditorLeg| Seq::<EditorLeg>::empty().contains(l)));
    } else if carry == LaneCarry::All {
        assert forall|i: int| 0 <= i < legs.len() implies approach.contains(#[trigger] legs[i]) by {
            assert(legs.contains(legs[i]));
        }
        lemma_filter_all(legs, approach);
    } else {
        assert(lane.legs == approach);
        assert(wanted =~= (|l: EditorLeg| lane.legs.contains(l)));
    }
}

/// A reference that was put on a commit is read back where it was put: it points at the commit, sits
/// on what it was to sit on, and is approached through those of the legs into the commit that it was
/// to be approached through.
pub proof fn law_position_read_back(
    v: EditorView,
    ix: EditorGraphIndex,
    on: EditorGraphIndex,
    approach: Seq<EditorLeg>,
    ambiguous: bool,
    below: Option<EditorGraphIndex>,
)
    requires
        v.fits(),
        v.in_step(),
        v.has_ref(ix),
        v.is_pick(on),
    ensures
        ({
            let after = v.set_position(ix, on, approach, ambiguous, below);
            &&& after.position(ix) == Some(RefPosition { on, below, ambiguous })
            &&& after.seat(ix) == Some(on)
            &&& after.approach(ix) == v.legs_into(on).filter(
                |l: EditorLeg| approach.contains(l),
            )
        }),
{
    let after = v.set_position(ix, on, approach, ambiguous, below);
    assert(v.resolve(on) == Some(on));
    assert(after.resolve(on) == Some(on));
    lemma_approach_read_back(v, ix, on, approach, ambiguous, below);
}

/// The legs into a node depend on the commits and their parents alone.
pub proof fn lemma_same_legs(a: EditorView, b: EditorView, on: EditorGraphIndex)
    requires
        a.nodes == b.nodes,
    ensures
        a.legs_into(on) == b.legs_into(on),
{
    let f = |l: EditorLeg| a.is_pick(l.0);
    let g = |l: EditorLeg| b.is_pick(l.0);
    assert forall|l: EditorLeg| #[trigger] f(l) == g(l) by {
        assert(a.pick(l.0) == b.pick(l.0));
    }
    assert(f =~= g);
}

/// Nothing descends into a reference that was unhooked, and it points where it pointed.
pub proof fn law_unhooked_is_root(v: EditorView, node: EditorGraphIndex, drop_legs: bool)
    requires
        v.fits(),
        v.in_step(),
        v.position(node) is Some,
    ensures
        v.unhooked_ref(node, drop_legs).approach(node) == Seq::<EditorLeg>::empty(),
        v.unhooked_ref(node, drop_legs).is_root(node),
        v.unhooked_ref(node, drop_legs).place(node) == v.place(node),
        v.unhooked_ref(node, drop_legs).below(node) == v.below(node),
{
    let unhooked = v.position(node)->0;
    lemma_unhooking_kept(v, node, drop_legs);
    let before = v.unhooking(node, drop_legs);
    let after = v.unhooked_ref(node, drop_legs);
    law_set_position(before, node, unhooked.on, Seq::empty(), false, unhooked.below);
    let legs = before.legs_onto(unhooked.on);
    lemma_entered_lane(
        before,
        after,
        node,
        unhooked.on,
        approach_carry(Seq::empty(), legs),
        approach_legs(Seq::empty(), legs),
    );
}

/// Nothing rests on a reference that was spliced out, unless it is put on itself.
pub proof fn law_spliced_out_carries_nothing(
    v: EditorView,
    node: EditorGraphIndex,
    onto: Option<EditorGraphIndex>,
    other: EditorGraphIndex,
)
    requires
        v.fits(),
        onto != Some(node),
        other != node,
    ensures
        v.spliced_out(node, onto).below(other) != Some(node),
        v.below(other) != Some(node) ==> v.spliced_out(node, onto).position(other) == v.position(
            other,
        ),
        v.below(other) == Some(node) ==> v.spliced_out(node, onto).below(other) == onto,
{
    let resting = v.resting(node);
    let test = rests_on(node, node);
    match v.position(other) {
        Some(stored) => {
            v.lemma_placed();
            let m = (other, stored);
            assert(v.placed().contains(m));
            lemma_filter_contains(v.placed(), test, m);
            if stored.below == Some(node) {
                assert(resting.contains(m));
                let i = choose|i: int| 0 <= i < resting.len() && resting[i] == m;
                assert(resting[i].0 == other);
                assert(EditorView::listed(resting, other));
            } else if EditorView::listed(resting, other) {
                let i = choose|i: int| 0 <= i < resting.len() && (#[trigger] resting[i]).0 == other;
                lemma_kept_placed(v, test);
                assert(v.position(resting[i].0) == Some(resting[i].1));
                assert(test(resting[i]));
            }
        },
        None => {},
    }
}

/// A reference that is placed with nothing that descends into it changes no other position.
pub proof fn law_root_placement_is_alone(
    v: EditorView,
    node: EditorGraphIndex,
    pick: EditorGraphIndex,
    other: EditorGraphIndex,
)
    requires
        v.fits(),
        v.has_ref(node),
        other != node,
    ensures
        v.placed_ref(node, StackSlot::Root(pick)).position(other) == v.position(other),
        v.placed_ref(node, StackSlot::Root(pick)).position(node) == Some(
            RefPosition { on: pick, below: None, ambiguous: false },
        ),
{
    lemma_with_position(v, node, RefPosition { on: pick, below: None, ambiguous: false });
    let after = v.placed_ref(node, StackSlot::Root(pick));
    let p = RefPosition { on: pick, below: None, ambiguous: false };
    assert(after.position(other) == v.with_position(node->Ref_0 as int, p).position(other));
    assert(after.position(node) == v.with_position(node->Ref_0 as int, p).position(node));
}

/// Where references are after some of them were pointed at `onto`.
pub proof fn lemma_rekeyed_places(
    v: EditorView,
    list: Seq<EditorGraphIndex>,
    onto: EditorGraphIndex,
    n: int,
    ix: EditorGraphIndex,
)
    requires
        v.fits(),
        0 <= n <= list.len(),
    ensures
        v.rekeyed(list, onto, n).nodes == v.nodes,
        v.rekeyed(list, onto, n).refs.len() == v.refs.len(),
        v.rekeyed(list, onto, n).position(ix) == match v.position(ix) {
            Some(p) => Some(
                if list.take(n).contains(ix) {
                    RefPosition { on: onto, ..p }
                } else {
                    p
                },
            ),
            None => None,
        },
    decreases n,
{
    if n > 0 {
        lemma_rekeyed_places(v, list, onto, n - 1, ix);
        let before = v.rekeyed(list, onto, n - 1);
        let after = v.rekeyed(list, onto, n);
        let x = list[n - 1];
        assert(list.take(n) =~= list.take(n - 1).push(x));
        crate::seqs::lemma_push_contains(list.take(n - 1), x, ix);
        match before.position(x) {
            Some(p) => {
                if p.on != onto {
                    let q = RefPosition { on: onto, ..p };
                    lemma_with_position(before, x, q);
                    assert(after.position(ix) == before.with_position(
                        x->Ref_0 as int,
                        q,
                    ).position(ix));
                }
            },
            None => {},
        }
    } else {
        assert(list.take(0) =~= Seq::empty());
    }
}

proof fn lemma_resolve_more(v: EditorView, ix: EditorGraphIndex, n: nat, m: nat)
    requires
        n <= m,
        v.resolve_in(ix, n) is Some,
    ensures
        v.resolve_in(ix, m) == v.resolve_in(ix, n),
    decreases n,
{
    if !v.is_pick(ix) {
        match v.position(ix) {
            Some(p) => {
                lemma_resolve_more(v, p.on, (n - 1) as nat, (m - 1) as nat);
            },
            None => {
                lemma_resolve_more(v, v.parents(ix)[0], (n - 1) as nat, (m - 1) as nat);
            },
        }
    }
}

/// What resolved before resolves to the same commit after the dangling references were readopted.
proof fn lemma_readopted_resolve(v: EditorView, onto: EditorGraphIndex, ix: EditorGraphIndex, n: nat)
    requires
        v.fits(),
        n <= WALK_LIMIT,
        v.resolve_in(ix, n) is Some,
    ensures
        v.readopted(onto).resolve_in(ix, n) == v.resolve_in(ix, n),
    decreases n,
{
    let dangling = v.placed().filter(v.dangles()).map_values(|m: Member| m.0);
    let after = v.readopted(onto);
    lemma_rekeyed_places(v, dangling, onto, dangling.len() as int, ix);
    assert(dangling.take(dangling.len() as int) =~= dangling);
    assert(after.pick(ix) == v.pick(ix));
    assert(after.parents(ix) == v.parents(ix));
    if !v.is_pick(ix) {
        match v.position(ix) {
            Some(p) => {
                lemma_resolve_more(v, p.on, (n - 1) as nat, WALK_LIMIT as nat);
                assert(!dangling.contains(ix)) by {
                    if dangling.contains(ix) {
                        lemma_dangling(v, ix);
                    }
                }
                lemma_readopted_resolve(v, onto, p.on, (n - 1) as nat);
            },
            None => {
                lemma_readopted_resolve(v, onto, v.parents(ix)[0], (n - 1) as nat);
            },
        }
    }
}

/// The references whose commit is gone, and no others.
pub proof fn lemma_dangling(v: EditorView, ix: EditorGraphIndex)
    requires
        v.fits(),
    ensures
        v.placed().filter(v.dangles()).map_values(|m: Member| m.0).contains(ix) <==> (v.position(
            ix,
        ) matches Some(p) && v.resolve(p.on) is None),
{
    let kept = v.placed().filter(v.dangles());
    let dangling = kept.map_values(|m: Member| m.0);
    lemma_kept_placed(v, v.dangles());
    if dangling.contains(ix) {
        let i = choose|i: int| 0 <= i < dangling.len() && dangling[i] == ix;
        assert(kept[i].0 == ix);
        assert(v.position(kept[i].0) == Some(kept[i].1));
    }
    if v.position(ix) matches Some(p) && v.resolve(p.on) is None {
        let m = (ix, v.position(ix)->0);
        v.lemma_placed();
        assert(v.placed().contains(m));
        lemma_filter_contains(v.placed(), v.dangles(), m);
        assert(kept.contains(m));
        let i = choose|i: int| 0 <= i < kept.len() && kept[i] == m;
        assert(dangling[i] == ix);
    }
}

/// No reference dangles after the dangling ones were readopted by a commit: those are on it then,
/// and the others are on the commit that they were on.
pub proof fn law_readopted_on_commits(v: EditorView, onto: EditorGraphIndex, ix: EditorGraphIndex)
    requires
        v.fits(),
        v.is_pick(onto),
        v.position(ix) is Some,
    ensures
        v.seat(ix) is None ==> v.readopted(onto).seat(ix) == Some(onto),
        v.seat(ix) is Some ==> v.readopted(onto).seat(ix) == v.seat(ix),
{
    let dangling = v.placed().filter(v.dangles()).map_values(|m: Member| m.0);
    let after = v.readopted(onto);
    lemma_rekeyed_places(v, dangling, onto, dangling.len() as int, ix);
    assert(dangling.take(dangling.len() as int) =~= dangling);
    lemma_dangling(v, ix);
    let p = v.position(ix)->0;
    if v.resolve(p.on) is None {
        assert(after.pick(onto) == v.pick(onto));
        assert(after.resolve(onto) == Some(onto));
    } else {
        lemma_readopted_resolve(v, onto, p.on, WALK_LIMIT as nat);
    }
}

/// What the lane of another reference carries does not change when a reference leaves.
pub proof fn lemma_left_others(v: EditorView, ix: EditorGraphIndex, j: EditorGraphIndex)
    requires
        v.in_step(),
        j != ix,
        v.position(j) is Some,
    ensures
        ({
            let key = v.position(j)->0.on;
            let (old_lane, new_lane) = (
                lane_of(v.lanes, key, j),
                lane_of(v.lanes_left(ix), key, j),
            );
            &&& old_lane is Some && new_lane is Some
            &&& old_lane->0.carry == new_lane->0.carry
            &&& old_lane->0.legs == new_lane->0.legs
        }),
{
    let key = v.position(j)->0.on;
    assert(v.places()(j) == Some(key));
    lemma_own_lane(v.lanes, v.places(), j, key);
    lemma_left_in_step(v, ix);
    let gone = |n: EditorGraphIndex|
        if n == ix {
            None
        } else {
            v.place(n)
        };
    if let Some(p) = v.position(ix) {
        let g = place_gone(v.places(), ix);
        assert forall|n: EditorGraphIndex| #[trigger] gone(n) == g(n) by {}
        lemma_agree_alike(v.lanes_left(ix), gone, g);
        lemma_left_keeps(v.lanes, v.places(), ix, p.on, j, key);
    }
}

/// A reference that is put somewhere leaves another one where it is, and approached as it was if what
/// it points at stands for the same commit.
pub proof fn lemma_other_left_alone(
    v: EditorView,
    ix: EditorGraphIndex,
    on: EditorGraphIndex,
    approach: Seq<EditorLeg>,
    ambiguous: bool,
    below: Option<EditorGraphIndex>,
    j: EditorGraphIndex,
)
    requires
        v.fits(),
        v.in_step(),
        v.has_ref(ix),
        j != ix,
        v.position(j) is Some,
        v.set_position(ix, on, approach, ambiguous, below).resolve(v.position(j)->0.on)
            == v.resolve(v.position(j)->0.on),
    ensures
        ({
            let after = v.set_position(ix, on, approach, ambiguous, below);
            &&& after.position(j) == v.position(j)
            &&& after.approach(j) == v.approach(j)
        }),
{
    let after = v.set_position(ix, on, approach, ambiguous, below);
    let key = v.position(j)->0.on;
    law_set_position(v, ix, on, approach, ambiguous, below);
    lemma_with_position(v, ix, RefPosition { on, below, ambiguous });
    assert(after.position(j) == v.with_position(
        ix->Ref_0 as int,
        RefPosition { on, below, ambiguous },
    ).position(j));
    lemma_left_others(v, ix, j);
    let left = v.lanes_left(ix);
    let carry = approach_carry(approach, v.legs_onto(on));
    let legs = approach_legs(approach, v.legs_onto(on));
    lemma_left_in_step(v, ix);
    let gone = |n: EditorGraphIndex|
        if n == ix {
            None
        } else {
            v.place(n)
        };
    assert(after.places()(j) == Some(key));
    lemma_entered_keeps(left, gone, after.places(), ix, on, carry, legs, j, key);
    if let Some(pick) = v.resolve(key) {
        lemma_same_legs(v, after, pick);
    }
    assert(after.legs_onto(key) == v.legs_onto(key));
    let (old_lane, new_lane) = (lane_of(v.lanes, key, j)->0, lane_of(after.lanes, key, j)->0);
    assert(old_lane.carry == new_lane.carry && old_lane.legs == new_lane.legs);
    assert(v.approach(j) == after.approach(j));
}

/// A reference that is put somewhere leaves the other references alone: those that sit on commits
/// sit where they sat, and are approached as they were.
pub proof fn law_set_position_leaves_others(
    v: EditorView,
    ix: EditorGraphIndex,
    on: EditorGraphIndex,
    approach: Seq<EditorLeg>,
    ambiguous: bool,
    below: Option<EditorGraphIndex>,
    j: EditorGraphIndex,
)
    requires
        v.fits(),
        v.in_step(),
        v.has_ref(ix),
        j != ix,
        v.position(j) matches Some(p) && v.is_pick(p.on),
    ensures
        ({
            let after = v.set_position(ix, on, approach, ambiguous, below);
            &&& after.position(j) == v.position(j)
            &&& after.approach(j) == v.approach(j)
        }),
{
    let after = v.set_position(ix, on, approach, ambiguous, below);
    let key = v.position(j)->0.on;
    assert(v.resolve(key) == Some(key));
    assert(after.pick(key) == v.pick(key));
    assert(after.resolve(key) == Some(key));
    lemma_other_left_alone(v, ix, on, approach, ambiguous, below, j);
}

} // verus!
