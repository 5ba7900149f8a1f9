//! What rests on what: each reference on one that sits on the same commit, and none on itself.

use crate::arrangement::{
    all_different, law_subtree, lemma_filter_different, not_carried, resting_on, rests_before,
    rests_on, stays, stranded, subtree, LandingView, Member, SplitBoundary, StackSlot,
};
use crate::arrangement_laws::{lemma_dangling, lemma_rekeyed_places};
use crate::editor_graph::{
    lemma_placed_refs, EditorGraphIndex, EditorLeg, EditorView, RefPosition, WALK_LIMIT,
};
use crate::lanes::lane_of;
use crate::order::{lemma_sorted_contains, sorted};
use crate::positions::lemma_kept_placed;
use crate::seqs::{lemma_filter_contains, lemma_push_contains};
use vstd::prelude::*;

verus! {

/// A height for each reference.
pub type Height = spec_fn(EditorGraphIndex) -> nat;

impl EditorView {
    /// References point at nodes, and what is left of a commit leads to a node.
    pub open spec fn grounded(self) -> bool {
        &&& forall|ix: EditorGraphIndex|
            (#[trigger] self.position(ix)) matches Some(p) ==> p.on is Node
        &&& forall|i: int|
            0 <= i < self.nodes.len() && (#[trigger] self.nodes[i]).pick is None
                && self.nodes[i].parents.len() > 0 ==> self.nodes[i].parents[0] is Node
    }

    /// What is underneath the reference is a reference that sits on the same commit, and lower.
    pub open spec fn rests_well(self, ix: EditorGraphIndex, height: Height) -> bool {
        match self.below(ix) {
            Some(b) => {
                &&& self.position(b) is Some
                &&& self.seat(b) == self.seat(ix)
                &&& height(b) < height(ix)
            },
            None => true,
        }
    }

    /// What is underneath each reference is a reference that sits on the same commit, and lower.
    pub open spec fn rests_truly(self, height: Height) -> bool {
        forall|ix: EditorGraphIndex|
            #![trigger self.below(ix)]
            self.rests_well(ix, height)
    }

    /// Each reference rests on references that sit on the same commit, and not on itself.
    pub open spec fn stacked(self) -> bool {
        &&& self.grounded()
        &&& exists|height: Height| #[trigger] self.rests_truly(height)
    }

    /// `other` has the same commits, and what is left of commits leads to the same nodes.
    pub open spec fn same_ground(self, other: EditorView) -> bool {
        &&& other.nodes.len() == self.nodes.len()
        &&& forall|i: int|
            0 <= i < self.nodes.len() ==> (#[trigger] other.nodes[i]).pick == self.nodes[i].pick && (
            self.nodes[i].pick is None ==> other.nodes[i].parents == self.nodes[i].parents)
    }
}

/// What a node stands for depends on the ground alone.
proof fn lemma_ground_resolves(v: EditorView, w: EditorView, ix: EditorGraphIndex, fuel: nat)
    requires
        v.grounded(),
        v.same_ground(w),
        ix is Node,
    ensures
        w.resolve_in(ix, fuel) == v.resolve_in(ix, fuel),
    decreases fuel,
{
    if fuel > 0 {
        if let EditorGraphIndex::Node(n) = ix {
            if n < v.nodes.len() {
                assert(w.nodes[n as int].pick == v.nodes[n as int].pick);
                if v.nodes[n as int].pick is None && v.nodes[n as int].parents.len() > 0 {
                    lemma_ground_resolves(
                        v,
                        w,
                        v.nodes[n as int].parents[0],
                        (fuel - 1) as nat,
                    );
                }
            }
        }
    }
}

pub proof fn lemma_ground(v: EditorView, w: EditorView, ix: EditorGraphIndex)
    requires
        v.grounded(),
        v.same_ground(w),
        ix is Node,
    ensures
        w.resolve(ix) == v.resolve(ix),
{
    lemma_ground_resolves(v, w, ix, WALK_LIMIT as nat);
}

/// References that were put above another one.
pub proof fn lemma_rehung_position(
    v: EditorView,
    list: Seq<Member>,
    below: Option<EditorGraphIndex>,
    ix: EditorGraphIndex,
)
    requires
        v.fits(),
    ensures
        v.rehung(list, below).position(ix) == match v.position(ix) {
            Some(p) => if EditorView::listed(list, ix) {
                Some(RefPosition { below, ..p })
            } else {
                Some(p)
            },
            None => None,
        },
{
}

/// Those that are kept of the references are listed, and no others.
pub proof fn lemma_listed(
    v: EditorView,
    keep: spec_fn(Member) -> bool,
    ix: EditorGraphIndex,
)
    requires
        v.fits(),
    ensures
        EditorView::listed(v.placed().filter(keep), ix) <==> (v.position(ix) matches Some(p) && keep(
            (ix, p),
        )),
{
    v.lemma_placed();
    let list = v.placed().filter(keep);
    lemma_kept_placed(v, keep);
    if let Some(p) = v.position(ix) {
        assert(v.placed().contains((ix, p)));
        lemma_filter_contains(v.placed(), keep, (ix, p));
        if keep((ix, p)) {
            let i = choose|i: int| 0 <= i < list.len() && list[i] == (ix, p);
            assert(list[i].0 == ix);
        }
    }
    if EditorView::listed(list, ix) {
        let i = choose|i: int| 0 <= i < list.len() && (#[trigger] list[i]).0 == ix;
        assert(v.position(list[i].0) == Some(list[i].1) && keep(list[i]));
    }
}

/// Those of a chain that rest on a reference.
proof fn lemma_listed_mates(
    v: EditorView,
    target: EditorGraphIndex,
    node: EditorGraphIndex,
    ix: EditorGraphIndex,
)
    requires
        v.fits(),
        v.position(target) is Some,
    ensures
        EditorView::listed(resting_on(v.chain(target), target, node), ix) ==> {
            &&& ix != node
            &&& v.below(ix) == Some(target)
            &&& v.seat(ix) == v.seat(target)
        },
{
    let stored = v.position(target)->0;
    let in_chain = |m: Member|
        v.approach(m.0) == v.approach(target) && v.resolve(m.1.on) == v.resolve(stored.on);
    let chain = v.placed().filter(in_chain);
    assert(v.chain(target) == chain);
    let list = resting_on(chain, target, node);
    if EditorView::listed(list, ix) {
        let i = choose|i: int| 0 <= i < list.len() && (#[trigger] list[i]).0 == ix;
        assert(list.contains(list[i]));
        lemma_filter_contains(chain, rests_on(target, node), list[i]);
        assert(chain.contains(list[i]));
        let j = choose|j: int| 0 <= j < chain.len() && chain[j] == list[i];
        lemma_kept_placed(v, in_chain);
        assert(v.position(chain[j].0) == Some(chain[j].1) && in_chain(chain[j]));
    }
}

/// The top of a lane is a reference on its commit.
proof fn lemma_topmost(v: EditorView, list: Seq<Member>, n: int)
    requires
        0 <= n <= list.len(),
    ensures
        v.topmost(list, n) matches Some(top) ==> exists|i: int|
            0 <= i < n && (#[trigger] list[i]).0 == top,
    decreases n,
{
    if n > 0 {
        lemma_topmost(v, list, n - 1);
        if v.topmost(list, n) == Some(list[n - 1].0) {
            assert(list[n - 1].0 == v.topmost(list, n)->0);
        } else {
            let i = choose|i: int|
                0 <= i < n - 1 && (#[trigger] list[i]).0 == v.topmost(list, n - 1)->0;
            assert(list[i].0 == v.topmost(list, n)->0);
        }
    }
}

proof fn lemma_lane_top(
    v: EditorView,
    pick: EditorGraphIndex,
    leg: EditorLeg,
    node: EditorGraphIndex,
)
    requires
        v.fits(),
    ensures
        v.lane_top(pick, leg, node) matches Some(top) ==> top != node && v.position(top) is Some
            && v.seat(top) == Some(pick),
{
    let keep = v.approached_by(pick, seq![leg], node);
    let list = v.in_lane(pick, leg, node);
    lemma_topmost(v, list, list.len() as int);
    lemma_kept_placed(v, keep);
    if let Some(top) = v.lane_top(pick, leg, node) {
        let i = choose|i: int| 0 <= i < list.len() && (#[trigger] list[i]).0 == top;
        assert(v.position(list[i].0) == Some(list[i].1) && keep(list[i]));
    }
}

/// The slot is one on a commit, or at a reference; for a slot with nothing that descends into it, any
/// node will do.
pub open spec fn slot_is_on_a_node(v: EditorView, slot: StackSlot) -> bool {
    match slot {
        StackSlot::Bottom(pick) => v.is_pick(pick),
        StackSlot::LaneTop { pick, .. } => v.is_pick(pick),
        StackSlot::Root(pick) => pick is Node,
        _ => true,
    }
}

/// Heights with room for one more reference between any two.
pub open spec fn spread(height: Height, node: EditorGraphIndex, own: nat) -> Height {
    |ix: EditorGraphIndex|
        if ix == node {
            own
        } else {
            2 * height(ix) + 1
        }
}

/// `w` has `node` put in anew, and all else as in `v`: what rests on it in `w` rested on what is
/// underneath it now.
pub open spec fn put_in(v: EditorView, w: EditorView, node: EditorGraphIndex) -> bool {
    &&& v.same_ground(w)
    &&& w.position(node) is Some
    &&& w.place(node)->0 is Node
    &&& match w.below(node) {
        Some(b) => b != node && v.position(b) is Some && v.seat(b) == v.resolve(w.place(node)->0),
        None => true,
    }
    &&& forall|ix: EditorGraphIndex|
        ix != node ==> #[trigger] w.place(ix) == v.place(ix) && v.below(ix) != Some(node) && (
        w.below(ix) == v.below(ix) || w.below(ix) == Some(node) && v.below(ix) == w.below(node)
            && v.seat(ix) == v.resolve(w.place(node)->0))
}

proof fn lemma_put_in(v: EditorView, w: EditorView, node: EditorGraphIndex)
    requires
        v.stacked(),
        put_in(v, w, node),
    ensures
        w.stacked(),
{
    let height = choose|height: Height| #[trigger] v.rests_truly(height);
    let own = spread(
        height,
        node,
        match w.below(node) {
            Some(b) => 2 * height(b) + 2,
            None => 0,
        },
    );
    assert forall|ix: EditorGraphIndex| #[trigger]
        w.position(ix) is Some implies w.position(ix)->0.on is Node by {
        if ix != node {
            assert(w.place(ix) == v.place(ix));
            assert(v.position(ix) is Some);
        }
    }
    assert forall|ix: EditorGraphIndex|
        #![trigger w.below(ix)]
        w.below(ix) is Some implies w.rests_well(ix, own) by {
        let b = w.below(ix)->0;
        let seat = w.place(node)->0;
        lemma_ground(v, w, seat);
        if ix != node {
            assert(w.place(ix) == v.place(ix));
            assert(v.position(ix) is Some);
            lemma_ground(v, w, v.place(ix)->0);
        }
        if b != node {
            if ix != node {
                assert(v.below(ix) == Some(b));
            }
            assert(v.position(b) is Some);
            assert(w.place(b) == v.place(b));
            lemma_ground(v, w, v.place(b)->0);
        } else if let Some(c) = w.below(node) {
            assert(v.below(ix) == Some(c));
        }
    }
    assert(w.grounded());
    assert(w.rests_truly(own));
}

/// `w` has all references where `v` has them, but that those on the commit `from` are on `to`, and
/// that some rest on what was underneath what they rested on.
pub open spec fn let_down(
    v: EditorView,
    w: EditorView,
    from: Option<EditorGraphIndex>,
    to: Option<EditorGraphIndex>,
) -> bool {
    &&& w.grounded()
    &&& forall|ix: EditorGraphIndex|
        {
            &&& #[trigger] w.position(ix) is Some <==> v.position(ix) is Some
            &&& v.position(ix) is Some ==> w.seat(ix) == if v.seat(ix) == from {
                to
            } else {
                v.seat(ix)
            }
            &&& w.below(ix) == v.below(ix) || (v.below(ix) matches Some(b) && w.below(ix)
                == v.below(b))
        }
}

proof fn lemma_let_down(
    v: EditorView,
    w: EditorView,
    from: Option<EditorGraphIndex>,
    to: Option<EditorGraphIndex>,
    height: Height,
)
    requires
        v.rests_truly(height),
        let_down(v, w, from, to),
    ensures
        w.rests_truly(height),
        w.stacked(),
{
    assert forall|ix: EditorGraphIndex|
        #![trigger w.below(ix)]
        w.below(ix) is Some implies w.rests_well(ix, height) by {
        let b = w.below(ix)->0;
        assert(w.position(ix) is Some);
        assert(v.below(ix) is Some);
        let c = v.below(ix)->0;
        assert(v.position(c) is Some);
        if b != c {
            assert(v.below(c) == Some(b));
        }
        assert(v.position(b) is Some);
        assert(w.position(b) is Some);
    }
    assert(w.rests_truly(height));
}

/// A reference that sat nowhere rests truly once it is placed, and so do all others.
pub proof fn law_placed_is_stacked(v: EditorView, node: EditorGraphIndex, slot: StackSlot)
    requires
        v.fits(),
        v.stacked(),
        v.has_ref(node),
        v.position(node) is None,
        slot_is_on_a_node(v, slot),
    ensures
        v.placed_ref(node, slot).stacked(),
{
    let height = choose|height: Height| #[trigger] v.rests_truly(height);
    let w = v.placed_ref(node, slot);
    assert forall|ix: EditorGraphIndex| #[trigger] v.below(ix) != Some(node) by {
        if let Some(b) = v.below(ix) {
            assert(v.position(b) is Some);
        }
    }
    if w != v {
        assert forall|ix: EditorGraphIndex| ix != node implies #[trigger] w.place(ix) == v.place(ix)
            && v.below(ix) != Some(node) && (w.below(ix) == v.below(ix) || w.below(ix) == Some(node)
            && v.below(ix) == w.below(node) && v.seat(ix) == v.resolve(w.place(node)->0)) by {
            match slot {
                StackSlot::Above(target) => {
                    let mates = resting_on(v.chain(target), target, node);
                    lemma_rehung_position(v, mates, Some(node), ix);
                    lemma_rehung_position(v, mates, Some(node), target);
                    lemma_listed_mates(v, target, node, ix);
                    lemma_listed_mates(v, target, node, target);
                },
                StackSlot::Bottom(pick) => {
                    let bottom = v.bottom_of(pick, node);
                    lemma_rehung_position(v, bottom, Some(node), ix);
                    lemma_listed(v, v.at_bottom(pick, node), ix);
                },
                _ => {},
            }
        }
        match slot {
            StackSlot::Above(target) => {
                let mates = resting_on(v.chain(target), target, node);
                lemma_rehung_position(v, mates, Some(node), target);
                lemma_listed_mates(v, target, node, target);
            },
            StackSlot::Below(target) => {
                assert(v.rests_well(target, height));
                assert(v.below(target) != Some(target));
                assert(w.place(node) == v.place(target));
                assert(w.below(node) == v.below(target));
            },
            StackSlot::LaneTop { pick, leg } => {
                lemma_lane_top(v, pick, leg, node);
                assert(v.resolve(pick) == Some(pick));
            },
            _ => {},
        }
        assert(v.same_ground(w));
        assert(w.place(node)->0 is Node);
        assert(w.below(node) matches Some(b) ==> b != node && v.position(b) is Some && v.seat(b)
            == v.resolve(w.place(node)->0));
        assert(put_in(v, w, node));
        lemma_put_in(v, w, node);
    }
}

/// `w` has the same references where `v` has them, resting on what they rest on.
pub open spec fn same_spots(v: EditorView, w: EditorView) -> bool {
    &&& w.refs.len() == v.refs.len()
    &&& forall|ix: EditorGraphIndex| #[trigger]
        w.place(ix) == v.place(ix) && w.below(ix) == v.below(ix)
}

/// Each reference of the list sits where it is listed to sit.
pub open spec fn up_to_date(v: EditorView, list: Seq<Member>) -> bool {
    forall|i: int|
        0 <= i < list.len() ==> v.place((#[trigger] list[i]).0) == Some(list[i].1.on) && v.below(
            list[i].0,
        ) == list[i].1.below
}

pub proof fn lemma_settled_spots(
    v: EditorView,
    list: Seq<Member>,
    approach: Seq<EditorLeg>,
    ambiguous: bool,
    n: int,
)
    requires
        v.fits(),
        up_to_date(v, list),
        0 <= n <= list.len(),
    ensures
        same_spots(v, v.settled(list, approach, ambiguous, n)),
        v.settled(list, approach, ambiguous, n).nodes == v.nodes,
    decreases n,
{
    if n > 0 {
        lemma_settled_spots(v, list, approach, ambiguous, n - 1);
        let before = v.settled(list, approach, ambiguous, n - 1);
        let after = v.settled(list, approach, ambiguous, n);
        let (mate, m) = list[n - 1];
        assert(v.place(list[n - 1].0) == Some(m.on));
        assert(before.place(mate) == v.place(mate));
        assert forall|ix: EditorGraphIndex| #[trigger]
            after.place(ix) == v.place(ix) && after.below(ix) == v.below(ix) by {
            assert(before.place(ix) == v.place(ix));
        }
    }
}

proof fn lemma_joined_spots(
    v: EditorView,
    list: Seq<Member>,
    approach: Seq<EditorLeg>,
    n: int,
)
    requires
        v.fits(),
        up_to_date(v, list),
        0 <= n <= list.len(),
    ensures
        same_spots(v, v.chain_joined(list, approach, n)),
        v.chain_joined(list, approach, n).nodes == v.nodes,
    decreases n,
{
    if n > 0 {
        lemma_joined_spots(v, list, approach, n - 1);
        let before = v.chain_joined(list, approach, n - 1);
        let after = v.chain_joined(list, approach, n);
        let (mate, m) = list[n - 1];
        assert(v.place(list[n - 1].0) == Some(m.on));
        assert(before.place(mate) == v.place(mate));
        assert forall|ix: EditorGraphIndex| #[trigger]
            after.place(ix) == v.place(ix) && after.below(ix) == v.below(ix) by {
            assert(before.place(ix) == v.place(ix));
        }
    }
}

/// References that stay where they are stay stacked, whatever legs lead to their commits.
proof fn lemma_same_spots(v: EditorView, w: EditorView)
    requires
        v.stacked(),
        v.same_ground(w),
        same_spots(v, w),
    ensures
        w.stacked(),
{
    let height = choose|height: Height| #[trigger] v.rests_truly(height);
    lemma_still_grounded(v, w);
    assert forall|ix: EditorGraphIndex|
        {
            &&& #[trigger] w.position(ix) is Some <==> v.position(ix) is Some
            &&& v.position(ix) is Some ==> w.seat(ix) == v.seat(ix)
            &&& w.below(ix) == v.below(ix)
        } by {
        assert(w.place(ix) == v.place(ix));
        if v.position(ix) is Some {
            lemma_ground(v, w, v.place(ix)->0);
        }
    }
    lemma_let_down(v, w, None, None, height);
}

/// What points at nodes goes on to do so.
pub proof fn lemma_still_grounded(v: EditorView, w: EditorView)
    requires
        v.grounded(),
        v.same_ground(w),
        forall|ix: EditorGraphIndex|
            #[trigger] w.place(ix) == v.place(ix) || w.place(ix) is Some && w.place(ix)->0 is Node,
    ensures
        w.grounded(),
{
    assert forall|ix: EditorGraphIndex| #[trigger]
        w.position(ix) is Some implies w.position(ix)->0.on is Node by {
        assert(w.place(ix) == v.place(ix) || w.place(ix)->0 is Node);
        if w.place(ix) == v.place(ix) {
            assert(v.position(ix) is Some);
        }
    }
    assert forall|i: int|
        0 <= i < w.nodes.len() && (#[trigger] w.nodes[i]).pick is None && w.nodes[i].parents.len()
            > 0 implies w.nodes[i].parents[0] is Node by {
        assert(v.nodes[i].pick is None);
    }
}

/// The leg that enters a chain leaves all references stacked.
pub proof fn law_chain_join_stays_stacked(
    v: EditorView,
    members: Seq<Member>,
    approach: Seq<EditorLeg>,
)
    requires
        v.fits(),
        v.stacked(),
        up_to_date(v, members),
    ensures
        v.chain_joined(members, approach, members.len() as int).stacked(),
{
    lemma_joined_spots(v, members, approach, members.len() as int);
    lemma_same_spots(v, v.chain_joined(members, approach, members.len() as int));
}

/// What a split has left behind is stacked when it is settled.
pub proof fn law_settled_stays_stacked(v: EditorView, lower: Seq<Member>, leg: EditorLeg)
    requires
        v.fits(),
        v.stacked(),
        up_to_date(v, lower),
    ensures
        v.settled(lower, seq![leg], false, lower.len() as int).stacked(),
{
    lemma_settled_spots(v, lower, seq![leg], false, lower.len() as int);
    lemma_same_spots(v, v.settled(lower, seq![leg], false, lower.len() as int));
}

/// What is put in the place of a reference, one that was spliced out for what it rested on.
proof fn lemma_spliced(v: EditorView, node: EditorGraphIndex)
    requires
        v.fits(),
        v.stacked(),
    ensures
        v.spliced_out(node, v.below(node)).stacked(),
        v.spliced_out(node, v.below(node)).fits(),
        v.same_ground(v.spliced_out(node, v.below(node))),
        forall|ix: EditorGraphIndex| #[trigger]
            v.spliced_out(node, v.below(node)).place(ix) == v.place(ix),
        forall|ix: EditorGraphIndex| #[trigger]
            v.spliced_out(node, v.below(node)).below(ix) != Some(node),
        v.spliced_out(node, v.below(node)).position(node) == v.position(node),
{
    let height = choose|height: Height| #[trigger] v.rests_truly(height);
    let w = v.spliced_out(node, v.below(node));
    let resting = v.resting(node);
    assert(v.below(node) != Some(node));
    assert forall|ix: EditorGraphIndex|
        {
            &&& #[trigger] w.place(ix) == v.place(ix)
            &&& w.below(ix) == if v.below(ix) == Some(node) {
                v.below(node)
            } else {
                v.below(ix)
            }
        } by {
        lemma_rehung_position(v, resting, v.below(node), ix);
        lemma_listed(v, rests_on(node, node), ix);
    }
    lemma_rehung_position(v, resting, v.below(node), node);
    lemma_listed(v, rests_on(node, node), node);
    lemma_still_grounded(v, w);
    assert forall|ix: EditorGraphIndex|
        {
            &&& #[trigger] w.position(ix) is Some <==> v.position(ix) is Some
            &&& v.position(ix) is Some ==> w.seat(ix) == v.seat(ix)
            &&& w.below(ix) == v.below(ix) || (v.below(ix) matches Some(b) && w.below(ix)
                == v.below(b))
        } by {
        assert(w.place(ix) == v.place(ix));
        if v.position(ix) is Some {
            lemma_ground(v, w, v.place(ix)->0);
        }
    }
    lemma_let_down(v, w, None, None, height);
    assert forall|ix: EditorGraphIndex| #[trigger] w.below(ix) != Some(node) by {
        assert(w.place(ix) == v.place(ix));
    }
}

/// References stay stacked when one of them is spliced out for what it rests on.
pub proof fn law_spliced_stays_stacked(v: EditorView, node: EditorGraphIndex)
    requires
        v.fits(),
        v.stacked(),
    ensures
        v.spliced_out(node, v.below(node)).stacked(),
{
    lemma_spliced(v, node);
}

/// The legs that descend into a reference come from commits.
pub proof fn lemma_approach_from_picks(v: EditorView, node: EditorGraphIndex)
    ensures
        forall|i: int|
            0 <= i < v.approach(node).len() ==> v.is_pick((#[trigger] v.approach(node)[i]).0),
{
    let approach = v.approach(node);
    if let Some(stored) = v.position(node) {
        let onto = v.legs_onto(stored.on);
        let from_picks = |l: EditorLeg| v.is_pick(l.0);
        assert forall|i: int| 0 <= i < approach.len() implies v.is_pick(
            (#[trigger] approach[i]).0,
        ) by {
            let leg = approach[i];
            assert(approach.contains(leg));
            if let Some(lane) = lane_of(v.lanes, stored.on, node) {
                lemma_filter_contains(onto, |l: EditorLeg| lane.legs.contains(l), leg);
            }
            assert(onto.contains(leg));
            if let Some(pick) = v.resolve(stored.on) {
                lemma_filter_contains(v.incoming(pick), from_picks, leg);
            }
        }
    }
}

pub proof fn lemma_legs_moved_ground(
    v: EditorView,
    legs: Seq<EditorLeg>,
    from: EditorGraphIndex,
    to: EditorGraphIndex,
    n: int,
)
    requires
        forall|i: int| 0 <= i < legs.len() ==> v.is_pick((#[trigger] legs[i]).0),
        0 <= n <= legs.len(),
    ensures
        v.same_ground(v.legs_moved(legs, from, to, n)),
        v.legs_moved(legs, from, to, n).refs == v.refs,
        v.legs_moved(legs, from, to, n).lanes == v.lanes,
    decreases n,
{
    if n > 0 {
        lemma_legs_moved_ground(v, legs, from, to, n - 1);
        let before = v.legs_moved(legs, from, to, n - 1);
        let after = v.legs_moved(legs, from, to, n);
        assert(v.is_pick(legs[n - 1].0));
        let k = legs[n - 1].0->Node_0 as int;
        assert forall|i: int| 0 <= i < v.nodes.len() implies (#[trigger] after.nodes[i]).pick
            == v.nodes[i].pick && (v.nodes[i].pick is None ==> after.nodes[i].parents
            == v.nodes[i].parents) by {
            assert(before.nodes[i].pick == v.nodes[i].pick);
        }
    }
}

pub proof fn lemma_legs_dropped_ground(
    v: EditorView,
    legs: Seq<EditorLeg>,
    pick: EditorGraphIndex,
    n: int,
)
    requires
        forall|i: int| 0 <= i < legs.len() ==> v.is_pick((#[trigger] legs[i]).0),
        0 <= n <= legs.len(),
    ensures
        v.same_ground(v.legs_dropped(legs, pick, n)),
        v.legs_dropped(legs, pick, n).refs == v.refs,
    decreases legs.len() - n,
{
    if n < legs.len() {
        lemma_legs_dropped_ground(v, legs, pick, n + 1);
        let before = v.legs_dropped(legs, pick, n + 1);
        let after = v.legs_dropped(legs, pick, n);
        assert(v.is_pick(legs[n].0));
        assert forall|i: int| 0 <= i < v.nodes.len() implies (#[trigger] after.nodes[i]).pick
            == v.nodes[i].pick && (v.nodes[i].pick is None ==> after.nodes[i].parents
            == v.nodes[i].parents) by {
            assert(before.nodes[i].pick == v.nodes[i].pick);
        }
    }
}

/// Those of a graph that were kept of a chain sit where they are listed to sit.
pub proof fn lemma_chain_up_to_date(v: EditorView, target: EditorGraphIndex, keep: spec_fn(Member) -> bool)
    requires
        v.fits(),
    ensures
        up_to_date(v, v.chain(target).filter(keep)),
{
    let chain = v.chain(target);
    let list = chain.filter(keep);
    assert forall|i: int| 0 <= i < list.len() implies v.place((#[trigger] list[i]).0) == Some(
        list[i].1.on,
    ) && v.below(list[i].0) == list[i].1.below by {
        assert(list.contains(list[i]));
        lemma_filter_contains(chain, keep, list[i]);
        if let Some(stored) = v.position(target) {
            let in_chain = |m: Member|
                v.approach(m.0) == v.approach(target) && v.resolve(m.1.on) == v.resolve(stored.on);
            assert(chain == v.placed().filter(in_chain));
            lemma_kept_placed(v, in_chain);
            let j = choose|j: int| 0 <= j < chain.len() && chain[j] == list[i];
            assert(v.position(chain[j].0) == Some(chain[j].1));
        }
    }
}

/// What the legs that follow a reference leave of the graph: the ground, and where references are.
pub proof fn lemma_legs_followed_spots(
    v: EditorView,
    node: EditorGraphIndex,
    slot: StackSlot,
    landing: LandingView,
    legs: Option<Seq<EditorLeg>>,
    from: EditorGraphIndex,
)
    requires
        v.fits(),
        legs matches Some(legs) ==> forall|i: int|
            0 <= i < legs.len() ==> v.is_pick((#[trigger] legs[i]).0),
    ensures
        v.same_ground(v.legs_followed(node, slot, landing, legs, from).0),
        same_spots(v, v.legs_followed(node, slot, landing, legs, from).0),
{
    let (followed, approach) = v.legs_followed(node, slot, landing, legs, from);
    match (legs, v.resolve(from), v.resolve(landing.on)) {
        (Some(legs), Some(old_pick), Some(new_pick)) => {
            let moved = if old_pick != new_pick {
                v.legs_moved(legs, old_pick, new_pick, legs.len() as int)
            } else {
                v
            };
            lemma_legs_moved_ground(v, legs, old_pick, new_pick, legs.len() as int);
            assert(same_spots(v, moved)) by {
                assert forall|ix: EditorGraphIndex| #[trigger]
                    moved.place(ix) == v.place(ix) && moved.below(ix) == v.below(ix) by {
                    assert(moved.position(ix) == v.position(ix));
                }
            }
            match slot {
                StackSlot::Above(target) => if moved.position(target) is Some {
                    let mates = moved.not_above(target, node);
                    lemma_chain_up_to_date(moved, target, moved.no_higher(target, node));
                    lemma_settled_spots(
                        moved,
                        mates,
                        approach,
                        approach.len() > 1,
                        mates.len() as int,
                    );
                    assert forall|ix: EditorGraphIndex| #[trigger]
                        followed.place(ix) == v.place(ix) && followed.below(ix) == v.below(ix) by {
                        assert(moved.place(ix) == v.place(ix));
                    }
                },
                _ => {},
            }
        },
        _ => {},
    }
}

/// The slot is not one at the reference itself.
pub open spec fn slot_is_elsewhere(node: EditorGraphIndex, slot: StackSlot) -> bool {
    match slot {
        StackSlot::Above(target) => target != node,
        StackSlot::Below(target) => target != node,
        _ => true,
    }
}

/// The slot that was made free has the reference put in, but for what it points at.
proof fn lemma_made_free(v: EditorView, node: EditorGraphIndex, slot: StackSlot)
    requires
        v.fits(),
        v.stacked(),
        v.position(node) is Some,
        forall|ix: EditorGraphIndex| #[trigger] v.below(ix) != Some(node),
        slot_is_elsewhere(node, slot),
        slot_is_on_a_node(v, slot),
    ensures
        v.made_free(node, slot).0.fits(),
        v.same_ground(v.made_free(node, slot).0),
        v.made_free(node, slot).1 is None ==> v.made_free(node, slot).0 == v,
        v.made_free(node, slot).1 matches Some(landing) ==> {
            let free = v.made_free(node, slot).0;
            &&& landing.on is Node
            &&& landing.below matches Some(b) ==> b != node && v.position(b) is Some && v.seat(b)
                == v.resolve(landing.on)
            &&& forall|ix: EditorGraphIndex|
                ix != node ==> #[trigger] free.place(ix) == v.place(ix) && (free.below(ix)
                    == v.below(ix) || free.below(ix) == Some(node) && v.below(ix) == landing.below
                    && v.seat(ix) == v.resolve(landing.on))
        },
{
    let height = choose|height: Height| #[trigger] v.rests_truly(height);
    let (free, landing) = v.made_free(node, slot);
    match slot {
        StackSlot::Above(target) => if let Some(stored) = v.position(target) {
            let hung = v.set_below(node, Some(target));
            let mates = resting_on(hung.chain(target), target, node);
            assert(v.same_ground(hung));
            assert forall|ix: EditorGraphIndex| ix != node implies #[trigger] free.place(ix)
                == v.place(ix) && (free.below(ix) == v.below(ix) || free.below(ix) == Some(node)
                && v.below(ix) == Some(target) && v.seat(ix) == v.resolve(stored.on)) by {
                assert(hung.position(ix) == v.position(ix));
                assert(hung.position(target) == v.position(target));
                lemma_rehung_position(hung, mates, Some(node), ix);
                lemma_listed_mates(hung, target, node, ix);
                lemma_ground(v, hung, stored.on);
                if v.position(ix) is Some {
                    lemma_ground(v, hung, v.place(ix)->0);
                }
            }
        },
        StackSlot::Below(target) => if let Some(stored) = v.position(target) {
            assert(v.rests_well(target, height));
            let hung = v.set_below(node, stored.below);
            assert(hung.position(target) == v.position(target));
            assert forall|ix: EditorGraphIndex| ix != node implies #[trigger] free.place(ix)
                == v.place(ix) && (free.below(ix) == v.below(ix) || free.below(ix) == Some(node)
                && v.below(ix) == stored.below && v.seat(ix) == v.resolve(stored.on)) by {
                assert(hung.position(ix) == v.position(ix));
            }
        },
        StackSlot::Bottom(pick) => {
            let hung = v.set_below(node, None);
            assert(v.same_ground(hung));
            assert(v.resolve(pick) == Some(pick));
            assert forall|ix: EditorGraphIndex| ix != node implies #[trigger] free.place(ix)
                == v.place(ix) && (free.below(ix) == v.below(ix) || free.below(ix) == Some(node)
                && v.below(ix) is None && v.seat(ix) == v.resolve(pick)) by {
                assert(hung.position(ix) == v.position(ix));
                lemma_rehung_position(hung, hung.bottom_of(pick, node), Some(node), ix);
                lemma_listed(hung, hung.at_bottom(pick, node), ix);
                if v.position(ix) is Some {
                    lemma_ground(v, hung, v.place(ix)->0);
                }
            }
        },
        StackSlot::LaneTop { pick, leg } => {
            lemma_lane_top(v, pick, leg, node);
            assert(v.resolve(pick) == Some(pick));
        },
        StackSlot::Root(_) => {},
    }
}

/// A reference that has moved into a slot rests truly, and so do all others.
pub proof fn law_moved_is_stacked(v: EditorView, node: EditorGraphIndex, slot: StackSlot)
    requires
        v.fits(),
        v.stacked(),
        slot_is_elsewhere(node, slot),
        slot_is_on_a_node(v, slot),
    ensures
        v.moved_ref(node, slot).stacked(),
{
    if let Some(moving) = v.position(node) {
        let legs = if v.sole_carrier(node) {
            Some(v.approach(node))
        } else {
            None
        };
        let w = v.moved_ref(node, slot);
        let spliced = v.spliced_out(node, moving.below);
        lemma_spliced(v, node);
        lemma_made_free(spliced, node, slot);
        let (free, landing) = spliced.made_free(node, slot);
        if let Some(landing) = landing {
            lemma_approach_from_picks(v, node);
            if let Some(legs) = legs {
                assert forall|i: int| 0 <= i < legs.len() implies free.is_pick(
                    (#[trigger] legs[i]).0,
                ) by {
                    assert(v.is_pick(v.approach(node)[i].0));
                    let k = legs[i].0->Node_0 as int;
                    assert(spliced.nodes[k].pick == v.nodes[k].pick);
                    assert(free.nodes[k].pick == spliced.nodes[k].pick);
                }
            }
            lemma_legs_followed_spots(free, node, slot, landing, legs, moving.on);
            let followed = free.legs_followed(node, slot, landing, legs, moving.on).0;
            assert(spliced.same_ground(w)) by {
                assert forall|i: int| 0 <= i < spliced.nodes.len() implies (
                #[trigger] w.nodes[i]).pick == spliced.nodes[i].pick && (
                spliced.nodes[i].pick is None ==> w.nodes[i].parents == spliced.nodes[i].parents) by {
                    assert(free.nodes[i].pick == spliced.nodes[i].pick);
                    assert(followed.nodes[i].pick == free.nodes[i].pick);
                }
            }
            assert(w.place(node) == Some(landing.on) && w.below(node) == landing.below);
            assert forall|ix: EditorGraphIndex| ix != node implies #[trigger] w.place(ix)
                == spliced.place(ix) && spliced.below(ix) != Some(node) && (w.below(ix)
                == spliced.below(ix) || w.below(ix) == Some(node) && spliced.below(ix) == w.below(
                node,
            ) && spliced.seat(ix) == spliced.resolve(w.place(node)->0)) by {
                assert(free.place(ix) == spliced.place(ix));
                assert(followed.place(ix) == free.place(ix));
                assert(w.position(ix) == followed.position(ix));
            }
            assert(put_in(spliced, w, node));
            lemma_put_in(spliced, w, node);
        }
    }
}

/// A reference that was unhooked rests on what it rested on, and all references stay stacked.
pub proof fn law_unhooked_is_stacked(v: EditorView, node: EditorGraphIndex, drop_legs: bool)
    requires
        v.fits(),
        v.stacked(),
    ensures
        v.unhooked_ref(node, drop_legs).stacked(),
{
    let height = choose|height: Height| #[trigger] v.rests_truly(height);
    if let Some(unhooked) = v.position(node) {
        let w = v.unhooked_ref(node, drop_legs);
        let mates = resting_on(v.chain(node), node, node);
        let closed = v.rehung(mates, unhooked.below);
        let dropped = v.unhooking(node, drop_legs);
        let legs = sorted::<EditorLeg>(closed.approach(node));
        lemma_approach_from_picks(closed, node);
        assert forall|i: int| 0 <= i < legs.len() implies closed.is_pick((#[trigger] legs[i]).0) by {
            assert(legs.contains(legs[i]));
            lemma_sorted_contains::<EditorLeg>(closed.approach(node), legs[i]);
            let approach = closed.approach(node);
            let j = choose|j: int| 0 <= j < approach.len() && approach[j] == legs[i];
            assert(closed.is_pick(approach[j].0));
        }
        if let Some(pick) = closed.resolve(unhooked.on) {
            lemma_legs_dropped_ground(closed, legs, pick, 0);
        }
        assert(v.same_ground(w));
        assert(dropped.refs == closed.refs);
        assert(v.below(node) != Some(node));
        assert forall|ix: EditorGraphIndex|
            {
                &&& #[trigger] w.place(ix) == v.place(ix)
                &&& w.below(ix) == v.below(ix) || (v.below(ix) == Some(node) && w.below(ix)
                    == v.below(node))
            } by {
            lemma_rehung_position(v, mates, unhooked.below, ix);
            lemma_listed_mates(v, node, node, ix);
            assert(dropped.position(ix) == closed.position(ix));
        }
        lemma_still_grounded(v, w);
        assert forall|ix: EditorGraphIndex|
            {
                &&& #[trigger] w.position(ix) is Some <==> v.position(ix) is Some
                &&& v.position(ix) is Some ==> w.seat(ix) == v.seat(ix)
                &&& w.below(ix) == v.below(ix) || (v.below(ix) matches Some(b) && w.below(ix)
                    == v.below(b))
            } by {
            assert(w.place(ix) == v.place(ix));
            if v.position(ix) is Some {
                lemma_ground(v, w, v.place(ix)->0);
            }
        }
        lemma_let_down(v, w, None, None, height);
    }
}

proof fn lemma_repositioned(
    v: EditorView,
    moves: Seq<Member>,
    to: EditorGraphIndex,
    reclassify: bool,
    n: int,
    ix: EditorGraphIndex,
)
    requires
        v.fits(),
        up_to_date(v, moves),
        0 <= n <= moves.len(),
    ensures
        v.repositioned(moves, to, reclassify, n).nodes == v.nodes,
        v.repositioned(moves, to, reclassify, n).refs.len() == v.refs.len(),
        v.repositioned(moves, to, reclassify, n).below(ix) == v.below(ix),
        v.repositioned(moves, to, reclassify, n).place(ix) == if EditorView::listed(
            moves.take(n),
            ix,
        ) {
            Some(to)
        } else {
            v.place(ix)
        },
    decreases n,
{
    if n > 0 {
        let (node, stored) = moves[n - 1];
        lemma_repositioned(v, moves, to, reclassify, n - 1, ix);
        lemma_repositioned(v, moves, to, reclassify, n - 1, node);
        let before = v.repositioned(moves, to, reclassify, n - 1);
        assert(v.place(moves[n - 1].0) == Some(stored.on));
        assert(before.position(node) is Some);
        let now = moves.take(n);
        let then_list = moves.take(n - 1);
        assert(now[n - 1].0 == node);
        if EditorView::listed(then_list, ix) {
            let j = choose|j: int| 0 <= j < then_list.len() && (#[trigger] then_list[j]).0 == ix;
            assert(now[j].0 == ix);
        }
        if EditorView::listed(now, ix) && ix != node {
            let j = choose|j: int| 0 <= j < now.len() && (#[trigger] now[j]).0 == ix;
            assert(then_list[j].0 == ix);
        }
    }
}

/// References that move together from one commit to another node stay stacked.
pub proof fn law_repositioned_stays_stacked(
    v: EditorView,
    from: EditorGraphIndex,
    to: EditorGraphIndex,
    reclassify: bool,
)
    requires
        v.fits(),
        v.stacked(),
        to is Node,
    ensures
        v.repositioned(v.seated(from), to, reclassify, v.seated(from).len() as int).stacked(),
{
    let height = choose|height: Height| #[trigger] v.rests_truly(height);
    let on_it = |m: Member| v.resolve(m.1.on) == Some(from);
    let moves = v.seated(from);
    let n = moves.len() as int;
    let w = v.repositioned(moves, to, reclassify, n);
    assert(moves == v.placed().filter(on_it));
    lemma_kept_placed(v, on_it);
    assert forall|i: int| 0 <= i < moves.len() implies v.place((#[trigger] moves[i]).0) == Some(
        moves[i].1.on,
    ) && v.below(moves[i].0) == moves[i].1.below by {
        assert(v.position(moves[i].0) == Some(moves[i].1));
    }
    assert(moves.take(n) =~= moves);
    assert forall|ix: EditorGraphIndex| #[trigger]
        w.place(ix) == (if v.position(ix) is Some && v.seat(ix) == Some(from) {
            Some(to)
        } else {
            v.place(ix)
        }) && w.below(ix) == v.below(ix) by {
        lemma_repositioned(v, moves, to, reclassify, n, ix);
        lemma_listed(v, on_it, ix);
    }
    lemma_repositioned(v, moves, to, reclassify, n, to);
    assert(v.same_ground(w));
    lemma_still_grounded(v, w);
    lemma_carried_over(v, w, Some(from), to, height);
}

/// References that all move from one commit to another node stay stacked.
proof fn lemma_carried_over(
    v: EditorView,
    w: EditorView,
    from: Option<EditorGraphIndex>,
    to: EditorGraphIndex,
    height: Height,
)
    requires
        v.grounded(),
        w.grounded(),
        v.rests_truly(height),
        v.same_ground(w),
        to is Node,
        forall|ix: EditorGraphIndex| #[trigger]
            w.place(ix) == (if v.position(ix) is Some && v.seat(ix) == from {
                Some(to)
            } else {
                v.place(ix)
            }) && w.below(ix) == v.below(ix),
    ensures
        w.stacked(),
{
    assert forall|ix: EditorGraphIndex|
        {
            &&& #[trigger] w.position(ix) is Some <==> v.position(ix) is Some
            &&& v.position(ix) is Some ==> w.seat(ix) == if v.seat(ix) == from {
                v.resolve(to)
            } else {
                v.seat(ix)
            }
            &&& w.below(ix) == v.below(ix)
        } by {
        assert(w.place(ix) == (if v.position(ix) is Some && v.seat(ix) == from {
            Some(to)
        } else {
            v.place(ix)
        }));
        lemma_ground(v, w, to);
        if v.position(ix) is Some {
            lemma_ground(v, w, v.place(ix)->0);
        }
    }
    lemma_let_down(v, w, from, v.resolve(to), height);
}

/// References whose commit is gone stay stacked when a node adopts them.
pub proof fn law_readopted_stays_stacked(v: EditorView, onto: EditorGraphIndex)
    requires
        v.fits(),
        v.stacked(),
        onto is Node,
    ensures
        v.readopted(onto).stacked(),
{
    let height = choose|height: Height| #[trigger] v.rests_truly(height);
    let dangling = v.placed().filter(v.dangles()).map_values(|m: Member| m.0);
    let n = dangling.len() as int;
    let w = v.readopted(onto);
    assert(dangling.take(n) =~= dangling);
    assert forall|ix: EditorGraphIndex| #[trigger]
        w.place(ix) == (if v.position(ix) is Some && v.seat(ix) is None {
            Some(onto)
        } else {
            v.place(ix)
        }) && w.below(ix) == v.below(ix) by {
        lemma_rekeyed_places(v, dangling, onto, n, ix);
        lemma_dangling(v, ix);
    }
    lemma_rekeyed_places(v, dangling, onto, n, onto);
    assert(v.same_ground(w));
    lemma_still_grounded(v, w);
    lemma_carried_over(v, w, None, onto, height);
}

/// What was taken along with the lead is above it, on the same commit, and rests on what was taken.
pub proof fn lemma_taken(
    v: EditorView,
    candidates: Seq<Member>,
    lead: EditorGraphIndex,
    height: Height,
    i: int,
)
    requires
        v.rests_truly(height),
        up_to_date(v, candidates),
        all_different(candidates),
        v.position(lead) is Some,
        0 <= i < subtree(candidates, lead).len(),
    ensures
        v.position(subtree(candidates, lead)[i]) is Some,
        v.seat(subtree(candidates, lead)[i]) == v.seat(lead),
        i > 0 ==> height(subtree(candidates, lead)[i]) > height(lead),
        i > 0 ==> exists|k: int|
            0 <= k < i && v.below(subtree(candidates, lead)[i]) == Some(
                #[trigger] subtree(candidates, lead)[k],
            ),
    decreases i,
{
    law_subtree(candidates, lead);
    let taken = subtree(candidates, lead);
    if i > 0 {
        assert(rests_before(candidates, taken, i));
        let (j, k) = choose|j: int, k: int|
            {
                &&& 0 <= j < candidates.len()
                &&& 0 <= k < i
                &&& (#[trigger] candidates[j]).0 == taken[i]
                &&& candidates[j].1.below == Some(#[trigger] taken[k])
            };
        assert(v.below(candidates[j].0) == Some(taken[k]));
        lemma_taken(v, candidates, lead, height, k);
        assert(v.rests_well(taken[i], height));
    }
}

/// What rests on something that was taken was taken, as far as it is a candidate.
proof fn lemma_taken_up(
    v: EditorView,
    candidates: Seq<Member>,
    lead: EditorGraphIndex,
    ix: EditorGraphIndex,
)
    requires
        up_to_date(v, candidates),
        all_different(candidates),
        EditorView::listed(candidates, ix),
        v.below(ix) is Some,
        subtree(candidates, lead).contains(v.below(ix)->0),
    ensures
        subtree(candidates, lead).contains(ix),
{
    law_subtree(candidates, lead);
    let taken = subtree(candidates, lead);
    let j = choose|j: int| 0 <= j < candidates.len() && (#[trigger] candidates[j]).0 == ix;
    let k = choose|k: int| 0 <= k < taken.len() && taken[k] == v.below(ix)->0;
    assert(candidates[j].1.below == Some(taken[k]));
}

pub proof fn lemma_chain_different(v: EditorView, at: EditorGraphIndex)
    requires
        v.fits(),
    ensures
        all_different(v.chain(at)),
        up_to_date(v, v.chain(at)),
        v.position(at) is Some ==> EditorView::listed(v.chain(at), at),
{
    if let Some(stored) = v.position(at) {
        let in_chain = |m: Member|
            v.approach(m.0) == v.approach(at) && v.resolve(m.1.on) == v.resolve(stored.on);
        assert(v.chain(at) == v.placed().filter(in_chain));
        lemma_listed(v, in_chain, at);
        lemma_kept_up_to_date(v, in_chain);
    }
}

/// Those that are kept of the references are listed where they sit, once.
pub proof fn lemma_kept_up_to_date(v: EditorView, keep: spec_fn(Member) -> bool)
    requires
        v.fits(),
    ensures
        all_different(v.placed().filter(keep)),
        up_to_date(v, v.placed().filter(keep)),
{
    let list = v.placed().filter(keep);
    v.lemma_placed();
    lemma_filter_different(v.placed(), keep);
    lemma_kept_placed(v, keep);
    assert forall|i: int| 0 <= i < list.len() implies v.place((#[trigger] list[i]).0) == Some(
        list[i].1.on,
    ) && v.below(list[i].0) == list[i].1.below by {
        assert(v.position(list[i].0) == Some(list[i].1));
    }
}

/// Where the members of a chain are when some of them have moved up, and what the last of these
/// that was at the boundary sat on.
pub proof fn lemma_upper_moved(
    v: EditorView,
    members: Seq<Member>,
    moved: Seq<EditorGraphIndex>,
    upper: EditorGraphIndex,
    n: int,
    ix: EditorGraphIndex,
)
    requires
        v.fits(),
        up_to_date(v, members),
        all_different(members),
        0 <= n <= members.len(),
    ensures
        v.upper_moved(members, moved, upper, n).0.nodes == v.nodes,
        v.upper_moved(members, moved, upper, n).0.refs.len() == v.refs.len(),
        ({
            let (up, sat_on) = v.upper_moved(members, moved, upper, n);
            let goes = EditorView::listed(members.take(n), ix) && moved.contains(ix);
            &&& goes ==> up.place(ix) == Some(upper)
            &&& goes ==> up.below(ix) == match v.below(ix) {
                Some(b) => if moved.contains(b) {
                    Some(b)
                } else {
                    None
                },
                None => None,
            }
            &&& !goes ==> up.place(ix) == v.place(ix) && up.below(ix) == v.below(ix)
            &&& sat_on matches Some(c) ==> !moved.contains(c) && exists|j: int|
                0 <= j < n && moved.contains((#[trigger] members[j]).0) && v.below(members[j].0)
                    == Some(c)
        }),
    decreases n,
{
    if n > 0 {
        let (node, member) = members[n - 1];
        lemma_upper_moved(v, members, moved, upper, n - 1, ix);
        lemma_upper_moved(v, members, moved, upper, n - 1, node);
        let (before, sat_before) = v.upper_moved(members, moved, upper, n - 1);
        let (up, sat_on) = v.upper_moved(members, moved, upper, n);
        assert(v.place(members[n - 1].0) == Some(member.on));
        let now = members.take(n);
        let earlier = members.take(n - 1);
        assert(now[n - 1].0 == node);
        assert(!EditorView::listed(earlier, node)) by {
            if EditorView::listed(earlier, node) {
                let j = choose|j: int| 0 <= j < earlier.len() && (#[trigger] earlier[j]).0 == node;
                assert(members[j].0 == members[n - 1].0);
            }
        }
        if EditorView::listed(earlier, ix) {
            let j = choose|j: int| 0 <= j < earlier.len() && (#[trigger] earlier[j]).0 == ix;
            assert(now[j].0 == ix);
        }
        if EditorView::listed(now, ix) && ix != node {
            let j = choose|j: int| 0 <= j < now.len() && (#[trigger] now[j]).0 == ix;
            assert(earlier[j].0 == ix);
        }
        assert(before.position(node) is Some);
        if moved.contains(node) {
            let keyed = before.rekey_position(node, upper);
            assert(keyed.place(node) == Some(upper) && keyed.below(node) == before.below(node));
            if ix != node {
                assert(keyed.position(ix) == before.position(ix));
            }
        }
        if let Some(c) = sat_on {
            if sat_on == sat_before {
                let j = choose|j: int|
                    0 <= j < n - 1 && moved.contains((#[trigger] members[j]).0) && v.below(
                        members[j].0,
                    ) == Some(c);
                assert(moved.contains(members[j].0));
            } else {
                assert(v.below(members[n - 1].0) == Some(c));
            }
        }
    }
}

/// A chain that was split is stacked in both parts, and so is what rests on them. What of it stayed
/// is where it was.
pub proof fn law_split_is_stacked(
    v: EditorView,
    at: EditorGraphIndex,
    boundary: SplitBoundary,
    upper: EditorGraphIndex,
)
    requires
        v.fits(),
        v.stacked(),
        upper is Node,
    ensures
        v.split_chain(at, boundary, upper).stacked(),
        v.position(at) is Some ==> up_to_date(
            v.split_chain(at, boundary, upper),
            v.chain(at).filter(stays(v.split_off(at, boundary))),
        ),
{
    let height = choose|height: Height| #[trigger] v.rests_truly(height);
    if v.position(at) is Some {
        let members = v.chain(at);
        let n = members.len() as int;
        let above = subtree(members, at);
        let moved = v.split_off(at, boundary);
        let (up, sat_on) = v.upper_moved(members, moved, upper, n);
        let w = v.split_chain(at, boundary, upper);
        let off = stranded(moved);
        lemma_chain_different(v, at);
        law_subtree(members, at);
        assert(members.take(n) =~= members);
        lemma_upper_moved(v, members, moved, upper, n, at);
        assert forall|x: EditorGraphIndex| #[trigger] moved.contains(x) implies EditorView::listed(
            members,
            x,
        ) && v.position(x) is Some && v.seat(x) == v.seat(at) && height(x) >= height(at) && (
        boundary is Above ==> height(x) > height(at)) by {
            let i = choose|i: int| 0 <= i < moved.len() && moved[i] == x;
            let k = if boundary is Above {
                i + 1
            } else {
                i
            };
            assert(above[k] == x);
            lemma_taken(v, members, at, height, k);
            if k > 0 {
                assert(rests_before(members, above, k));
            }
        }
        assert forall|x: EditorGraphIndex, y: EditorGraphIndex| #[trigger]
            moved.contains(x) && v.below(x) is Some && !moved.contains(v.below(x)->0)
                && #[trigger] moved.contains(y) implies height(v.below(x)->0) < height(y) by {
            let c = v.below(x)->0;
            let i = choose|i: int| 0 <= i < moved.len() && moved[i] == x;
            let k = if boundary is Above {
                i + 1
            } else {
                i
            };
            assert(above[k] == x);
            lemma_taken(v, members, at, height, k);
            assert(v.rests_well(x, height));
            if k > 0 {
                let b = choose|b: int| 0 <= b < k && v.below(above[k]) == Some(#[trigger] above[b]);
                if boundary is Above {
                    if b > 0 {
                        assert(moved[b - 1] == c);
                    }
                } else {
                    assert(moved[b] == c);
                }
            }
        }
        assert forall|ix: EditorGraphIndex|
            {
                &&& moved.contains(ix) ==> #[trigger] w.place(ix) == Some(upper)
                &&& moved.contains(ix) ==> w.below(ix) == match v.below(ix) {
                    Some(b) => if moved.contains(b) {
                        Some(b)
                    } else {
                        None
                    },
                    None => None,
                }
                &&& !moved.contains(ix) ==> w.place(ix) == v.place(ix) && w.below(ix) == match v.below(
                    ix,
                ) {
                    Some(b) => if moved.contains(b) {
                        sat_on
                    } else {
                        Some(b)
                    },
                    None => None,
                }
            } by {
            lemma_upper_moved(v, members, moved, upper, n, ix);
            lemma_rehung_position(up, up.placed().filter(off), sat_on, ix);
            lemma_listed(up, off, ix);
            if moved.contains(ix) {
                assert(EditorView::listed(members, ix));
            }
        }
        assert(v.same_ground(w));
        assert forall|ix: EditorGraphIndex| #[trigger] w.place(ix) == v.place(ix) || w.place(ix) is Some
            && w.place(ix)->0 is Node by {
            if moved.contains(ix) {
                assert(w.place(ix) == Some(upper));
            }
        }
        lemma_still_grounded(v, w);
        lemma_ground(v, w, upper);
        assert forall|ix: EditorGraphIndex|
            #![trigger w.below(ix)]
            w.below(ix) is Some implies w.rests_well(ix, height) by {
            let c = w.below(ix)->0;
            if moved.contains(ix) {
                assert(w.place(ix) == Some(upper));
                assert(w.place(c) == Some(upper));
                assert(v.rests_well(ix, height));
            } else {
                assert(w.place(ix) == v.place(ix));
                assert(v.rests_well(ix, height));
                let b = v.below(ix)->0;
                lemma_ground(v, w, v.place(ix)->0);
                if moved.contains(b) {
                    let j = choose|j: int|
                        0 <= j < n && moved.contains((#[trigger] members[j]).0) && v.below(
                            members[j].0,
                        ) == Some(c);
                    let x = members[j].0;
                    assert(moved.contains(x) && v.below(x) == Some(c) && moved.contains(b));
                    assert(v.rests_well(x, height));
                }
                assert(w.place(c) == v.place(c));
                lemma_ground(v, w, v.place(c)->0);
            }
        }
        assert(w.rests_truly(height));
        let lower = members.filter(stays(moved));
        assert forall|i: int| 0 <= i < lower.len() implies w.place((#[trigger] lower[i]).0) == Some(
            lower[i].1.on,
        ) && w.below(lower[i].0) == lower[i].1.below by {
            assert(lower.contains(lower[i]));
            lemma_filter_contains(members, stays(moved), lower[i]);
            let j = choose|j: int| 0 <= j < members.len() && members[j] == lower[i];
            let ix = members[j].0;
            assert(v.place(ix) == Some(members[j].1.on));
            assert(w.place(ix) == v.place(ix));
            if let Some(b) = v.below(ix) {
                if moved.contains(b) {
                    let k = choose|k: int| 0 <= k < moved.len() && moved[k] == b;
                    if boundary is Above {
                        assert(above[k + 1] == b);
                    }
                    assert(above.contains(b));
                    assert(EditorView::listed(members, ix));
                    lemma_taken_up(v, members, at, ix);
                    let k = choose|k: int| 0 <= k < above.len() && above[k] == ix;
                    if boundary is Above {
                        if k == 0 {
                            assert(v.rests_well(at, height));
                        } else {
                            assert(moved[k - 1] == ix);
                        }
                    }
                }
            }
        }
    }
}

/// What rests on one of the list is in the list.
pub open spec fn takes_all_along(v: EditorView, list: Seq<EditorGraphIndex>) -> bool {
    forall|ix: EditorGraphIndex|
        (#[trigger] v.below(ix)) matches Some(b) ==> list.contains(b) ==> list.contains(ix)
}

proof fn lemma_slice_moved(
    v: EditorView,
    slice: Seq<EditorGraphIndex>,
    lead: EditorGraphIndex,
    dest: EditorGraphIndex,
    n: int,
    ix: EditorGraphIndex,
)
    requires
        v.fits(),
        0 <= n <= slice.len(),
    ensures
        v.slice_moved(slice, lead, dest, n).nodes == v.nodes,
        v.slice_moved(slice, lead, dest, n).refs.len() == v.refs.len(),
        ({
            let w = v.slice_moved(slice, lead, dest, n);
            let goes = slice.take(n).contains(ix) && v.position(ix) is Some;
            &&& w.place(ix) == if goes {
                Some(dest)
            } else {
                v.place(ix)
            }
            &&& w.below(ix) == if goes && ix == lead {
                None
            } else {
                v.below(ix)
            }
        }),
    decreases n,
{
    if n > 0 {
        let node = slice[n - 1];
        lemma_slice_moved(v, slice, lead, dest, n - 1, ix);
        lemma_slice_moved(v, slice, lead, dest, n - 1, node);
        assert(slice.take(n) =~= slice.take(n - 1).push(node));
        lemma_push_contains(slice.take(n - 1), node, ix);
    }
}

/// A slice of a stack that was transferred with all that rests on it is stacked, and so is what it
/// left.
pub proof fn law_transferred_is_stacked(
    v: EditorView,
    lead: EditorGraphIndex,
    source: EditorGraphIndex,
    dest: EditorGraphIndex,
)
    requires
        v.fits(),
        v.stacked(),
        dest is Node,
        takes_all_along(
            v,
            subtree(v.placed().filter(v.lane_on(source, v.approach(lead))), lead),
        ),
    ensures
        v.transferred_stack(lead, source, dest).stacked(),
{
    let height = choose|height: Height| #[trigger] v.rests_truly(height);
    if v.position(lead) is Some {
        let lane = v.placed().filter(v.lane_on(source, v.approach(lead)));
        let slice = subtree(lane, lead);
        let n = slice.len() as int;
        let w = v.transferred_stack(lead, source, dest);
        lemma_kept_up_to_date(v, v.lane_on(source, v.approach(lead)));
        law_subtree(lane, lead);
        assert(slice.take(n) =~= slice);
        lemma_slice_moved(v, slice, lead, dest, n, lead);
        assert forall|ix: EditorGraphIndex|
            {
                &&& #[trigger] w.place(ix) == if slice.contains(ix) {
                    Some(dest)
                } else {
                    v.place(ix)
                }
                &&& w.below(ix) == if ix == lead {
                    None
                } else {
                    v.below(ix)
                }
            } by {
            lemma_slice_moved(v, slice, lead, dest, n, ix);
            assert(slice.contains(slice[0]));
            if slice.contains(ix) {
                let i = choose|i: int| 0 <= i < slice.len() && slice[i] == ix;
                lemma_taken(v, lane, lead, height, i);
            }
        }
        assert(v.same_ground(w));
        lemma_still_grounded(v, w);
        lemma_ground(v, w, dest);
        assert forall|ix: EditorGraphIndex|
            #![trigger w.below(ix)]
            w.below(ix) is Some implies w.rests_well(ix, height) by {
            assert(w.place(ix) is Some);
            assert(v.rests_well(ix, height)) by {
                assert(v.below(ix) == w.below(ix));
            }
            let b = v.below(ix)->0;
            if slice.contains(ix) {
                let i = choose|i: int| 0 <= i < slice.len() && slice[i] == ix;
                lemma_taken(v, lane, lead, height, i);
                let k = choose|k: int| 0 <= k < i && v.below(slice[i]) == Some(#[trigger] slice[k]);
                assert(slice.contains(slice[k]));
                assert(w.place(b) == Some(dest));
            } else {
                lemma_ground(v, w, v.place(ix)->0);
                assert(!slice.contains(b));
                assert(w.place(b) == v.place(b));
                lemma_ground(v, w, v.place(b)->0);
            }
        }
        assert(w.rests_truly(height));
    }
}

/// The reference rests on nothing, and nothing rests on it.
pub open spec fn stands_alone(v: EditorView, node: EditorGraphIndex) -> bool {
    v.below(node) is None && forall|ix: EditorGraphIndex| #[trigger] v.below(ix) != Some(node)
}

/// Every reference that sits somewhere was not removed.
pub open spec fn all_alive(v: EditorView) -> bool {
    forall|ix: EditorGraphIndex| #[trigger] v.position(ix) is Some ==> v.is_reference(ix)
}

pub proof fn lemma_mate_below(
    v: EditorView,
    exclude: EditorGraphIndex,
    on: EditorGraphIndex,
    depth: nat,
)
    requires
        v.fits(),
    ensures
        v.mate_below(exclude, on, depth) matches Some(mate) ==> {
            &&& mate != exclude
            &&& v.position(mate) is Some
            &&& v.seat(mate) == v.resolve(on)
            &&& v.depth(mate) + 1 == depth
        },
{
    if depth > 0 {
        if let Some(pick) = v.resolve(on) {
            let test = v.one_below(exclude, pick, depth);
            let list = v.placed().filter(test);
            lemma_kept_placed(v, test);
            if list.len() > 0 {
                assert(v.position(list[0].0) == Some(list[0].1) && test(list[0]));
            }
        }
    }
}

/// A reference that points at another commit takes along what rests on it, and all references stay
/// stacked.
pub proof fn law_repointed_is_stacked(v: EditorView, node: EditorGraphIndex, onto: EditorGraphIndex)
    requires
        v.fits(),
        v.stacked(),
        v.has_ref(node),
        v.is_pick(onto),
        all_alive(v),
        v.position(node) is Some ==> v.seat(node) is Some || stands_alone(v, node),
    ensures
        v.repointed_ref(node, onto).stacked(),
{
    let height = choose|height: Height| #[trigger] v.rests_truly(height);
    let w = v.repointed_ref(node, onto);
    assert(v.resolve(onto) == Some(onto));
    match v.position(node) {
        None => {
            law_placed_is_stacked(v, node, StackSlot::Root(onto));
        },
        Some(stored) => if v.resolve(stored.on) is None || v.resolve(stored.on) == Some(onto) {
            assert(v.same_ground(w));
            assert forall|ix: EditorGraphIndex|
                {
                    &&& #[trigger] w.place(ix) == if ix == node {
                        Some(onto)
                    } else {
                        v.place(ix)
                    }
                    &&& w.below(ix) == v.below(ix)
                } by {}
            lemma_still_grounded(v, w);
            assert forall|ix: EditorGraphIndex|
                #![trigger w.below(ix)]
                w.below(ix) is Some implies w.rests_well(ix, height) by {
                let b = w.below(ix)->0;
                assert(w.place(ix) is Some);
                assert(v.rests_well(ix, height)) by {
                    assert(v.below(ix) == w.below(ix));
                }
                assert(w.place(b) is Some);
                lemma_ground(v, w, onto);
                lemma_ground(v, w, v.place(ix)->0);
                lemma_ground(v, w, v.place(b)->0);
            }
            assert(w.rests_truly(height));
        } else {
            lemma_repointed_away(v, node, onto, height);
        },
    }
}

proof fn lemma_repointed_away(
    v: EditorView,
    node: EditorGraphIndex,
    onto: EditorGraphIndex,
    height: Height,
)
    requires
        v.fits(),
        v.grounded(),
        v.rests_truly(height),
        v.is_pick(onto),
        all_alive(v),
        v.position(node) is Some,
        v.seat(node) is Some,
        v.seat(node) != Some(onto),
    ensures
        v.repointed_ref(node, onto).stacked(),
{
    let stored = v.position(node)->0;
    let old_pick = v.seat(node)->0;
    let approach = v.approach(node);
    let moved = v.legs_moved(approach, old_pick, onto, approach.len() as int);
    let below = moved.mate_below(node, onto, moved.depth(node));
    let candidates = moved.live_placed();
    let carried = subtree(candidates, node);
    let mates = moved.left_behind(node, carried);
    let settled = moved.settled(mates, Seq::empty(), false, mates.len() as int);
    let rest = carried.skip(1);
    let keyed = settled.rekeyed(rest, onto, carried.len() - 1);
    let w = v.repointed_ref(node, onto);
    lemma_approach_from_picks(v, node);
    lemma_legs_moved_ground(v, approach, old_pick, onto, approach.len() as int);
    assert(v.same_ground(moved));
    assert forall|ix: EditorGraphIndex| #[trigger] moved.position(ix) == v.position(ix) by {}
    lemma_kept_up_to_date(moved, moved.alive());
    assert(up_to_date(v, candidates)) by {
        assert forall|i: int| 0 <= i < candidates.len() implies v.place(
            (#[trigger] candidates[i]).0,
        ) == Some(candidates[i].1.on) && v.below(candidates[i].0) == candidates[i].1.below by {
            assert(moved.place(candidates[i].0) == Some(candidates[i].1.on));
            assert(moved.position(candidates[i].0) == v.position(candidates[i].0));
        }
    }
    law_subtree(candidates, node);
    lemma_chain_up_to_date(moved, node, not_carried(node, carried));
    lemma_settled_spots(moved, mates, Seq::empty(), false, mates.len() as int);
    lemma_mate_below(moved, node, onto, moved.depth(node));
    lemma_ground(v, moved, onto);
    assert(v.resolve(onto) == Some(onto));
    assert(rest.take(carried.len() - 1) =~= rest);
    lemma_rekeyed_places(settled, rest, onto, carried.len() - 1, onto);
    assert forall|ix: EditorGraphIndex|
        {
            &&& #[trigger] w.place(ix) == if carried.contains(ix) {
                Some(onto)
            } else {
                v.place(ix)
            }
            &&& w.below(ix) == if ix == node {
                below
            } else {
                v.below(ix)
            }
        } by {
        lemma_rekeyed_places(settled, rest, onto, carried.len() - 1, ix);
        assert(settled.place(ix) == moved.place(ix));
        assert(moved.position(ix) == v.position(ix));
        assert(carried.contains(carried[0]));
        if rest.contains(ix) {
            let i = choose|i: int| 0 <= i < rest.len() && rest[i] == ix;
            assert(carried[i + 1] == ix);
            assert(carried.contains(carried[i + 1]));
        }
        if carried.contains(ix) {
            let i = choose|i: int| 0 <= i < carried.len() && carried[i] == ix;
            lemma_taken(v, candidates, node, height, i);
            if i > 0 {
                assert(rest[i - 1] == ix);
            }
        }
    }
    assert(v.same_ground(w));
    lemma_still_grounded(v, w);
    lemma_ground(v, w, onto);
    let raise = match below {
        Some(mate) => height(mate) + 1,
        None => 0nat,
    };
    let own: Height = |ix: EditorGraphIndex|
        if carried.contains(ix) {
            height(ix) + raise
        } else {
            height(ix)
        };
    assert forall|ix: EditorGraphIndex|
        #![trigger w.below(ix)]
        w.below(ix) is Some implies w.rests_well(ix, own) by {
        let b = w.below(ix)->0;
        assert(w.place(ix) is Some);
        assert(carried.contains(carried[0]));
        if ix == node {
            assert(moved.position(b) == v.position(b));
            lemma_ground(v, moved, v.place(b)->0);
            assert(!carried.contains(b)) by {
                if carried.contains(b) {
                    let i = choose|i: int| 0 <= i < carried.len() && carried[i] == b;
                    lemma_taken(v, candidates, node, height, i);
                }
            }
            assert(w.place(b) == v.place(b));
            lemma_ground(v, w, v.place(b)->0);
        } else {
            assert(v.rests_well(ix, height)) by {
                assert(v.below(ix) == w.below(ix));
            }
            if carried.contains(ix) {
                let i = choose|i: int| 0 <= i < carried.len() && carried[i] == ix;
                lemma_taken(v, candidates, node, height, i);
                let k = choose|k: int|
                    0 <= k < i && v.below(carried[i]) == Some(#[trigger] carried[k]);
                assert(carried.contains(carried[k]));
                assert(w.place(b) == Some(onto));
            } else {
                lemma_listed(moved, moved.alive(), ix);
                assert(moved.position(ix) == v.position(ix));
                assert(v.is_reference(ix));
                assert(!carried.contains(b)) by {
                    if carried.contains(b) {
                        lemma_taken_up(v, candidates, node, ix);
                    }
                }
                assert(w.place(b) == v.place(b));
                lemma_ground(v, w, v.place(ix)->0);
                lemma_ground(v, w, v.place(b)->0);
            }
        }
    }
    assert(w.rests_truly(own));
}

impl EditorView {
    /// What is underneath each reference is a reference, and lower.
    pub open spec fn rises(self, height: Height) -> bool {
        forall|ix: EditorGraphIndex|
            (#[trigger] self.below(ix)) matches Some(b) ==> self.position(b) is Some && height(b)
                < height(ix)
    }
}

/// How many of the first `n` references are lower than `x`.
pub open spec fn lower_ones(height: Height, x: nat, n: nat) -> nat
    decreases n,
{
    if n == 0 {
        0
    } else {
        lower_ones(height, x, (n - 1) as nat) + if height(
            EditorGraphIndex::Ref((n - 1) as usize),
        ) < x {
            1nat
        } else {
            0nat
        }
    }
}

proof fn lemma_lower_ones(height: Height, x: nat, y: nat, r: nat, n: nat)
    requires
        n <= usize::MAX,
        x <= y,
    ensures
        lower_ones(height, x, n) <= lower_ones(height, y, n) <= n,
        r < n && height(EditorGraphIndex::Ref(r as usize)) == x && x < y ==> lower_ones(
            height,
            x,
            n,
        ) < lower_ones(height, y, n),
    decreases n,
{
    if n > 0 {
        lemma_lower_ones(height, x, y, r, (n - 1) as nat);
    }
}

/// Heights that go no higher than there are references.
pub open spec fn flattened(v: EditorView, height: Height) -> Height {
    |ix: EditorGraphIndex| lower_ones(height, height(ix), v.refs.len())
}

proof fn lemma_flattened(v: EditorView, height: Height)
    requires
        v.fits(),
        v.rises(height),
    ensures
        v.rises(flattened(v, height)),
        forall|ix: EditorGraphIndex| #[trigger] flattened(v, height)(ix) <= v.refs.len(),
{
    let flat = flattened(v, height);
    assert forall|ix: EditorGraphIndex| #[trigger] flat(ix) <= v.refs.len() by {
        lemma_lower_ones(height, height(ix), height(ix), 0, v.refs.len());
    }
    assert forall|ix: EditorGraphIndex| (#[trigger] v.below(ix)) is Some implies v.position(
        v.below(ix)->0,
    ) is Some && flat(v.below(ix)->0) < flat(ix) by {
        let b = v.below(ix)->0;
        assert(v.position(b) is Some && height(b) < height(ix));
        lemma_lower_ones(height, height(b), height(ix), b->Ref_0 as nat, v.refs.len());
    }
}

/// A walk down a stack that is short enough counts what it passes.
proof fn lemma_depth_from(v: EditorView, flat: Height, b: EditorGraphIndex, k: nat)
    requires
        v.rises(flat),
        k + flat(b) + 1 <= WALK_LIMIT,
    ensures
        v.depth_from(Some(b), k) == k + 1 + v.depth(b),
        v.depth_from(Some(b), 0) == 1 + v.depth(b),
    decreases flat(b),
{
    reveal_with_fuel(EditorView::depth_from, 2);
    if let Some(c) = v.below(b) {
        lemma_depth_from(v, flat, c, k + 1);
        lemma_depth_from(v, flat, c, 1);
    }
}

/// Where there are not too many references, each is one deeper than what is underneath it.
pub proof fn lemma_depth(v: EditorView, height: Height, ix: EditorGraphIndex)
    requires
        v.fits(),
        v.rises(height),
        v.refs.len() <= WALK_LIMIT,
    ensures
        v.below(ix) matches Some(b) ==> v.depth(ix) == v.depth(b) + 1,
        v.below(ix) is None ==> v.depth(ix) == 0,
{
    let flat = flattened(v, height);
    lemma_flattened(v, height);
    if let Some(b) = v.below(ix) {
        assert(flat(b) < flat(ix) <= v.refs.len());
        lemma_depth_from(v, flat, b, 0);
    }
}

proof fn lemma_no_fault(
    v: EditorView,
    flat: Height,
    node: EditorGraphIndex,
    pick: Option<EditorGraphIndex>,
    b: EditorGraphIndex,
    depth: nat,
)
    requires
        v.rests_truly(flat),
        v.position(b) is Some,
        v.seat(b) == pick,
        depth + flat(b) + 1 <= WALK_LIMIT,
    ensures
        v.below_fault_from(node, pick, Some(b), depth) is None,
    decreases flat(b),
{
    assert(v.rests_well(b, flat));
    if let Some(c) = v.below(b) {
        lemma_no_fault(v, flat, node, pick, c, depth + 1);
    }
}

/// Nothing is found wrong with references that are stacked, unless there are more of them than a
/// walk takes steps.
pub proof fn law_stacked_has_no_fault(v: EditorView)
    requires
        v.fits(),
        v.stacked(),
        v.refs.len() <= WALK_LIMIT,
    ensures
        v.first_below_fault(v.placed(), v.placed().len() as int) is None,
{
    let height = choose|height: Height| #[trigger] v.rests_truly(height);
    let flat = flattened(v, height);
    assert(v.rises(height)) by {
        assert forall|ix: EditorGraphIndex| (#[trigger] v.below(ix)) is Some implies v.position(
            v.below(ix)->0,
        ) is Some && height(v.below(ix)->0) < height(ix) by {
            assert(v.rests_well(ix, height));
        }
    }
    lemma_flattened(v, height);
    assert(v.rests_truly(flat)) by {
        assert forall|ix: EditorGraphIndex|
            #![trigger v.below(ix)]
            v.rests_well(ix, flat) by {
            assert(v.rests_well(ix, height));
        }
    }
    lemma_no_first_fault(v, flat, v.placed().len() as int);
}

proof fn lemma_no_first_fault(v: EditorView, flat: Height, n: int)
    requires
        v.fits(),
        v.rests_truly(flat),
        forall|ix: EditorGraphIndex| #[trigger] flat(ix) <= v.refs.len(),
        v.refs.len() <= WALK_LIMIT,
        0 <= n <= v.placed().len(),
    ensures
        v.first_below_fault(v.placed(), n) is None,
    decreases n,
{
    if n > 0 {
        lemma_no_first_fault(v, flat, n - 1);
        v.lemma_placed();
        let m = v.placed()[n - 1];
        assert(v.position(v.placed()[n - 1].0) == Some(m.1));
        assert(v.rests_well(m.0, flat)) by {
            assert(v.below(m.0) == m.1.below);
        }
        if let Some(b) = m.1.below {
            assert(flat(m.0) <= v.refs.len());
            lemma_no_fault(v, flat, m.0, v.resolve(m.1.on), b, 0);
        }
    }
}

/// The part of a lane that was carried, at some point of its landing.
spec fn landing(
    v: EditorView,
    w: EditorView,
    moves: Seq<EditorGraphIndex>,
    dest: EditorGraphIndex,
    n: int,
) -> bool {
    &&& w.nodes == v.nodes
    &&& w.refs.len() == v.refs.len()
    &&& exists|height: Height| #[trigger] w.rises(height)
    &&& forall|ix: EditorGraphIndex|
        {
            &&& #[trigger] w.place(ix) == v.place(ix)
            &&& w.below(ix) == v.below(ix) || moves.take(n).contains(ix) && (w.below(
                ix,
            ) matches Some(b) ==> v.place(b) is Some && v.resolve(v.place(b)->0) == v.resolve(dest))
            &&& moves.take(n).contains(ix) && w.below(ix) == v.below(ix) ==> (v.below(
                ix,
            ) matches Some(b) ==> moves.contains(b) || v.resolve(v.place(b)->0) == v.resolve(dest))
        }
}

proof fn lemma_landed(
    v: EditorView,
    moves: Seq<EditorGraphIndex>,
    dest: EditorGraphIndex,
    height: Height,
    n: int,
)
    requires
        v.fits(),
        v.grounded(),
        v.rises(height),
        v.refs.len() <= WALK_LIMIT,
        dest is Node,
        0 <= n <= moves.len(),
    ensures
        landing(v, v.landed(moves, dest, n), moves, dest, n),
    decreases n,
{
    if n <= 0 {
        assert(moves.take(0) =~= Seq::empty());
    } else {
        lemma_landed(v, moves, dest, height, n - 1);
        let before = v.landed(moves, dest, n - 1);
        let w = v.landed(moves, dest, n);
        let node = moves[n - 1];
        let risen = choose|h: Height| #[trigger] before.rises(h);
        assert(moves.take(n) =~= moves.take(n - 1).push(node));
        assert(before.place(node) == v.place(node));
        let mate = before.mate_below(node, dest, before.depth(node));
        lemma_mate_below(before, node, dest, before.depth(node));
        assert(v.same_ground(before));
        lemma_ground(v, before, dest);
        if let Some(m) = mate {
            assert(before.place(m) == v.place(m));
            assert(v.position(m) is Some);
            lemma_ground(v, before, v.place(m)->0);
        }
        let deep: Height = |ix: EditorGraphIndex| before.depth(ix);
        assert(w.rises(deep)) by {
            assert forall|ix: EditorGraphIndex| (#[trigger] w.below(ix)) is Some implies w.position(
                w.below(ix)->0,
            ) is Some && deep(w.below(ix)->0) < deep(ix) by {
                lemma_depth(before, risen, ix);
                let b = w.below(ix)->0;
                if w.below(ix) == before.below(ix) {
                    assert(before.position(b) is Some);
                }
                assert(before.position(b) is Some);
            }
        }
        assert forall|ix: EditorGraphIndex|
            {
                &&& #[trigger] w.place(ix) == v.place(ix)
                &&& w.below(ix) == v.below(ix) || moves.take(n).contains(ix) && (w.below(
                    ix,
                ) matches Some(b) ==> v.place(b) is Some && v.resolve(v.place(b)->0) == v.resolve(
                    dest,
                ))
                &&& moves.take(n).contains(ix) && w.below(ix) == v.below(ix) ==> (v.below(
                    ix,
                ) matches Some(b) ==> moves.contains(b) || v.resolve(v.place(b)->0) == v.resolve(
                    dest,
                ))
            } by {
            assert(before.place(ix) == v.place(ix));
            lemma_push_contains(moves.take(n - 1), node, ix);
        }
    }
}

/// The part of a lane that was carried with all that rests on it is stacked, and so is what it
/// left, unless there are more references than a walk takes steps.
pub proof fn law_carried_is_stacked(
    v: EditorView,
    source: EditorGraphIndex,
    lane: Seq<EditorLeg>,
    depth: nat,
    dest: EditorGraphIndex,
)
    requires
        v.fits(),
        v.stacked(),
        v.refs.len() <= WALK_LIMIT,
        dest is Node,
        takes_all_along(
            v,
            v.placed().filter(v.higher_in_lane(source, lane, depth)).map_values(|m: Member| m.0),
        ),
    ensures
        v.carried_stack(source, lane, depth, dest).stacked(),
{
    let height = choose|height: Height| #[trigger] v.rests_truly(height);
    let keep = v.higher_in_lane(source, lane, depth);
    let kept = v.placed().filter(keep);
    let moves = kept.map_values(|m: Member| m.0);
    let n = moves.len() as int;
    let keyed = v.rekeyed(moves, dest, n);
    let w = v.carried_stack(source, lane, depth, dest);
    assert(moves.take(n) =~= moves);
    assert forall|ix: EditorGraphIndex|
        {
            &&& #[trigger] keyed.place(ix) == if moves.contains(ix) {
                Some(dest)
            } else {
                v.place(ix)
            }
            &&& keyed.below(ix) == v.below(ix)
        } by {
        lemma_rekeyed_places(v, moves, dest, n, ix);
        if moves.contains(ix) {
            let i = choose|i: int| 0 <= i < moves.len() && moves[i] == ix;
            lemma_kept_placed(v, keep);
            assert(v.position(kept[i].0) == Some(kept[i].1));
        }
    }
    lemma_rekeyed_places(v, moves, dest, n, dest);
    assert(v.same_ground(keyed));
    lemma_still_grounded(v, keyed);
    assert(keyed.rises(height)) by {
        assert forall|ix: EditorGraphIndex| (#[trigger] keyed.below(ix)) is Some implies keyed.position(
            keyed.below(ix)->0,
        ) is Some && height(keyed.below(ix)->0) < height(ix) by {
            let b = keyed.below(ix)->0;
            assert(keyed.place(ix) is Some);
            assert(v.rests_well(ix, height)) by {
                assert(v.below(ix) == keyed.below(ix));
            }
            assert(keyed.place(b) is Some);
        }
    }
    lemma_landed(keyed, moves, dest, height, n);
    let own = choose|h: Height| #[trigger] w.rises(h);
    assert(v.same_ground(w));
    assert forall|ix: EditorGraphIndex| #[trigger] w.place(ix) == v.place(ix) || w.place(ix) is Some
        && w.place(ix)->0 is Node by {
        assert(w.place(ix) == keyed.place(ix));
    }
    lemma_still_grounded(v, w);
    lemma_ground(v, w, dest);
    lemma_ground(v, keyed, dest);
    assert forall|ix: EditorGraphIndex|
        #![trigger w.below(ix)]
        w.below(ix) is Some implies w.rests_well(ix, own) by {
        let b = w.below(ix)->0;
        assert(w.position(b) is Some);
        assert(w.place(ix) == keyed.place(ix));
        assert(w.place(b) == keyed.place(b));
        lemma_ground(keyed, w, keyed.place(b)->0);
        if moves.contains(ix) {
            assert(w.seat(ix) == w.resolve(dest));
            if w.below(ix) == keyed.below(ix) {
                assert(moves.contains(b) || keyed.resolve(keyed.place(b)->0) == keyed.resolve(dest));
            }
        } else {
            assert(v.below(ix) == Some(b));
            assert(v.rests_well(ix, height));
            if moves.contains(b) {
                assert(moves.contains(ix));
            }
            lemma_ground(v, w, v.place(ix)->0);
            lemma_ground(v, w, v.place(b)->0);
        }
    }
    assert(w.rests_truly(own));
}

/// The references of the list ascend.
pub open spec fn members_ascend(list: Seq<Member>) -> bool {
    forall|i: int, j: int|
        0 <= i < j < list.len() ==> (#[trigger] list[i]).0->Ref_0 < (#[trigger] list[j]).0->Ref_0
}

proof fn lemma_filter_ascends(list: Seq<Member>, keep: spec_fn(Member) -> bool)
    requires
        members_ascend(list),
    ensures
        members_ascend(list.filter(keep)),
    decreases list.len(),
{
    reveal(Seq::filter);
    if list.len() > 0 {
        let front = list.drop_last();
        assert forall|i: int, j: int| 0 <= i < j < front.len() implies (
        #[trigger] front[i]).0->Ref_0 < (#[trigger] front[j]).0->Ref_0 by {
            assert(list[i].0->Ref_0 < list[j].0->Ref_0);
        }
        lemma_filter_ascends(front, keep);
        let kept = front.filter(keep);
        let now = list.filter(keep);
        if keep(list.last()) {
            assert forall|i: int, j: int| 0 <= i < j < now.len() implies (
            #[trigger] now[i]).0->Ref_0 < (#[trigger] now[j]).0->Ref_0 by {
                if j == kept.len() {
                    assert(kept.contains(kept[i]));
                    lemma_filter_contains(front, keep, kept[i]);
                    let k = choose|k: int| 0 <= k < front.len() && front[k] == kept[i];
                    assert(list[k].0->Ref_0 < list[list.len() - 1].0->Ref_0);
                }
            }
        }
    }
}

/// Each reference on the commit comes after what it rests on.
pub open spec fn rests_on_earlier(v: EditorView, source: EditorGraphIndex) -> bool {
    forall|ix: EditorGraphIndex|
        v.seat(ix) == Some(source) ==> ((#[trigger] v.below(ix)) matches Some(b) ==> b->Ref_0
            < ix->Ref_0)
}

/// References that go behind a bridge, at some point of it.
spec fn bridging(
    v: EditorView,
    w: EditorView,
    moves: Seq<Member>,
    on: EditorGraphIndex,
    n: int,
) -> bool {
    &&& w.nodes == v.nodes
    &&& w.refs.len() == v.refs.len()
    &&& exists|height: Height| #[trigger] w.rises(height)
    &&& forall|ix: EditorGraphIndex|
        {
            &&& #[trigger] w.place(ix) == if EditorView::listed(moves.take(n), ix) {
                Some(on)
            } else {
                v.place(ix)
            }
            &&& w.below(ix) == v.below(ix) || EditorView::listed(moves.take(n), ix) && v.below(
                ix,
            ) is None && has_landed(v, w.below(ix)->0, moves, on, n)
        }
}

/// The reference is on the bridge.
spec fn has_landed(
    v: EditorView,
    ix: EditorGraphIndex,
    moves: Seq<Member>,
    on: EditorGraphIndex,
    n: int,
) -> bool {
    v.position(ix) is Some && (EditorView::listed(moves.take(n), ix) || v.seat(ix) == v.resolve(on))
}

proof fn lemma_listed_step(moves: Seq<Member>, n: int, ix: EditorGraphIndex)
    requires
        0 < n <= moves.len(),
    ensures
        EditorView::listed(moves.take(n), ix) <==> EditorView::listed(moves.take(n - 1), ix) || ix
            == moves[n - 1].0,
{
    let now = moves.take(n);
    let earlier = moves.take(n - 1);
    assert(now[n - 1] == moves[n - 1]);
    if EditorView::listed(earlier, ix) {
        let j = choose|j: int| 0 <= j < earlier.len() && (#[trigger] earlier[j]).0 == ix;
        assert(now[j].0 == ix);
    }
    if EditorView::listed(now, ix) && ix != moves[n - 1].0 {
        let j = choose|j: int| 0 <= j < now.len() && (#[trigger] now[j]).0 == ix;
        assert(earlier[j].0 == ix);
    }
}

proof fn lemma_bridged(
    v: EditorView,
    source: EditorGraphIndex,
    depths: Seq<nat>,
    top_depth: nat,
    on: EditorGraphIndex,
    bridge: Seq<EditorLeg>,
    height: Height,
    n: int,
)
    requires
        v.fits(),
        v.grounded(),
        v.rests_truly(height),
        rests_on_earlier(v, source),
        on is Node,
        v.resolve(on) != Some(source),
        0 <= n <= v.seated(source).len(),
    ensures
        bridging(
            v,
            v.bridged(v.seated(source), depths, top_depth, on, bridge, n),
            v.seated(source),
            on,
            n,
        ),
    decreases n,
{
    let moves = v.seated(source);
    let w = v.bridged(moves, depths, top_depth, on, bridge, n);
    let on_it = |m: Member| v.resolve(m.1.on) == Some(source);
    assert(moves == v.placed().filter(on_it));
    if n <= 0 {
        assert(w.rises(height)) by {
            assert forall|ix: EditorGraphIndex| (#[trigger] w.below(ix)) is Some implies w.position(
                w.below(ix)->0,
            ) is Some && height(w.below(ix)->0) < height(ix) by {
                assert(v.rests_well(ix, height));
            }
        }
    } else {
        lemma_bridged(v, source, depths, top_depth, on, bridge, height, n - 1);
        let before = v.bridged(moves, depths, top_depth, on, bridge, n - 1);
        let (node, stored) = moves[n - 1];
        let risen = choose|h: Height| #[trigger] before.rises(h);
        lemma_kept_placed(v, on_it);
        lemma_placed_refs(v.refs, v.refs.len() as int);
        lemma_filter_ascends(v.placed(), on_it);
        assert(v.position(moves[n - 1].0) == Some(stored));
        let earlier = moves.take(n - 1);
        assert(!EditorView::listed(earlier, node)) by {
            if EditorView::listed(earlier, node) {
                let j = choose|j: int| 0 <= j < earlier.len() && (#[trigger] earlier[j]).0 == node;
                assert(moves[j].0->Ref_0 < moves[n - 1].0->Ref_0);
            }
        }
        assert(before.place(node) == v.place(node));
        assert(v.same_ground(before));
        lemma_ground(v, before, on);
        let mate = before.mate_below(node, on, depths[n - 1] + top_depth + 1);
        lemma_mate_below(before, node, on, depths[n - 1] + top_depth + 1);
        if let Some(m) = mate {
            assert(before.place(m) is Some);
            if !EditorView::listed(earlier, m) {
                assert(before.place(m) == v.place(m));
                assert(v.position(m) is Some);
                lemma_ground(v, before, v.place(m)->0);
            } else {
                let j = choose|j: int| 0 <= j < earlier.len() && (#[trigger] earlier[j]).0 == m;
                assert(v.position(moves[j].0) is Some);
            }
            assert(has_landed(v, m, moves, on, n - 1));
        }
        let waits = |x: EditorGraphIndex|
            v.seat(x) == Some(source) && !EditorView::listed(earlier, x);
        let raise = match mate {
            Some(m) => risen(m) + 1,
            None => 0nat,
        };
        let own: Height = |x: EditorGraphIndex|
            if waits(x) {
                risen(x) + raise
            } else {
                risen(x)
            };
        assert(w.rises(own)) by {
            assert forall|x: EditorGraphIndex| (#[trigger] w.below(x)) is Some implies w.position(
                w.below(x)->0,
            ) is Some && own(w.below(x)->0) < own(x) by {
                let b = w.below(x)->0;
                if x == node && stored.below is None {
                    assert(mate == Some(b));
                } else {
                    assert(before.place(x) is Some);
                    assert(before.below(x) == Some(b));
                    assert(before.position(b) is Some && risen(b) < risen(x));
                    if waits(b) && !waits(x) {
                        if v.below(x) == Some(b) {
                            assert(v.rests_well(x, height));
                            lemma_moves_before(v, source, moves, earlier, x, b);
                        } else {
                            assert(has_landed(v, b, moves, on, n - 1));
                        }
                    }
                }
            }
        }
        assert forall|ix: EditorGraphIndex|
            {
                &&& #[trigger] w.place(ix) == if EditorView::listed(moves.take(n), ix) {
                    Some(on)
                } else {
                    v.place(ix)
                }
                &&& w.below(ix) == v.below(ix) || EditorView::listed(moves.take(n), ix) && v.below(
                    ix,
                ) is None && has_landed(v, w.below(ix)->0, moves, on, n)
            } by {
            assert(before.place(ix) == if EditorView::listed(earlier, ix) {
                Some(on)
            } else {
                v.place(ix)
            });
            lemma_listed_step(moves, n, ix);
            lemma_listed_step(moves, n, w.below(ix)->0);
        }
    }
}

/// What comes earlier on a commit has moved when what comes later has.
proof fn lemma_moves_before(
    v: EditorView,
    source: EditorGraphIndex,
    moves: Seq<Member>,
    earlier: Seq<Member>,
    x: EditorGraphIndex,
    b: EditorGraphIndex,
)
    requires
        v.fits(),
        moves == v.seated(source),
        members_ascend(moves),
        earlier.len() <= moves.len(),
        earlier == moves.take(earlier.len() as int),
        EditorView::listed(earlier, x),
        b->Ref_0 < x->Ref_0,
        v.position(b) is Some,
        v.seat(b) == Some(source),
    ensures
        EditorView::listed(earlier, b),
{
    let on_it = |m: Member| v.resolve(m.1.on) == Some(source);
    assert(moves == v.placed().filter(on_it));
    lemma_listed(v, on_it, b);
    let i = choose|i: int| 0 <= i < earlier.len() && (#[trigger] earlier[i]).0 == x;
    let j = choose|j: int| 0 <= j < moves.len() && (#[trigger] moves[j]).0 == b;
    if j >= earlier.len() {
        assert(moves[i].0->Ref_0 < moves[j].0->Ref_0);
    }
    assert(earlier[j].0 == b);
}

/// The references on a commit that were landed above another one are stacked, where they come in
/// the order in which they rest on one another and the bridge is on another commit.
pub proof fn law_landed_is_stacked(
    v: EditorView,
    source: EditorGraphIndex,
    top: EditorGraphIndex,
    bridge_node: EditorGraphIndex,
)
    requires
        v.fits(),
        v.stacked(),
        rests_on_earlier(v, source),
        bridge_node is Node,
        v.resolve(bridge_node) != Some(source),
    ensures
        v.landed_stack(source, top, bridge_node).stacked(),
{
    let height = choose|height: Height| #[trigger] v.rests_truly(height);
    if let Some(stored) = v.position(top) {
        let bridge = v.legs_into(bridge_node);
        let put = v.set_position(top, stored.on, bridge, bridge.len() > 1, stored.below);
        assert forall|ix: EditorGraphIndex| #[trigger] put.place(ix) == v.place(ix) && put.below(ix)
            == v.below(ix) by {}
        assert(v.same_ground(put));
        lemma_still_grounded(v, put);
        assert forall|ix: EditorGraphIndex|
            {
                &&& #[trigger] put.position(ix) is Some <==> v.position(ix) is Some
                &&& put.seat(ix) == v.seat(ix)
                &&& put.below(ix) == v.below(ix)
            } by {
            assert(put.place(ix) == v.place(ix));
            if v.position(ix) is Some {
                lemma_ground(v, put, v.place(ix)->0);
            }
        }
        lemma_let_down(v, put, None, None, height);
        lemma_ground(v, put, bridge_node);
        assert(rests_on_earlier(put, source)) by {
            assert forall|ix: EditorGraphIndex| put.seat(ix) == Some(source) && (
            #[trigger] put.below(ix)) is Some implies put.below(ix)->0->Ref_0 < ix->Ref_0 by {
                assert(put.position(ix) is Some);
                assert(v.below(ix) == put.below(ix));
            }
        }
        let moves = put.seated(source);
        let n = moves.len() as int;
        let depths = moves.map_values(|m: Member| put.depth(m.0));
        let w = v.landed_stack(source, top, bridge_node);
        lemma_bridged(put, source, depths, v.depth(top), bridge_node, bridge, height, n);
        let own = choose|h: Height| #[trigger] w.rises(h);
        let on_it = |m: Member| put.resolve(m.1.on) == Some(source);
        assert(moves == put.placed().filter(on_it));
        assert(moves.take(n) =~= moves);
        assert(put.same_ground(w));
        assert forall|ix: EditorGraphIndex| #[trigger] w.place(ix) == put.place(ix) || w.place(
            ix,
        ) is Some && w.place(ix)->0 is Node by {
            if EditorView::listed(moves, ix) {
                assert(w.place(ix) == Some(bridge_node));
            }
        }
        lemma_still_grounded(put, w);
        lemma_ground(put, w, bridge_node);
        assert forall|ix: EditorGraphIndex|
            #![trigger w.below(ix)]
            w.below(ix) is Some implies w.rests_well(ix, own) by {
            let b = w.below(ix)->0;
            assert(w.position(b) is Some);
            assert(w.place(ix) is Some && w.place(b) is Some);
            lemma_listed(put, on_it, ix);
            lemma_listed(put, on_it, b);
            if put.position(ix) is Some {
                lemma_ground(put, w, put.place(ix)->0);
            }
            if put.position(b) is Some {
                lemma_ground(put, w, put.place(b)->0);
            }
            if w.below(ix) == put.below(ix) {
                assert(put.rests_well(ix, height)) by {
                    assert(put.below(ix) == w.below(ix));
                }
            } else {
                assert(has_landed(put, b, moves, bridge_node, n));
            }
        }
        assert(w.rests_truly(own));
    }
}

} // verus!
