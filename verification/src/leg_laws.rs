//! What becomes of the legs that lead to references when the parents of a commit change.

use crate::approach_laws::lemma_leads;
use crate::creation_laws::parents_fit;
use crate::editor_graph::{EditorGraphIndex, EditorLeg, EditorView};
use crate::lanes::{
    edited_lanes, lane_of, lanes_at, legs_less, moved_up, DropLeg, LaneEdit, LaneView, Place,
};
use crate::seqs::{first_among, lemma_filter_contains, lemma_first_among};
use crate::stacking_laws::lemma_ground;
use vstd::prelude::*;

verus! {

/// Once a parent of a commit is gone, no reference is approached through its leg, and through all
/// others as before; those of the commit behind it are one place further up now.
pub proof fn law_removed_parent(
    v: EditorView,
    x: EditorGraphIndex,
    slot: usize,
    r: EditorGraphIndex,
    leg: EditorLeg,
)
    requires
        v.sound(),
        v.is_pick(x),
        slot < v.parents(x).len(),
        leg != (x, slot),
        leg.1 < usize::MAX,
    ensures
        ({
            let after = v.remove_parent(x, slot);
            let now = if leg.0 == x && leg.1 > slot {
                (x, (leg.1 - 1) as usize)
            } else {
                leg
            };
            &&& after.position(r) == v.position(r)
            &&& after.parents(x) == v.parents(x).remove(slot as int)
            &&& after.approach(r).contains(now) <==> v.approach(r).contains(leg)
        }),
{
    let after = v.remove_parent(x, slot);
    let edit = DropLeg { node: x, slot };
    let now = moved_up(leg, x, slot);
    assert(after.position(r) == v.position(r));
    assert forall|i: int| 0 <= i < v.nodes.len() implies (#[trigger] after.nodes[i]).pick
        == v.nodes[i].pick && (v.nodes[i].pick is None ==> after.nodes[i].parents
        == v.nodes[i].parents) by {}
    assert(v.same_ground(after));
    assert(parents_fit(after.nodes)) by {
        assert forall|i: int| 0 <= i < after.nodes.len() implies (
        #[trigger] after.nodes[i]).parents.len() <= usize::MAX by {
            assert(v.nodes[i].parents.len() <= usize::MAX);
        }
    }
    if let Some(stored) = v.position(r) {
        let on = stored.on;
        lemma_ground(v, after, on);
        lemma_edited_lane(v.lanes, edit, on, r);
        if let (Some(pick), Some(lane)) = (v.resolve(on), lane_of(v.lanes, on, r)) {
            let own = |l: EditorLeg| lane.legs.contains(l);
            let edited = edit.edited(lane);
            let less = |l: EditorLeg| edited.legs.contains(l);
            lemma_leads(v, pick, leg);
            lemma_leads(after, pick, now);
            assert(after.leads(now, pick) <==> v.leads(leg, pick));
            lemma_filter_contains(v.legs_onto(on), own, leg);
            lemma_filter_contains(after.legs_onto(on), less, now);
            lemma_legs_less(lane.legs, x, slot, leg);
        }
    }
}

proof fn lemma_legs_less(legs: Seq<EditorLeg>, x: EditorGraphIndex, slot: usize, leg: EditorLeg)
    requires
        leg != (x, slot),
    ensures
        legs_less(legs, x, slot).contains(moved_up(leg, x, slot)) <==> legs.contains(leg),
{
    let keep = |l: EditorLeg| l != (x, slot);
    let kept = legs.filter(keep);
    let less = legs_less(legs, x, slot);
    lemma_filter_contains(legs, keep, leg);
    if legs.contains(leg) {
        let i = choose|i: int| 0 <= i < kept.len() && kept[i] == leg;
        assert(less[i] == moved_up(leg, x, slot));
    }
    if less.contains(moved_up(leg, x, slot)) {
        let i = choose|i: int| 0 <= i < less.len() && less[i] == moved_up(leg, x, slot);
        assert(kept.contains(kept[i]));
        lemma_filter_contains(legs, keep, kept[i]);
        assert(kept[i] == leg);
    }
}

/// The lane of a reference after a change of each lane that leaves the members alone.
pub proof fn lemma_edited_lane<I: Place, E: LaneEdit<I>>(
    lanes: Map<I, Seq<LaneView<I>>>,
    edit: E,
    key: I,
    node: I,
)
    requires
        forall|l: LaneView<I>| (#[trigger] edit.edited(l)).members == l.members,
    ensures
        lane_of(edited_lanes(lanes, edit), key, node) == match lane_of(lanes, key, node) {
            Some(lane) => Some(edit.edited(lane)),
            None => None,
        },
{
    let test = |l: LaneView<I>| l.members.contains(node);
    let (a, b) = (lanes_at(lanes, key), lanes_at(edited_lanes(lanes, edit), key));
    if lanes.dom().contains(key) {
        assert(b =~= a.map_values(|l: LaneView<I>| edit.edited(l)));
        assert forall|i: int| 0 <= i < a.len() implies test(#[trigger] a[i]) == test(b[i]) by {
            assert(edit.edited(a[i]).members == a[i].members);
        }
        lemma_first_alike(a, b, test, a.len() as int);
        lemma_first_among(a, test, a.len() as int);
    }
}

proof fn lemma_first_alike<I>(
    a: Seq<LaneView<I>>,
    b: Seq<LaneView<I>>,
    test: spec_fn(LaneView<I>) -> bool,
    n: int,
)
    requires
        0 <= n <= a.len(),
        a.len() == b.len(),
        forall|i: int| 0 <= i < a.len() ==> test(#[trigger] a[i]) == test(b[i]),
    ensures
        first_among(a, test, n) == first_among(b, test, n),
    decreases n,
{
    if n > 0 {
        lemma_first_alike(a, b, test, n - 1);
        assert(test(a[n - 1]) == test(b[n - 1]));
    }
}

} // verus!
