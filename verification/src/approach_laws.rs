//! Which legs approach a reference after it or its commit has changed.

use crate::arrangement::{
    law_subtree, legs_added, lemma_chain_has_refs, lemma_kept_has_refs, not_carried, resting_on,
    subtree, Member, StackSlot,
};
use crate::arrangement_laws::{
    law_position_read_back, law_rekey_position, law_set_position, lemma_agree_alike,
    lemma_approach_read_back, lemma_legs_moved_kept, lemma_other_left_alone, lemma_rekeyed_kept,
    lemma_rekeyed_places, lemma_same_legs, lemma_settled_kept,
};
use crate::creation_laws::{is_leg_among, lemma_legs_among, parents_fit};
use crate::editor_graph::{EditorGraphIndex, EditorLeg, EditorView, RefPosition};
use crate::lane_laws::{lemma_entered_lane, lemma_own_lane};
use crate::lanes::{lane_of, left_lanes};
use crate::order::{lemma_sorted_contains, sorted};
use crate::positions::{approach_with, lemma_kept_placed};
use crate::seqs::{lemma_filter_contains, lemma_push_contains};
use crate::stacking_laws::{
    lemma_chain_up_to_date, lemma_ground, lemma_kept_up_to_date, lemma_legs_moved_ground,
    lemma_rehung_position, lemma_settled_spots, lemma_still_grounded, up_to_date,
};
use vstd::prelude::*;

verus! {

impl EditorView {
    /// Whether the leg is one from a commit to `node`.
    pub open spec fn leads(self, leg: EditorLeg, node: EditorGraphIndex) -> bool {
        self.is_pick(leg.0) && self.parent_at(leg.0, leg.1) == Some(node)
    }

    /// The lanes are in step, references point at nodes, and what there is fits into memory.
    pub open spec fn sound(self) -> bool {
        self.fits() && parents_fit(self.nodes) && self.in_step() && self.grounded()
    }
}

/// The legs into a node are the ones that lead there.
pub proof fn lemma_leads(v: EditorView, node: EditorGraphIndex, leg: EditorLeg)
    requires
        v.fits(),
        parents_fit(v.nodes),
    ensures
        v.legs_into(node).contains(leg) <==> v.leads(leg, node),
{
    lemma_legs_among(v.nodes, node, v.nodes.len() as int);
    lemma_filter_contains(v.incoming(node), |l: EditorLeg| v.is_pick(l.0), leg);
    assert(v.incoming(node).contains(leg) <==> is_leg_among(
        v.nodes,
        node,
        v.nodes.len() as int,
        leg,
    ));
}

/// The legs that approach a reference lead to its commit.
pub proof fn lemma_approach_leads(v: EditorView, ix: EditorGraphIndex, leg: EditorLeg)
    requires
        v.fits(),
        parents_fit(v.nodes),
        v.approach(ix).contains(leg),
    ensures
        v.seat(ix) matches Some(pick) && v.leads(leg, pick),
{
    if let Some(stored) = v.position(ix) {
        let onto = v.legs_onto(stored.on);
        if let Some(lane) = lane_of(v.lanes, stored.on, ix) {
            lemma_filter_contains(onto, |l: EditorLeg| lane.legs.contains(l), leg);
        }
        assert(onto.contains(leg));
        if let Some(pick) = v.resolve(stored.on) {
            lemma_leads(v, pick, leg);
        }
    }
}

/// A reference is walked through once one of the legs that approach it was visited: where the
/// commits that were reached hold the parents of each of them, its commit was reached.
pub proof fn law_visited_leg_enters(
    v: EditorView,
    picks: Set<EditorGraphIndex>,
    start: EditorGraphIndex,
    ix: EditorGraphIndex,
    leg: EditorLeg,
)
    requires
        v.fits(),
        parents_fit(v.nodes),
        forall|p: EditorGraphIndex, slot: usize|
            picks.contains(p) && (#[trigger] v.parent_at(p, slot)) is Some && v.is_pick(
                v.parent_at(p, slot)->0,
            ) ==> picks.contains(v.parent_at(p, slot)->0),
        v.approach(ix).contains(leg),
        picks.contains(leg.0),
    ensures
        v.position(ix) matches Some(stored) && v.is_walked(start, picks)((ix, stored)),
{
    lemma_approach_leads(v, ix, leg);
    let stored = v.position(ix)->0;
    let pick = v.seat(ix)->0;
    lemma_resolved(v, stored.on, crate::editor_graph::WALK_LIMIT as nat);
    assert(v.parent_at(leg.0, leg.1) is Some);
    assert(v.reached(picks, stored.on));
}

/// What a node stands for is a commit.
proof fn lemma_resolved(v: EditorView, ix: EditorGraphIndex, fuel: nat)
    ensures
        v.resolve_in(ix, fuel) matches Some(pick) ==> v.is_pick(pick),
    decreases fuel,
{
    if fuel > 0 && !v.is_pick(ix) {
        match v.position(ix) {
            Some(p) => lemma_resolved(v, p.on, (fuel - 1) as nat),
            None => if v.parents(ix).len() > 0 {
                lemma_resolved(v, v.parents(ix)[0], (fuel - 1) as nat);
            },
        }
    }
}

/// What stands for the same commit has the same legs.
pub proof fn lemma_same_onto(v: EditorView, w: EditorView, on: EditorGraphIndex)
    requires
        v.grounded(),
        w.nodes == v.nodes,
        on is Node,
    ensures
        w.resolve(on) == v.resolve(on),
        w.legs_onto(on) == v.legs_onto(on),
{
    assert(v.same_ground(w));
    lemma_ground(v, w, on);
    if let Some(pick) = v.resolve(on) {
        lemma_same_legs(v, w, pick);
    }
}

/// A reference that is put on a node sits there, approached through those of the legs there that were
/// asked for, and all others sit and are approached as before.
pub proof fn lemma_put(
    v: EditorView,
    ix: EditorGraphIndex,
    on: EditorGraphIndex,
    approach: Seq<EditorLeg>,
    ambiguous: bool,
    below: Option<EditorGraphIndex>,
)
    requires
        v.sound(),
        v.has_ref(ix),
        on is Node,
    ensures
        ({
            let after = v.set_position(ix, on, approach, ambiguous, below);
            &&& after.sound()
            &&& after.nodes == v.nodes
            &&& after.refs.len() == v.refs.len()
            &&& after.position(ix) == Some(RefPosition { on, below, ambiguous })
            &&& after.approach(ix) == v.legs_onto(on).filter(|l: EditorLeg| approach.contains(l))
            &&& forall|j: EditorGraphIndex| j != ix ==> #[trigger] after.position(j) == v.position(j)
            &&& forall|j: EditorGraphIndex| j != ix ==> #[trigger] after.approach(j) == v.approach(j)
        }),
{
    let after = v.set_position(ix, on, approach, ambiguous, below);
    law_set_position(v, ix, on, approach, ambiguous, below);
    assert(after.nodes == v.nodes);
    assert forall|j: EditorGraphIndex| j != ix implies #[trigger] after.position(j) == v.position(
        j,
    ) by {}
    assert(after.position(ix) == Some(RefPosition { on, below, ambiguous }));
    assert forall|j: EditorGraphIndex|
        #[trigger] after.place(j) == v.place(j) || after.place(j) is Some && after.place(
            j,
        )->0 is Node by {
        if j != ix {
            assert(after.position(j) == v.position(j));
        }
    }
    lemma_still_grounded(v, after);
    lemma_same_onto(v, after, on);
    lemma_approach_read_back(v, ix, on, approach, ambiguous, below);
    assert forall|j: EditorGraphIndex| j != ix implies #[trigger] after.approach(j) == v.approach(
        j,
    ) by {
        assert(after.position(j) == v.position(j));
        if let Some(p) = v.position(j) {
            lemma_same_onto(v, after, p.on);
            lemma_other_left_alone(v, ix, on, approach, ambiguous, below, j);
        }
    }
}

/// Each reference of the list sits as it is listed to.
pub open spec fn listed_truly(v: EditorView, list: Seq<Member>) -> bool {
    forall|i: int| 0 <= i < list.len() ==> v.position((#[trigger] list[i]).0) == Some(list[i].1)
}

pub proof fn lemma_listed_more(list: Seq<Member>, n: int, ix: EditorGraphIndex)
    requires
        0 < n <= list.len(),
    ensures
        EditorView::listed(list.take(n), ix) <==> EditorView::listed(list.take(n - 1), ix)
            || list[n - 1].0 == ix,
{
    let (a, b) = (list.take(n - 1), list.take(n));
    if EditorView::listed(a, ix) {
        let i = choose|i: int| 0 <= i < a.len() && (#[trigger] a[i]).0 == ix;
        assert(b[i].0 == ix);
    }
    assert(b[n - 1] == list[n - 1]);
    if EditorView::listed(b, ix) {
        let i = choose|i: int| 0 <= i < b.len() && (#[trigger] b[i]).0 == ix;
        if i < n - 1 {
            assert(a[i].0 == ix);
        }
    }
}

/// What references that are listed are like after they were settled with this approach.
pub open spec fn put_alike(
    v: EditorView,
    after: EditorView,
    list: Seq<Member>,
    approach: Seq<EditorLeg>,
) -> bool {
    &&& after.sound()
    &&& after.nodes == v.nodes
    &&& after.refs.len() == v.refs.len()
    &&& forall|ix: EditorGraphIndex|
        !EditorView::listed(list, ix) ==> #[trigger] after.position(ix) == v.position(ix)
    &&& forall|ix: EditorGraphIndex|
        !EditorView::listed(list, ix) ==> #[trigger] after.approach(ix) == v.approach(ix)
    &&& forall|ix: EditorGraphIndex|
        EditorView::listed(list, ix) && v.position(ix) is Some ==> #[trigger] after.approach(ix)
            == v.legs_onto(v.position(ix)->0.on).filter(|l: EditorLeg| approach.contains(l))
}

proof fn lemma_put_one_more(
    v: EditorView,
    before: EditorView,
    list: Seq<Member>,
    approach: Seq<EditorLeg>,
    ambiguous: bool,
    n: int,
)
    requires
        v.sound(),
        listed_truly(v, list),
        0 < n <= list.len(),
        put_alike(v, before, list.take(n - 1), approach),
    ensures
        put_alike(
            v,
            before.set_position(
                list[n - 1].0,
                list[n - 1].1.on,
                approach,
                ambiguous,
                list[n - 1].1.below,
            ),
            list.take(n),
            approach,
        ),
{
    let (node, m) = list[n - 1];
    let after = before.set_position(node, m.on, approach, ambiguous, m.below);
    assert(v.position(list[n - 1].0) == Some(m));
    lemma_put(before, node, m.on, approach, ambiguous, m.below);
    lemma_same_onto(v, before, m.on);
    assert forall|ix: EditorGraphIndex|
        !EditorView::listed(list.take(n), ix) implies #[trigger] after.position(ix) == v.position(
        ix,
    ) by {
        lemma_listed_more(list, n, ix);
        assert(after.position(ix) == before.position(ix));
    }
    assert forall|ix: EditorGraphIndex|
        !EditorView::listed(list.take(n), ix) implies #[trigger] after.approach(ix) == v.approach(
        ix,
    ) by {
        lemma_listed_more(list, n, ix);
        assert(after.approach(ix) == before.approach(ix));
    }
    assert forall|ix: EditorGraphIndex|
        EditorView::listed(list.take(n), ix) && v.position(ix) is Some implies #[trigger] after.approach(
        ix,
    ) == v.legs_onto(v.position(ix)->0.on).filter(|l: EditorLeg| approach.contains(l)) by {
        lemma_listed_more(list, n, ix);
        if ix != node {
            assert(after.approach(ix) == before.approach(ix));
        }
    }
}

proof fn lemma_joined(v: EditorView, list: Seq<Member>, approach: Seq<EditorLeg>, n: int)
    requires
        v.sound(),
        listed_truly(v, list),
        0 <= n <= list.len(),
    ensures
        put_alike(v, v.chain_joined(list, approach, n), list.take(n), approach),
        forall|ix: EditorGraphIndex|
            EditorView::listed(list.take(n), ix) && v.position(ix) is Some
                ==> #[trigger] v.chain_joined(list, approach, n).position(ix) == Some(
                RefPosition {
                    ambiguous: v.position(ix)->0.ambiguous || approach.len() > 1,
                    ..v.position(ix)->0
                },
            ),
    decreases n,
{
    if n > 0 {
        lemma_joined(v, list, approach, n - 1);
        let before = v.chain_joined(list, approach, n - 1);
        let after = v.chain_joined(list, approach, n);
        let (node, m) = list[n - 1];
        let ambiguous = m.ambiguous || approach.len() > 1;
        assert(v.position(list[n - 1].0) == Some(m));
        lemma_put_one_more(v, before, list, approach, ambiguous, n);
        lemma_put(before, node, m.on, approach, ambiguous, m.below);
        assert forall|ix: EditorGraphIndex|
            EditorView::listed(list.take(n), ix) && v.position(
                ix,
            ) is Some implies #[trigger] after.position(ix) == Some(
            RefPosition {
                ambiguous: v.position(ix)->0.ambiguous || approach.len() > 1,
                ..v.position(ix)->0
            },
        ) by {
            lemma_listed_more(list, n, ix);
            if ix != node {
                assert(after.position(ix) == before.position(ix));
            }
        }
    } else {
        assert(list.take(n) =~= Seq::empty());
    }
}

pub proof fn lemma_settled_alike(
    v: EditorView,
    list: Seq<Member>,
    approach: Seq<EditorLeg>,
    ambiguous: bool,
    n: int,
)
    requires
        v.sound(),
        listed_truly(v, list),
        0 <= n <= list.len(),
    ensures
        put_alike(v, v.settled(list, approach, ambiguous, n), list.take(n), approach),
    decreases n,
{
    if n > 0 {
        lemma_settled_alike(v, list, approach, ambiguous, n - 1);
        lemma_put_one_more(
            v,
            v.settled(list, approach, ambiguous, n - 1),
            list,
            approach,
            ambiguous,
            n,
        );
    } else {
        assert(list.take(n) =~= Seq::empty());
    }
}

/// `w` is `v` with one more leg into `pick`: the references sit as they did, what is left of commits
/// leads where it led, and the other legs into `pick` are those that were there.
pub open spec fn leg_entered(
    v: EditorView,
    w: EditorView,
    leg: EditorLeg,
    pick: EditorGraphIndex,
) -> bool {
    &&& w.refs == v.refs
    &&& w.lanes == v.lanes
    &&& v.same_ground(w)
    &&& !v.leads(leg, pick)
    &&& w.leads(leg, pick)
    &&& forall|l: EditorLeg| l != leg ==> (#[trigger] w.leads(l, pick) <==> v.leads(l, pick))
}

/// What is underneath a reference is listed where it sits.
proof fn lemma_stack_truly(v: EditorView, cursor: Option<EditorGraphIndex>, n: nat)
    ensures
        listed_truly(v, v.stack(cursor, n)),
    decreases n,
{
    if let Some(b) = cursor {
        if let Some(m) = v.position(b) {
            if n > 0 {
                lemma_stack_truly(v, m.below, (n - 1) as nat);
                let rest = v.stack(m.below, (n - 1) as nat);
                let all = v.stack(cursor, n);
                assert forall|i: int| 0 <= i < all.len() implies v.position((#[trigger] all[i]).0)
                    == Some(all[i].1) by {
                    if i > 0 {
                        assert(all[i] == rest[i - 1]);
                    }
                }
            }
        }
    }
}

/// Those that a leg enters with a reference sit where they are listed to sit, on the commit of the
/// reference.
proof fn lemma_joining(v: EditorView, node: EditorGraphIndex, n: nat)
    requires
        v.fits(),
        v.position(node) is Some,
    ensures
        listed_truly(v, v.joining(node, n)),
        forall|i: int|
            0 <= i < v.joining(node, n).len() ==> v.resolve((#[trigger] v.joining(node, n)[i]).1.on)
                == v.seat(node),
        EditorView::listed(v.joining(node, n), node),
{
    let stored = v.position(node)->0;
    let members = v.joining(node, n);
    let chain = v.chain(node);
    let in_chain = |m: Member|
        v.approach(m.0) == v.approach(node) && v.resolve(m.1.on) == v.resolve(stored.on);
    assert(chain == v.placed().filter(in_chain));
    lemma_kept_placed(v, in_chain);
    let stack = v.stack(stored.below, n);
    let test = |m: Member| EditorView::listed(chain, m.0);
    lemma_stack_truly(v, stored.below, n);
    assert(members[0] == (node, stored));
    assert forall|i: int| 0 <= i < members.len() implies v.position((#[trigger] members[i]).0)
        == Some(members[i].1) && v.resolve(members[i].1.on) == v.seat(node) by {
        if i > 0 {
            let rest = stack.filter(test);
            assert(members[i] == rest[i - 1]);
            assert(rest.contains(rest[i - 1]));
            lemma_filter_contains(stack, test, rest[i - 1]);
            let k = choose|k: int| 0 <= k < stack.len() && stack[k] == members[i];
            assert(v.position(stack[k].0) == Some(stack[k].1));
            let j = choose|j: int| 0 <= j < chain.len() && (#[trigger] chain[j]).0 == members[i].0;
            assert(v.position(chain[j].0) == Some(chain[j].1) && in_chain(chain[j]));
        }
    }
}

/// A leg that enters a chain is one more leg that approaches each reference it enters: they sit where
/// they sat, are approached through the legs that they shared and the new one, and are ambiguous if
/// they were or if there is more than that one. The other references sit where they sat.
pub proof fn law_chain_join(
    v: EditorView,
    w: EditorView,
    node: EditorGraphIndex,
    leg: EditorLeg,
    pick: EditorGraphIndex,
    n: nat,
)
    requires
        v.sound(),
        w.sound(),
        v.seat(node) == Some(pick),
        leg_entered(v, w, leg, pick),
        v.is_root(node) || v.stack_ends(v.below(node), n),
    ensures
        ({
            let members = v.joining(node, n);
            let after = w.chain_joined(
                members,
                approach_with(v.approach(node), leg),
                members.len() as int,
            );
            &&& EditorView::listed(members, node)
            &&& forall|ix: EditorGraphIndex|
                EditorView::listed(members, ix) ==> v.position(ix) is Some
                    && #[trigger] after.position(ix) == Some(
                    RefPosition {
                        ambiguous: v.position(ix)->0.ambiguous || v.approach(node).len() > 0,
                        ..v.position(ix)->0
                    },
                )
            &&& forall|ix: EditorGraphIndex, l: EditorLeg|
                EditorView::listed(members, ix) ==> (#[trigger] after.approach(ix).contains(l)
                    <==> v.approach(node).contains(l) || l == leg)
            &&& forall|ix: EditorGraphIndex|
                !EditorView::listed(members, ix) ==> #[trigger] after.position(ix) == v.position(ix)
        }),
{
    let members = v.joining(node, n);
    let approach = approach_with(v.approach(node), leg);
    let after = w.chain_joined(members, approach, members.len() as int);
    lemma_joining(v, node, n);
    assert forall|ix: EditorGraphIndex| #[trigger] w.position(ix) == v.position(ix) by {}
    assert(listed_truly(w, members)) by {
        assert forall|i: int| 0 <= i < members.len() implies w.position((#[trigger] members[i]).0)
            == Some(members[i].1) by {
            assert(w.position(members[i].0) == v.position(members[i].0));
        }
    }
    lemma_joined(w, members, approach, members.len() as int);
    assert(members.take(members.len() as int) =~= members);
    if v.approach(node).contains(leg) {
        lemma_approach_leads(v, node, leg);
    }
    assert(approach == v.approach(node).push(leg));
    assert forall|ix: EditorGraphIndex| EditorView::listed(members, ix) implies v.position(
        ix,
    ) is Some && #[trigger] after.position(ix) == Some(
        RefPosition {
            ambiguous: v.position(ix)->0.ambiguous || v.approach(node).len() > 0,
            ..v.position(ix)->0
        },
    ) by {
        let i = choose|i: int| 0 <= i < members.len() && (#[trigger] members[i]).0 == ix;
        assert(v.position(members[i].0) == Some(members[i].1));
        assert(w.position(ix) == v.position(ix));
    }
    assert forall|ix: EditorGraphIndex, l: EditorLeg|
        EditorView::listed(members, ix) implies (#[trigger] after.approach(ix).contains(l)
        <==> v.approach(node).contains(l) || l == leg) by {
        let i = choose|i: int| 0 <= i < members.len() && (#[trigger] members[i]).0 == ix;
        assert(v.position(members[i].0) == Some(members[i].1));
        assert(w.position(ix) == v.position(ix));
        let on = members[i].1.on;
        assert(v.resolve(on) == v.seat(node));
        lemma_ground(v, w, on);
        let wanted = |l: EditorLeg| approach.contains(l);
        assert(after.approach(ix) == w.legs_onto(on).filter(wanted));
        lemma_filter_contains(w.legs_onto(on), wanted, l);
        lemma_leads(w, pick, l);
        lemma_push_contains(v.approach(node), leg, l);
        if v.approach(node).contains(l) {
            lemma_approach_leads(v, node, l);
            if l != leg {
                assert(w.leads(l, pick) <==> v.leads(l, pick));
            }
        }
    }
    assert forall|ix: EditorGraphIndex|
        !EditorView::listed(members, ix) implies #[trigger] after.position(ix) == v.position(ix) by {
        assert(w.position(ix) == v.position(ix));
    }
}

/// A parent that is added to a commit is one more leg into that parent.
pub proof fn law_pushed_parent_is_a_leg(v: EditorView, child: usize, pick: EditorGraphIndex)
    requires
        v.sound(),
        v.is_pick(EditorGraphIndex::Node(child)),
        v.parents(EditorGraphIndex::Node(child)).len() < usize::MAX,
    ensures
        ({
            let at = EditorGraphIndex::Node(child);
            let w = v.with_parents(child as int, v.parents(at).push(pick));
            &&& leg_entered(v, w, (at, v.parents(at).len() as usize), pick)
            &&& w.sound()
        }),
{
    let at = EditorGraphIndex::Node(child);
    let parents = v.parents(at);
    let w = v.with_parents(child as int, parents.push(pick));
    let leg = (at, parents.len() as usize);
    assert forall|l: EditorLeg| l != leg implies (#[trigger] w.leads(l, pick) <==> v.leads(
        l,
        pick,
    )) by {
        if l.0 == at {
            assert(w.parents(at) == parents.push(pick));
        } else {
            assert(w.parents(l.0) == v.parents(l.0));
        }
        assert(w.pick(l.0) == v.pick(l.0));
    }
    assert(w.parents(at) == parents.push(pick));
    assert(w.pick(at) == v.pick(at));
    assert forall|ix: EditorGraphIndex| #[trigger] w.place(ix) == v.place(ix) by {
        assert(w.position(ix) == v.position(ix));
    }
    lemma_still_grounded(v, w);
    assert forall|ix: EditorGraphIndex| #[trigger] v.places()(ix) == w.places()(ix) by {
        assert(w.place(ix) == v.place(ix));
    }
    lemma_agree_alike(v.lanes, v.places(), w.places());
    assert forall|i: int| 0 <= i < w.nodes.len() implies (#[trigger] w.nodes[i]).parents.len()
        <= usize::MAX by {
        assert(v.nodes[i].parents.len() <= usize::MAX);
    }
}

/// References whose places and lanes are what they were are approached as they were.
pub proof fn lemma_same_places(v: EditorView, w: EditorView)
    requires
        v.sound(),
        w.nodes == v.nodes,
        w.lanes == v.lanes,
        w.refs.len() == v.refs.len(),
        forall|ix: EditorGraphIndex| #[trigger] w.place(ix) == v.place(ix),
    ensures
        w.sound(),
        forall|ix: EditorGraphIndex| #[trigger] w.approach(ix) == v.approach(ix),
        forall|ix: EditorGraphIndex| #[trigger] w.seat(ix) == v.seat(ix),
{
    lemma_still_grounded(v, w);
    assert forall|ix: EditorGraphIndex| #[trigger] v.places()(ix) == w.places()(ix) by {
        assert(w.place(ix) == v.place(ix));
    }
    lemma_agree_alike(v.lanes, v.places(), w.places());
    assert forall|ix: EditorGraphIndex| #[trigger] w.approach(ix) == v.approach(ix) by {
        assert(w.place(ix) == v.place(ix));
        if let Some(p) = v.position(ix) {
            lemma_same_onto(v, w, p.on);
        }
    }
    assert forall|ix: EditorGraphIndex| #[trigger] w.seat(ix) == v.seat(ix) by {
        assert(w.place(ix) == v.place(ix));
        if let Some(p) = v.position(ix) {
            lemma_same_onto(v, w, p.on);
        }
    }
}

/// Legs that lead to `from` lead to `to` once they were moved, and all others where they led.
proof fn lemma_legs_moved(
    v: EditorView,
    legs: Seq<EditorLeg>,
    from: EditorGraphIndex,
    to: EditorGraphIndex,
    n: int,
    l: EditorLeg,
)
    requires
        from != to,
        forall|i: int| 0 <= i < legs.len() ==> v.leads(#[trigger] legs[i], from),
        0 <= n <= legs.len(),
    ensures
        ({
            let w = v.legs_moved(legs, from, to, n);
            &&& w.pick(l.0) == v.pick(l.0)
            &&& w.parents(l.0).len() == v.parents(l.0).len()
            &&& w.parent_at(l.0, l.1) == if legs.take(n).contains(l) {
                Some(to)
            } else {
                v.parent_at(l.0, l.1)
            }
        }),
    decreases n,
{
    if n > 0 {
        let leg = legs[n - 1];
        lemma_legs_moved(v, legs, from, to, n - 1, l);
        lemma_legs_moved(v, legs, from, to, n - 1, leg);
        let before = v.legs_moved(legs, from, to, n - 1);
        assert(legs.take(n) =~= legs.take(n - 1).push(leg));
        lemma_push_contains(legs.take(n - 1), leg, l);
        assert(v.leads(legs[n - 1], from));
        let k = leg.0->Node_0 as int;
        assert(leg.0 is Node);
        assert(before.pick(leg.0) == v.pick(leg.0));
        let w = v.legs_moved(legs, from, to, n);
        if before.parent_at(leg.0, leg.1) == Some(from) {
            assert(w == before.replace_parent(leg.0, leg.1, to));
            if l.0 == leg.0 {
                assert(w.parents(l.0) == before.parents(l.0).update(leg.1 as int, to));
            } else {
                assert(w.parents(l.0) == before.parents(l.0));
            }
        }
    } else {
        assert(legs.take(n) =~= Seq::empty());
    }
}

/// A graph whose legs were moved is as sound as it was, and references sit where they sat.
pub proof fn lemma_legs_moved_sound(
    v: EditorView,
    legs: Seq<EditorLeg>,
    from: EditorGraphIndex,
    to: EditorGraphIndex,
)
    requires
        v.sound(),
        from != to,
        forall|i: int| 0 <= i < legs.len() ==> v.leads(#[trigger] legs[i], from),
    ensures
        ({
            let w = v.legs_moved(legs, from, to, legs.len() as int);
            &&& w.sound()
            &&& v.same_ground(w)
            &&& w.refs == v.refs
            &&& forall|l: EditorLeg, node: EditorGraphIndex| #[trigger]
                w.leads(l, node) <==> if legs.contains(l) {
                    node == to
                } else {
                    v.leads(l, node)
                }
        }),
{
    let n = legs.len() as int;
    let w = v.legs_moved(legs, from, to, n);
    assert forall|i: int| 0 <= i < legs.len() implies v.is_pick((#[trigger] legs[i]).0) by {
        assert(v.leads(legs[i], from));
    }
    lemma_legs_moved_ground(v, legs, from, to, n);
    lemma_legs_moved_kept(v, legs, from, to, n);
    assert forall|ix: EditorGraphIndex| #[trigger] w.place(ix) == v.place(ix) by {
        assert(w.position(ix) == v.position(ix));
    }
    lemma_still_grounded(v, w);
    assert forall|i: int| 0 <= i < w.nodes.len() implies (#[trigger] w.nodes[i]).parents.len()
        <= usize::MAX by {
        let at = EditorGraphIndex::Node(i as usize);
        lemma_legs_moved(v, legs, from, to, n, (at, 0));
        assert(v.nodes[i].parents.len() <= usize::MAX);
        assert(w.parents(at) == w.nodes[i].parents);
        assert(v.parents(at) == v.nodes[i].parents);
    }
    assert(legs.take(n) =~= legs);
    assert forall|l: EditorLeg, node: EditorGraphIndex| #[trigger]
        w.leads(l, node) <==> if legs.contains(l) {
            node == to
        } else {
            v.leads(l, node)
        } by {
        lemma_legs_moved(v, legs, from, to, n, l);
        if legs.contains(l) {
            let i = choose|i: int| 0 <= i < legs.len() && legs[i] == l;
            assert(v.leads(legs[i], from));
        }
    }
}

/// What was added to an approach is in it, beside what was there.
pub proof fn lemma_legs_added(approach: Seq<EditorLeg>, legs: Seq<EditorLeg>, n: int, l: EditorLeg)
    requires
        0 <= n <= legs.len(),
    ensures
        legs_added(approach, legs, n).contains(l) <==> approach.contains(l) || legs.take(
            n,
        ).contains(l),
    decreases n,
{
    if n > 0 {
        lemma_legs_added(approach, legs, n - 1, l);
        let before = legs_added(approach, legs, n - 1);
        assert(legs.take(n) =~= legs.take(n - 1).push(legs[n - 1]));
        lemma_push_contains(legs.take(n - 1), legs[n - 1], l);
        lemma_push_contains(before, legs[n - 1], l);
    } else {
        assert(legs.take(n) =~= Seq::empty());
    }
}

/// Making place above a reference changes no place and no approach.
pub proof fn lemma_made_free_above(v: EditorView, node: EditorGraphIndex, target: EditorGraphIndex)
    requires
        v.sound(),
        v.position(node) is Some,
        v.position(target) is Some,
    ensures
        ({
            let spliced = v.spliced_out(node, v.position(node)->0.below);
            let (free, landing) = spliced.made_free(node, StackSlot::Above(target));
            &&& free.sound()
            &&& free.nodes == v.nodes
            &&& forall|ix: EditorGraphIndex| #[trigger] free.approach(ix) == v.approach(ix)
            &&& forall|ix: EditorGraphIndex| #[trigger] free.place(ix) == v.place(ix)
            &&& free.refs.len() == v.refs.len()
            &&& landing matches Some(landing) && landing.on == v.position(target)->0.on
                && landing.approach == v.approach(target)
        }),
{
    let spliced = v.spliced_out(node, v.position(node)->0.below);
    assert forall|ix: EditorGraphIndex| #[trigger] spliced.place(ix) == v.place(ix) by {
        lemma_rehung_position(v, v.resting(node), v.position(node)->0.below, ix);
    }
    lemma_same_places(v, spliced);
    assert(spliced.place(target) == v.place(target));
    let hung = spliced.set_below(node, Some(target));
    assert(spliced.place(node) == v.place(node));
    assert forall|ix: EditorGraphIndex| #[trigger] hung.place(ix) == spliced.place(ix) by {}
    lemma_same_places(spliced, hung);
    let mates = resting_on(hung.chain(target), target, node);
    let free = hung.rehung(mates, Some(node));
    assert forall|ix: EditorGraphIndex| #[trigger] free.place(ix) == hung.place(ix) by {
        lemma_rehung_position(hung, mates, Some(node), ix);
    }
    lemma_same_places(hung, free);
    assert(spliced.made_free(node, StackSlot::Above(target)).0 == free);
    assert forall|ix: EditorGraphIndex| #[trigger] free.approach(ix) == v.approach(ix) by {
        assert(free.approach(ix) == hung.approach(ix));
        assert(hung.approach(ix) == spliced.approach(ix));
        assert(spliced.approach(ix) == v.approach(ix));
    }
    assert forall|ix: EditorGraphIndex| #[trigger] free.place(ix) == v.place(ix) by {
        assert(free.place(ix) == hung.place(ix));
        assert(hung.place(ix) == spliced.place(ix));
        assert(spliced.place(ix) == v.place(ix));
    }
}

/// The legs that approach `ix` are those that approached `a`, and with `both` also those that
/// approached `b`.
pub open spec fn approached_through(
    after: EditorView,
    ix: EditorGraphIndex,
    v: EditorView,
    a: EditorGraphIndex,
    b: EditorGraphIndex,
    both: bool,
) -> bool {
    forall|l: EditorLeg| #[trigger]
        after.approach(ix).contains(l) <==> v.approach(a).contains(l) || both && v.approach(
            b,
        ).contains(l)
}

/// The legs that approach a reference follow it above another one, unless something of its chain was
/// underneath it: they then lead to the commit of the other, and approach both, beside the legs that
/// approached the other before. If something was underneath, the legs stay, and the reference is
/// approached as the other is.
pub proof fn law_legs_follow_above(
    v: EditorView,
    node: EditorGraphIndex,
    target: EditorGraphIndex,
)
    requires
        v.sound(),
        node != target,
        v.seat(node) is Some,
        v.seat(target) is Some,
    ensures
        ({
            let after = v.moved_ref(node, StackSlot::Above(target));
            let follow = v.sole_carrier(node);
            &&& after.sound()
            &&& after.seat(node) == v.seat(target)
            &&& after.seat(target) == v.seat(target)
            &&& approached_through(after, node, v, target, node, follow)
            &&& approached_through(after, target, v, target, node, follow)
            &&& follow ==> forall|l: EditorLeg| #[trigger]
                v.approach(node).contains(l) ==> after.leads(l, v.seat(target)->0)
        }),
{
    let moving = v.position(node)->0;
    let stored = v.position(target)->0;
    let slot = StackSlot::Above(target);
    let (old_pick, new_pick) = (v.seat(node)->0, v.seat(target)->0);
    let (free, landing) = v.spliced_out(node, moving.below).made_free(node, slot);
    lemma_made_free_above(v, node, target);
    let landing = landing->0;
    lemma_same_onto(v, free, moving.on);
    lemma_same_onto(v, free, stored.on);
    assert(free.place(node) == v.place(node));
    assert(free.place(target) == v.place(target));
    assert(free.approach(target) == v.approach(target));
    let after = v.moved_ref(node, slot);
    if v.sole_carrier(node) {
        let legs = v.approach(node);
        assert forall|i: int| 0 <= i < legs.len() implies v.leads(#[trigger] legs[i], old_pick)
            && free.leads(legs[i], old_pick) by {
            assert(legs.contains(legs[i]));
            lemma_approach_leads(v, node, legs[i]);
            assert(free.parents(legs[i].0) == v.parents(legs[i].0));
            assert(free.pick(legs[i].0) == v.pick(legs[i].0));
        }
        let moved = if old_pick != new_pick {
            free.legs_moved(legs, old_pick, new_pick, legs.len() as int)
        } else {
            free
        };
        if old_pick != new_pick {
            lemma_legs_moved_sound(free, legs, old_pick, new_pick);
        }
        assert(moved.sound() && free.same_ground(moved) && moved.refs == free.refs);
        let approach = sorted::<EditorLeg>(
            legs_added(landing.approach, legs, legs.len() as int),
        );
        assert(moved.position(target) == free.position(target));
        let mates = moved.not_above(target, node);
        let at = moved.position(target)->0;
        assert(at.on == stored.on);
        lemma_mates(moved, target, node);
        lemma_settled_alike(moved, mates, approach, approach.len() > 1, mates.len() as int);
        assert(mates.take(mates.len() as int) =~= mates);
        let followed = moved.settled(mates, approach, approach.len() > 1, mates.len() as int);
        assert(free.legs_followed(node, slot, landing, Some(legs), moving.on) == (
            followed,
            approach,
        ));
        assert(free.position(node) is Some);
        lemma_put(
            followed,
            node,
            landing.on,
            approach,
            approach.len() > 1,
            landing.below,
        );
        lemma_ground(free, moved, stored.on);
        lemma_same_onto(moved, followed, stored.on);
        lemma_same_onto(followed, after, stored.on);
        assert(up_to_date(moved, mates)) by {
            assert forall|i: int| 0 <= i < mates.len() implies moved.place((#[trigger] mates[i]).0)
                == Some(mates[i].1.on) && moved.below(mates[i].0) == mates[i].1.below by {
                assert(moved.position(mates[i].0) == Some(mates[i].1));
            }
        }
        lemma_settled_spots(moved, mates, approach, approach.len() > 1, mates.len() as int);
        assert(followed.place(target) == moved.place(target));
        assert(after.position(target) == followed.position(target));
        let wanted = |l: EditorLeg| approach.contains(l);
        assert(after.approach(node) == moved.legs_into(new_pick).filter(wanted));
        assert(after.approach(target) == followed.approach(target));
        assert(followed.approach(target) == moved.legs_onto(at.on).filter(wanted));
        assert forall|l: EditorLeg| #[trigger]
            moved.legs_into(new_pick).filter(wanted).contains(l) <==> v.approach(target).contains(l)
                || legs.contains(l) by {
            lemma_filter_contains(moved.legs_into(new_pick), wanted, l);
            lemma_leads(moved, new_pick, l);
            lemma_sorted_contains::<EditorLeg>(
                legs_added(landing.approach, legs, legs.len() as int),
                l,
            );
            lemma_legs_added(landing.approach, legs, legs.len() as int, l);
            assert(legs.take(legs.len() as int) =~= legs);
            if v.approach(target).contains(l) {
                lemma_approach_leads(v, target, l);
                assert(free.parents(l.0) == v.parents(l.0));
                assert(free.pick(l.0) == v.pick(l.0));
                assert(free.leads(l, new_pick));
            }
            if legs.contains(l) {
                let i = choose|i: int| 0 <= i < legs.len() && legs[i] == l;
                assert(free.leads(legs[i], old_pick));
            }
            if v.approach(target).contains(l) || legs.contains(l) {
                assert(moved.leads(l, new_pick));
            }
        }
        assert forall|l: EditorLeg| #[trigger] legs.contains(l) implies after.leads(
            l,
            new_pick,
        ) by {
            assert(moved.legs_into(new_pick).filter(wanted).contains(l));
            lemma_filter_contains(moved.legs_into(new_pick), wanted, l);
            lemma_leads(moved, new_pick, l);
            assert(after.parents(l.0) == moved.parents(l.0));
            assert(after.pick(l.0) == moved.pick(l.0));
        }
    } else {
        assert(free.legs_followed(node, slot, landing, None, moving.on) == (
            free,
            landing.approach,
        ));
        let approach = landing.approach;
        lemma_put(free, node, landing.on, approach, approach.len() > 1, landing.below);
        lemma_same_onto(free, after, stored.on);
        assert(after.approach(target) == free.approach(target));
        let wanted = |l: EditorLeg| approach.contains(l);
        assert forall|l: EditorLeg| #[trigger]
            after.approach(node).contains(l) <==> v.approach(target).contains(l) by {
            lemma_filter_contains(free.legs_into(new_pick), wanted, l);
            lemma_leads(free, new_pick, l);
            if v.approach(target).contains(l) {
                lemma_approach_leads(v, target, l);
                assert(free.parents(l.0) == v.parents(l.0));
                assert(free.pick(l.0) == v.pick(l.0));
            }
        }
        assert(after.position(target) == free.position(target));
    }
}

/// Those that are settled with a reference that comes above `target` hold `target`, and not the
/// reference.
proof fn lemma_mates(v: EditorView, target: EditorGraphIndex, node: EditorGraphIndex)
    requires
        v.fits(),
        node != target,
        v.position(target) is Some,
    ensures
        listed_truly(v, v.not_above(target, node)),
        EditorView::listed(v.not_above(target, node), target),
{
    let stored = v.position(target)->0;
    let chain = v.chain(target);
    let in_chain = |m: Member|
        v.approach(m.0) == v.approach(target) && v.resolve(m.1.on) == v.resolve(stored.on);
    assert(chain == v.placed().filter(in_chain));
    lemma_kept_placed(v, in_chain);
    v.lemma_placed();
    let keep = v.no_higher(target, node);
    let mates = chain.filter(keep);
    assert(v.placed().contains((target, stored)));
    lemma_filter_contains(v.placed(), in_chain, (target, stored));
    lemma_filter_contains(chain, keep, (target, stored));
    let k = choose|k: int| 0 <= k < mates.len() && mates[k] == (target, stored);
    assert(mates[k].0 == target);
    assert forall|i: int| 0 <= i < mates.len() implies v.position((#[trigger] mates[i]).0) == Some(
        mates[i].1,
    ) by {
        assert(mates.contains(mates[i]));
        lemma_filter_contains(chain, keep, mates[i]);
        let j = choose|j: int| 0 <= j < chain.len() && chain[j] == mates[i];
        assert(v.position(chain[j].0) == Some(chain[j].1));
    }
}

/// A reference that points at what stands for the same commit is approached as it was.
proof fn lemma_rekeyed_approach(v: EditorView, node: EditorGraphIndex, onto: EditorGraphIndex)
    requires
        v.sound(),
        v.seat(node) == Some(onto),
        v.is_pick(onto),
    ensures
        v.rekey_position(node, onto).approach(node) == v.approach(node),
{
    let stored = v.position(node)->0;
    let after = v.rekey_position(node, onto);
    if stored.on != onto {
        law_rekey_position(v, node, onto);
        let (carry, legs) = v.carry_of(node);
        assert(after.places()(node) == Some(onto));
        lemma_entered_lane(
            left_lanes(v.lanes, node, stored.on),
            after.places(),
            node,
            onto,
            carry,
            legs,
        );
        assert(v.places()(node) == Some(stored.on));
        lemma_own_lane(v.lanes, v.places(), node, stored.on);
        assert(after.pick(onto) == v.pick(onto));
        assert(after.resolve(onto) == Some(onto));
        lemma_same_legs(v, after, onto);
        assert(after.legs_onto(onto) == v.legs_onto(stored.on));
    }
}

/// The legs that approach a reference follow it to another commit: it is approached through the legs
/// that approached it, and they lead to the commit.
pub proof fn law_legs_follow_repointed(
    v: EditorView,
    node: EditorGraphIndex,
    onto: EditorGraphIndex,
)
    requires
        v.sound(),
        v.seat(node) is Some,
        v.is_pick(onto),
    ensures
        ({
            let after = v.repointed_ref(node, onto);
            &&& after.seat(node) == Some(onto)
            &&& approached_through(after, node, v, node, node, true)
            &&& forall|l: EditorLeg| #[trigger]
                v.approach(node).contains(l) ==> after.leads(l, onto)
        }),
{
    let stored = v.position(node)->0;
    let old_pick = v.seat(node)->0;
    let legs = v.approach(node);
    let after = v.repointed_ref(node, onto);
    assert forall|i: int| 0 <= i < legs.len() implies v.leads(#[trigger] legs[i], old_pick) by {
        assert(legs.contains(legs[i]));
        lemma_approach_leads(v, node, legs[i]);
    }
    if old_pick != onto {
        let moved = v.legs_moved(legs, old_pick, onto, legs.len() as int);
        lemma_legs_moved_sound(v, legs, old_pick, onto);
        let below = moved.mate_below(node, onto, moved.depth(node));
        let carried = subtree(moved.live_placed(), node);
        let mates = moved.left_behind(node, carried);
        lemma_chain_up_to_date(moved, node, not_carried(node, carried));
        lemma_chain_has_refs(moved, node);
        lemma_kept_has_refs(moved, moved.chain(node), not_carried(node, carried));
        let settled = moved.settled(mates, Seq::empty(), false, mates.len() as int);
        lemma_settled_kept(moved, mates, Seq::empty(), false, mates.len() as int);
        lemma_settled_spots(moved, mates, Seq::empty(), false, mates.len() as int);
        lemma_kept_up_to_date(moved, moved.alive());
        law_subtree(moved.live_placed(), node);
        let keyed = settled.rekeyed(carried.skip(1), onto, carried.len() - 1);
        lemma_rekeyed_kept(settled, carried.skip(1), onto, carried.len() - 1);
        lemma_rekeyed_places(settled, carried.skip(1), onto, carried.len() - 1, node);
        assert(keyed.pick(onto) == v.pick(onto)) by {
            assert(keyed.pick(onto) == moved.pick(onto));
        }
        law_position_read_back(keyed, node, onto, legs, stored.ambiguous, below);
        lemma_same_legs(moved, keyed, onto);
        let wanted = |l: EditorLeg| legs.contains(l);
        assert forall|l: EditorLeg| #[trigger] after.approach(node).contains(l) <==> legs.contains(
            l,
        ) by {
            lemma_filter_contains(moved.legs_into(onto), wanted, l);
            lemma_leads(moved, onto, l);
        }
        assert forall|l: EditorLeg| #[trigger] legs.contains(l) implies after.leads(l, onto) by {
            assert(moved.leads(l, onto));
            assert(after.parents(l.0) == moved.parents(l.0));
            assert(after.pick(l.0) == moved.pick(l.0));
        }
    } else {
        lemma_rekeyed_approach(v, node, onto);
        assert(after.pick(onto) == v.pick(onto));
        assert(after.resolve(onto) == Some(onto));
        assert forall|l: EditorLeg| #[trigger] legs.contains(l) implies after.leads(l, onto) by {
            lemma_approach_leads(v, node, l);
            assert(after.parents(l.0) == v.parents(l.0));
            assert(after.pick(l.0) == v.pick(l.0));
        }
    }
}

} // verus!
