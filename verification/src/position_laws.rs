//! What is found of the positions of references, and what becomes of them with their commit.

use crate::approach_laws::{lemma_leads, lemma_put, lemma_same_onto};
use crate::editor_graph::{EditorGraphIndex, EditorLeg, EditorView, RefPosition, WALK_LIMIT};
use crate::lanes::LaneView;
use crate::position_checks::{stale_lanes, stale_legs, BelowFault, StaleView};
use crate::positions::{lemma_kept_placed, rests_on_list};
use crate::reach::{
    is_path, lemma_closed_reachable, lemma_entry_reachable, lemma_step_reachable, closed_under,
};
use crate::seqs::{lemma_filter_contains, lemma_push_contains};
use crate::stack_move_laws::lemma_rekey_put;
use crate::stacking_laws::{lemma_kept_up_to_date, lemma_listed};
use vstd::prelude::*;

verus! {

/// When the references of a commit are moved with it, each of them points at the other node, sits on
/// what it sat on, and is ambiguous if it was; where they are held against the legs there, it is
/// approached through those of its legs that lead there. All others stay as they were.
pub proof fn law_repositioned(
    v: EditorView,
    from: EditorGraphIndex,
    to: EditorGraphIndex,
    reclassify: bool,
    ix: EditorGraphIndex,
)
    requires
        v.sound(),
        to is Node,
    ensures
        ({
            let after = v.repositioned(v.seated(from), to, reclassify, v.seated(from).len() as int);
            &&& after.nodes == v.nodes
            &&& v.seat(ix) == Some(from) ==> after.position(ix) == Some(
                RefPosition { on: to, ..v.position(ix)->0 },
            )
            &&& v.seat(ix) == Some(from) && reclassify ==> forall|l: EditorLeg| #[trigger]
                after.approach(ix).contains(l) <==> v.approach(ix).contains(l) && (v.resolve(
                    to,
                ) matches Some(pick) && v.leads(l, pick))
            &&& v.seat(ix) != Some(from) ==> after.position(ix) == v.position(ix) && after.approach(
                ix,
            ) == v.approach(ix)
        }),
{
    let keep = |m: (EditorGraphIndex, RefPosition)| v.resolve(m.1.on) == Some(from);
    let moves = v.seated(from);
    let n = moves.len() as int;
    lemma_kept_placed(v, keep);
    lemma_kept_up_to_date(v, keep);
    lemma_repositioned_put(v, moves, to, reclassify, n);
    lemma_listed(v, keep, ix);
    assert(moves.take(n) =~= moves);
    let after = v.repositioned(moves, to, reclassify, n);
    if v.seat(ix) == Some(from) && reclassify {
        let wanted = |x: EditorLeg| v.approach(ix).contains(x);
        assert(EditorView::listed(moves.take(n), ix));
        assert(after.approach(ix) == v.legs_onto(to).filter(wanted));
        assert forall|l: EditorLeg| #[trigger] after.approach(ix).contains(l) <==> v.approach(
            ix,
        ).contains(l) && (v.resolve(to) matches Some(pick) && v.leads(l, pick)) by {
            lemma_filter_contains(v.legs_onto(to), wanted, l);
            if let Some(pick) = v.resolve(to) {
                lemma_leads(v, pick, l);
            }
        }
    }
}

proof fn lemma_repositioned_put(
    v: EditorView,
    moves: Seq<(EditorGraphIndex, RefPosition)>,
    to: EditorGraphIndex,
    reclassify: bool,
    n: int,
)
    requires
        v.sound(),
        to is Node,
        0 <= n <= moves.len(),
        crate::approach_laws::listed_truly(v, moves),
        crate::arrangement::all_different(moves),
    ensures
        ({
            let w = v.repositioned(moves, to, reclassify, n);
            &&& w.sound()
            &&& w.nodes == v.nodes
            &&& w.refs.len() == v.refs.len()
            &&& forall|x: EditorGraphIndex|
                !EditorView::listed(moves.take(n), x) ==> #[trigger] w.position(x) == v.position(x)
            &&& forall|x: EditorGraphIndex|
                !EditorView::listed(moves.take(n), x) ==> #[trigger] w.approach(x) == v.approach(x)
            &&& forall|x: EditorGraphIndex|
                EditorView::listed(moves.take(n), x) ==> #[trigger] w.position(x) == Some(
                    RefPosition { on: to, ..v.position(x)->0 },
                )
            &&& reclassify ==> forall|x: EditorGraphIndex|
                EditorView::listed(moves.take(n), x) ==> #[trigger] w.approach(x) == v.legs_onto(
                    to,
                ).filter(|l: EditorLeg| v.approach(x).contains(l))
        }),
    decreases n,
{
    if n > 0 {
        lemma_repositioned_put(v, moves, to, reclassify, n - 1);
        let before = v.repositioned(moves, to, reclassify, n - 1);
        let (node, stored) = moves[n - 1];
        assert(v.position(moves[n - 1].0) == Some(stored));
        assert(!EditorView::listed(moves.take(n - 1), node)) by {
            if EditorView::listed(moves.take(n - 1), node) {
                let earlier = moves.take(n - 1);
                let i = choose|i: int| 0 <= i < earlier.len() && (#[trigger] earlier[i]).0 == node;
                assert(moves[i].0 == moves[n - 1].0);
            }
        }
        assert(before.position(node) == v.position(node));
        assert(before.approach(node) == v.approach(node));
        lemma_same_onto(v, before, to);
        if reclassify {
            lemma_put(before, node, to, v.approach(node), stored.ambiguous, stored.below);
        } else {
            lemma_rekey_put(before, node, to);
        }
        assert forall|x: EditorGraphIndex| #[trigger] EditorView::listed(moves.take(n), x)
            <==> EditorView::listed(moves.take(n - 1), x) || x == node by {
            crate::approach_laws::lemma_listed_more(moves, n, x);
        }
    }
}

/// A leg that enters a chain at a reference enters that reference; and, unless nothing descends into
/// it, each reference of its chain that it rests on, directly or over others.
pub proof fn law_joining(v: EditorView, node: EditorGraphIndex, n: nat, ix: EditorGraphIndex)
    requires
        v.fits(),
        v.position(node) is Some,
        v.stack_ends(v.below(node), n),
    ensures
        EditorView::listed(v.joining(node, n), ix) <==> ix == node || {
            &&& !v.is_root(node)
            &&& v.position(ix) is Some
            &&& v.seat(ix) == v.seat(node)
            &&& v.approach(ix) == v.approach(node)
            &&& v.below(node) matches Some(b) && v.leads_down_to(b, ix)
        },
{
    let stored = v.position(node)->0;
    let members = v.joining(node, n);
    let keep = |m: (EditorGraphIndex, RefPosition)| EditorView::listed(v.chain(node), m.0);
    let in_chain = |m: (EditorGraphIndex, RefPosition)|
        v.approach(m.0) == v.approach(node) && v.resolve(m.1.on) == v.resolve(stored.on);
    lemma_listed(v, in_chain, ix);
    if v.is_root(node) {
        assert(members[0].0 == node);
    } else {
        let stack = v.stack(stored.below, n);
        let rest = stack.filter(keep);
        assert(members == seq![(node, stored)] + rest);
        assert(members[0].0 == node);
        lemma_in_stack(v, stored.below, n, ix);
        if EditorView::listed(members, ix) && ix != node {
            let i = choose|i: int| 0 <= i < members.len() && (#[trigger] members[i]).0 == ix;
            assert(rest[i - 1] == members[i]);
            assert(rest.contains(rest[i - 1]));
            lemma_filter_contains(stack, keep, rest[i - 1]);
            let j = choose|j: int| 0 <= j < stack.len() && stack[j] == rest[i - 1];
            assert(stack[j].0 == ix);
        }
        if EditorView::listed(stack, ix) && EditorView::listed(v.chain(node), ix) {
            let j = choose|j: int| 0 <= j < stack.len() && (#[trigger] stack[j]).0 == ix;
            assert(stack.contains(stack[j]));
            lemma_filter_contains(stack, keep, stack[j]);
            let i = choose|i: int| 0 <= i < rest.len() && rest[i] == stack[j];
            assert(members[i + 1] == rest[i]);
            assert(members[i + 1].0 == ix);
        }
    }
}

/// The stack from a reference down is what going down from it leads to.
proof fn lemma_in_stack(
    v: EditorView,
    cursor: Option<EditorGraphIndex>,
    n: nat,
    ix: EditorGraphIndex,
)
    requires
        v.stack_ends(cursor, n),
    ensures
        EditorView::listed(v.stack(cursor, n), ix) ==> cursor is Some && v.leads_down_to(
            cursor->0,
            ix,
        ),
        cursor is Some && v.leads_down_to(cursor->0, ix) && v.position(ix) is Some
            ==> EditorView::listed(v.stack(cursor, n), ix),
    decreases n,
{
    let all = v.stack(cursor, n);
    if let Some(b) = cursor {
        let next = rests_on_list(v);
        let entries = seq![b];
        assert(entries[0] == b);
        lemma_entry_reachable(next, entries, b);
        let rest = v.stack(v.below(b), (n - 1) as nat);
        lemma_in_stack(v, v.below(b), (n - 1) as nat, ix);
        if EditorView::listed(all, ix) {
            let i = choose|i: int| 0 <= i < all.len() && (#[trigger] all[i]).0 == ix;
            if i > 0 {
                assert(all[i] == rest[i - 1]);
                assert(rest[i - 1].0 == ix);
                let c = v.below(b)->0;
                lemma_further_down(v, b, c, ix);
            }
        }
        if v.leads_down_to(b, ix) && v.position(ix) is Some {
            lemma_one_down(v, b, ix);
            if ix == b {
                assert(all[0].0 == b);
            } else {
                let i = choose|i: int| 0 <= i < rest.len() && (#[trigger] rest[i]).0 == ix;
                assert(v.position(b) is Some);
                assert(all[i + 1] == rest[i]);
                assert(all[i + 1].0 == ix);
            }
        }
    }
}

proof fn lemma_further_down(
    v: EditorView,
    b: EditorGraphIndex,
    c: EditorGraphIndex,
    ix: EditorGraphIndex,
)
    requires
        v.below(b) == Some(c),
        v.leads_down_to(c, ix),
    ensures
        v.leads_down_to(b, ix),
{
    let next = rests_on_list(v);
    let path = choose|path: Seq<EditorGraphIndex>|
        #![trigger is_path(next, path)]
        is_path(next, path) && seq![c].contains(path[0]) && path.last() == ix;
    assert(path[0] == c) by {
        let i = choose|i: int| 0 <= i < seq![c].len() && seq![c][i] == path[0];
    }
    let longer = seq![b] + path;
    assert forall|i: int| 0 < i < longer.len() implies next(longer[i - 1]).contains(
        #[trigger] longer[i],
    ) by {
        if i == 1 {
            assert(next(b)[0] == c);
            assert(longer[0] == b && longer[1] == c);
        } else {
            assert(longer[i] == path[i - 1] && longer[i - 1] == path[i - 2]);
        }
    }
    assert(is_path(next, longer));
    assert(seq![b][0] == b);
    assert(seq![b].contains(longer[0]));
    assert(longer.last() == ix);
}

proof fn lemma_one_down(v: EditorView, b: EditorGraphIndex, ix: EditorGraphIndex)
    requires
        v.leads_down_to(b, ix),
    ensures
        ix == b || (v.below(b) matches Some(c) && v.leads_down_to(c, ix)),
{
    let next = rests_on_list(v);
    let set = Set::new(
        |x: EditorGraphIndex| x == b || (v.below(b) matches Some(c) && v.leads_down_to(c, x)),
    );
    assert(closed_under(next, set)) by {
        assert forall|x: EditorGraphIndex, y: EditorGraphIndex|
            set.contains(x) && #[trigger] next(x).contains(y) implies set.contains(y) by {
            assert(v.below(x) == Some(y));
            if x == b {
                assert(seq![y][0] == y);
                lemma_entry_reachable(next, seq![y], y);
            } else {
                lemma_step_reachable(next, seq![v.below(b)->0], x, y);
            }
        }
    }
    assert forall|e: EditorGraphIndex| seq![b].contains(e) implies set.contains(e) by {
        let i = choose|i: int| 0 <= i < seq![b].len() && seq![b][i] == e;
    }
    lemma_closed_reachable(next, set, seq![b], ix);
}

/// The references that are walked through are those on a commit that was reached, itself or as another
/// node with the same id; the one that the walk starts at; and what of its chain it rests on.
pub proof fn law_walked_refs(
    v: EditorView,
    start: EditorGraphIndex,
    picks: Set<EditorGraphIndex>,
    ix: EditorGraphIndex,
)
    requires
        v.fits(),
    ensures
        v.placed().filter(v.is_walked(start, picks)).map_values(
            |m: (EditorGraphIndex, RefPosition)| m.0,
        ).contains(ix) <==> v.position(ix) is Some && {
            ||| v.seat(ix) matches Some(pick) && picks.contains(pick)
            ||| exists|other: EditorGraphIndex|
                #![trigger picks.contains(other)]
                picks.contains(other) && (v.seat(ix) matches Some(pick) && v.commit_id(pick) is Some
                    && v.commit_id(pick) == v.commit_id(other))
            ||| ix == start
            ||| v.position(start) is Some && v.seat(ix) == v.seat(start) && v.approach(ix)
                == v.approach(start) && v.leads_down_to(start, ix)
        },
{
    let keep = v.is_walked(start, picks);
    let list = v.placed().filter(keep);
    let nodes = list.map_values(|m: (EditorGraphIndex, RefPosition)| m.0);
    lemma_listed(v, keep, ix);
    if nodes.contains(ix) {
        let i = choose|i: int| 0 <= i < nodes.len() && nodes[i] == ix;
        assert(list[i].0 == ix);
    }
    if EditorView::listed(list, ix) {
        let i = choose|i: int| 0 <= i < list.len() && (#[trigger] list[i]).0 == ix;
        assert(nodes[i] == ix);
    }
    if v.position(start) is Some {
        let in_chain = |m: (EditorGraphIndex, RefPosition)|
            v.approach(m.0) == v.approach(start) && v.resolve(m.1.on) == v.resolve(
                v.position(start)->0.on,
            );
        lemma_listed(v, in_chain, ix);
    }
}

/// A leg is stale exactly if a lane above one of the nodes names it and it does not lead to the commit
/// that the node stands for.
#[verifier::rlimit(40)]
pub proof fn law_stale_legs(
    v: EditorView,
    keys: Seq<EditorGraphIndex>,
    n: int,
    s: StaleView,
)
    requires
        v.fits(),
        crate::creation_laws::parents_fit(v.nodes),
        0 <= n <= keys.len(),
    ensures
        v.stale(keys, n).contains(s) <==> exists|k: int, i: int|
            {
                &&& 0 <= k < n
                &&& keys[k] == s.key
                &&& 0 <= i < v.lanes[keys[k]].len()
                &&& (#[trigger] v.lanes[keys[k]][i]).members == s.members
                &&& v.lanes[keys[k]][i].legs.contains(s.leg)
                &&& !(v.resolve(s.key) matches Some(pick) && v.leads(s.leg, pick))
            },
    decreases n,
{
    if n > 0 {
        law_stale_legs(v, keys, n - 1, s);
        let key = keys[n - 1];
        let live = v.legs_onto(key);
        let lanes = v.lanes[key];
        let (before, own) = (v.stale(keys, n - 1), stale_lanes(key, lanes, live, lanes.len() as int));
        crate::reach::lemma_add_contains(before, own, s);
        lemma_stale_lanes(key, lanes, live, lanes.len() as int, s);
        if let Some(pick) = v.resolve(key) {
            lemma_leads(v, pick, s.leg);
        }
        if before.contains(s) {
            let (k, i) = choose|k: int, i: int|
                {
                    &&& 0 <= k < n - 1
                    &&& keys[k] == s.key
                    &&& 0 <= i < v.lanes[keys[k]].len()
                    &&& (#[trigger] v.lanes[keys[k]][i]).members == s.members
                    &&& v.lanes[keys[k]][i].legs.contains(s.leg)
                    &&& !(v.resolve(s.key) matches Some(pick) && v.leads(s.leg, pick))
                };
            assert(v.lanes[keys[k]][i].members == s.members);
        }
        if own.contains(s) {
            let i = choose|i: int|
                0 <= i < lanes.len() && (#[trigger] lanes[i]).members == s.members
                    && lanes[i].legs.contains(s.leg);
            assert(v.lanes[keys[n - 1]][i].members == s.members);
        }
        if exists|k: int, i: int|
            {
                &&& 0 <= k < n
                &&& keys[k] == s.key
                &&& 0 <= i < v.lanes[keys[k]].len()
                &&& (#[trigger] v.lanes[keys[k]][i]).members == s.members
                &&& v.lanes[keys[k]][i].legs.contains(s.leg)
                &&& !(v.resolve(s.key) matches Some(pick) && v.leads(s.leg, pick))
            } {
            let (k, i) = choose|k: int, i: int|
                {
                    &&& 0 <= k < n
                    &&& keys[k] == s.key
                    &&& 0 <= i < v.lanes[keys[k]].len()
                    &&& (#[trigger] v.lanes[keys[k]][i]).members == s.members
                    &&& v.lanes[keys[k]][i].legs.contains(s.leg)
                    &&& !(v.resolve(s.key) matches Some(pick) && v.leads(s.leg, pick))
                };
            if k < n - 1 {
                assert(v.lanes[keys[k]][i].members == s.members);
            } else {
                assert(lanes[i].members == s.members);
            }
        }
    }
}

proof fn lemma_stale_lanes(
    key: EditorGraphIndex,
    lanes: Seq<LaneView<EditorGraphIndex>>,
    live: Seq<EditorLeg>,
    n: int,
    s: StaleView,
)
    requires
        0 <= n <= lanes.len(),
    ensures
        stale_lanes(key, lanes, live, n).contains(s) <==> s.key == key && !live.contains(s.leg)
            && exists|i: int|
            0 <= i < n && (#[trigger] lanes[i]).members == s.members && lanes[i].legs.contains(
                s.leg,
            ),
    decreases n,
{
    if n > 0 {
        lemma_stale_lanes(key, lanes, live, n - 1, s);
        let lane = lanes[n - 1];
        let (before, own) = (
            stale_lanes(key, lanes, live, n - 1),
            stale_legs(key, lane, live, lane.legs.len() as int),
        );
        crate::reach::lemma_add_contains(before, own, s);
        lemma_stale_in_lane(key, lane, live, lane.legs.len() as int, s);
        if before.contains(s) {
            let i = choose|i: int|
                0 <= i < n - 1 && (#[trigger] lanes[i]).members == s.members
                    && lanes[i].legs.contains(s.leg);
            assert(lanes[i].members == s.members);
        }
        if own.contains(s) {
            assert(lanes[n - 1].members == s.members);
        }
    }
}

proof fn lemma_stale_in_lane(
    key: EditorGraphIndex,
    lane: LaneView<EditorGraphIndex>,
    live: Seq<EditorLeg>,
    n: int,
    s: StaleView,
)
    requires
        0 <= n <= lane.legs.len(),
    ensures
        stale_legs(key, lane, live, n).contains(s) <==> s.key == key && s.members == lane.members
            && !live.contains(s.leg) && exists|i: int|
            0 <= i < n && #[trigger] lane.legs[i] == s.leg,
    decreases n,
{
    if n > 0 {
        lemma_stale_in_lane(key, lane, live, n - 1, s);
        let before = stale_legs(key, lane, live, n - 1);
        let own = StaleView { key, leg: lane.legs[n - 1], members: lane.members };
        lemma_push_contains(before, own, s);
        if before.contains(s) {
            let i = choose|i: int| 0 <= i < n - 1 && #[trigger] lane.legs[i] == s.leg;
            assert(lane.legs[i] == s.leg);
        }
        if s == own {
            assert(lane.legs[n - 1] == s.leg);
        }
    }
}

/// What is found wrong with the stack underneath a reference is: something that it rests on, directly
/// or over others, does not sit anywhere, or sits on another commit; or it rests on more than a walk
/// takes steps. If nothing is found wrong, what is directly underneath it sits on its commit.
pub proof fn law_below_fault(v: EditorView, node: EditorGraphIndex, stored: RefPosition)
    requires
        v.position(node) == Some(stored),
        v.is_reference(node),
    ensures
        match v.below_fault((node, stored)) {
            Some(BelowFault::NotPositioned { node: x, below }) => x == node && v.position(
                below,
            ) is None && v.leads_down_to(node, below),
            Some(BelowFault::OtherPick { node: x, below }) => x == node && v.position(below) is Some
                && v.seat(below) != v.seat(node) && v.leads_down_to(node, below),
            Some(BelowFault::Cycle { node: x }) => x == node && v.depth(node) > WALK_LIMIT,
            None => v.below(node) matches Some(b) ==> v.position(b) is Some && v.seat(b) == v.seat(
                node,
            ),
        },
{
    assert(seq![node][0] == node);
    lemma_entry_reachable(rests_on_list(v), seq![node], node);
    lemma_fault_from(v, node, v.seat(node), node, 0);
}

proof fn lemma_fault_from(
    v: EditorView,
    node: EditorGraphIndex,
    pick: Option<EditorGraphIndex>,
    at: EditorGraphIndex,
    depth: nat,
)
    requires
        v.leads_down_to(node, at),
        v.position(at) is Some,
        v.depth(node) == v.depth_from(v.below(at), depth),
        depth <= WALK_LIMIT,
    ensures
        match v.below_fault_from(node, pick, v.below(at), depth) {
            Some(BelowFault::NotPositioned { node: x, below }) => x == node && v.position(
                below,
            ) is None && v.leads_down_to(node, below),
            Some(BelowFault::OtherPick { node: x, below }) => x == node && v.position(below) is Some
                && v.seat(below) != pick && v.leads_down_to(node, below),
            Some(BelowFault::Cycle { node: x }) => x == node && v.depth(node) > WALK_LIMIT,
            None => v.below(at) matches Some(b) ==> v.position(b) is Some && v.seat(b) == pick,
        },
    decreases WALK_LIMIT + 1 - depth,
{
    if let Some(b) = v.below(at) {
        let next = rests_on_list(v);
        assert(next(at)[0] == b);
        assert(next(at).contains(b));
        lemma_step_reachable(next, seq![node], at, b);
        if v.position(b) is Some && v.seat(b) == pick && depth + 1 <= WALK_LIMIT {
            lemma_fault_from(v, node, pick, b, depth + 1);
        }
    }
}

/// The first fault is that of the first reference that was not removed and whose stack is wrong; if
/// there is none, no such stack is wrong.
pub proof fn law_first_below_fault(v: EditorView, list: Seq<(EditorGraphIndex, RefPosition)>, n: int)
    requires
        0 <= n <= list.len(),
    ensures
        match v.first_below_fault(list, n) {
            Some(fault) => exists|i: int|
                0 <= i < n && v.is_reference(list[i].0) && v.below_fault(#[trigger] list[i]) == Some(
                    fault,
                ) && forall|j: int| 0 <= j < i ==> v.below_fault(#[trigger] list[j]) is None,
            None => forall|j: int| 0 <= j < n ==> v.below_fault(#[trigger] list[j]) is None,
        },
    decreases n,
{
    if n > 0 {
        law_first_below_fault(v, list, n - 1);
        if let Some(fault) = v.first_below_fault(list, n - 1) {
            let i = choose|i: int|
                0 <= i < n - 1 && v.is_reference(list[i].0) && v.below_fault(#[trigger] list[i])
                    == Some(fault) && forall|j: int|
                    0 <= j < i ==> v.below_fault(#[trigger] list[j]) is None;
            assert(v.below_fault(list[i]) == Some(fault));
        } else if v.below_fault(list[n - 1]) is Some {
            assert(v.is_reference(list[n - 1].0));
        }
    }
}

/// Two references are at one place exactly if they sit on one commit, are approached through the same
/// legs, of which there is one, and have as many references underneath. References of which one is
/// directly underneath the other never are, where stacks end.
pub proof fn law_collision(v: EditorView, a: EditorGraphIndex, b: EditorGraphIndex)
    requires
        v.fits(),
        v.stacked(),
        v.refs.len() <= WALK_LIMIT,
    ensures
        v.collide(a, b) <==> v.position(a) is Some && v.position(b) is Some && v.seat(a) == v.seat(b)
            && v.approach(a) == v.approach(b) && v.approach(a).len() > 0 && v.depth(a) == v.depth(b),
        v.below(a) == Some(b) ==> !v.collide(a, b) && !v.collide(b, a),
{
    crate::stack_move_laws::law_depth(v, a);
}

/// Those nodes are counted that have parents.
pub proof fn law_checked_nodes(v: EditorView, n: int)
    requires
        0 <= n <= v.nodes.len(),
    ensures
        v.nodes_with_parents(n) == Seq::new(
            n as nat,
            |i: int| v.nodes[i].parents,
        ).filter(|p: Seq<EditorGraphIndex>| p.len() > 0).len(),
    decreases n,
{
    reveal(Seq::filter);
    let f = |i: int| v.nodes[i].parents;
    let keep = |p: Seq<EditorGraphIndex>| p.len() > 0;
    if n > 0 {
        law_checked_nodes(v, n - 1);
        let all = Seq::new(n as nat, f);
        assert(all.drop_last() =~= Seq::new((n - 1) as nat, f));
    }
}

} // verus!
