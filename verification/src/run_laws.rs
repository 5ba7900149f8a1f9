//! What leads to what among the nodes that segments are read as.

use crate::derivation::{
    all_nodes, ascend, commit_id, commit_in, commit_node, compact_legs, connection_parents, descend,
    entering, from_commit, given_up, is_commit, links, placed_at, rank_of, ranks, real_parent, runs,
    segment_run, settle, settled_ids, slots_onto, targets, vacated, workspace_parents, RunView,
    Slot,
};
use crate::editor_graph::WALK_LIMIT;
use crate::names::ObjectId;
use crate::order::{lemma_sorted, lemma_sorted_contains, ordered, sorted, Key};
use crate::placements::CommitLeg;
use crate::reach::lemma_add_contains;
use crate::segment_graph::{Connection, SegmentView};
use crate::seqs::{lemma_filter_contains, lemma_first_among, lemma_push_contains};
use vstd::prelude::*;

verus! {

/// The node of a commit is the last one that is this commit.
pub proof fn law_commit_node(nodes: Seq<RunView>, id: ObjectId, n: int, i: usize)
    requires
        0 <= n <= nodes.len() <= usize::MAX,
    ensures
        commit_in(nodes, id, n) == Some(i) <==> i < n && is_commit(nodes[i as int]) && commit_id(
            nodes[i as int],
        ) == id && forall|j: int|
            i < j < n ==> !(is_commit(#[trigger] nodes[j]) && commit_id(nodes[j]) == id),
    decreases n,
{
    if n > 0 {
        law_commit_node(nodes, id, n - 1, i);
        if is_commit(nodes[n - 1]) && commit_id(nodes[n - 1]) == id {
            if i < n - 1 {
                assert(is_commit(nodes[n - 1]) && commit_id(nodes[n - 1]) == id);
            }
        }
    }
}

/// The places that lead to a node are all places of all lists that hold it.
pub proof fn law_entering(lists: Seq<Seq<usize>>, node: usize, n: int, slot: Slot)
    requires
        0 <= n <= lists.len() <= usize::MAX,
        forall|i: int| 0 <= i < lists.len() ==> (#[trigger] lists[i]).len() <= usize::MAX,
    ensures
        entering(lists, node, n).contains(slot) <==> slot.0 < n && slot.1 < lists[slot.0 as int].len()
            && lists[slot.0 as int][slot.1 as int] == node,
    decreases n,
{
    if n > 0 {
        law_entering(lists, node, n - 1, slot);
        let list = lists[n - 1];
        lemma_slots(list, (n - 1) as usize, node, list.len() as int, slot);
        lemma_add_contains(
            entering(lists, node, n - 1),
            slots_onto(list, (n - 1) as usize, node, list.len() as int),
            slot,
        );
    }
}

proof fn lemma_slots(list: Seq<usize>, child: usize, node: usize, n: int, slot: Slot)
    requires
        0 <= n <= list.len() <= usize::MAX,
    ensures
        slots_onto(list, child, node, n).contains(slot) <==> slot.0 == child && slot.1 < n
            && list[slot.1 as int] == node,
    decreases n,
{
    if n > 0 {
        lemma_slots(list, child, node, n - 1, slot);
        lemma_push_contains(
            slots_onto(list, child, node, n - 1),
            (child, (n - 1) as usize),
            slot,
        );
    }
}

/// Whether the place holds the node.
pub open spec fn holds(lists: Seq<Seq<usize>>, slot: Slot, node: usize) -> bool {
    &&& slot.0 < lists.len()
    &&& slot.1 < lists[slot.0 as int].len()
    &&& lists[slot.0 as int][slot.1 as int] == node
}

/// A reference is approached through all places of commits that hold it, and is ambiguous if another
/// place holds it beside one of these. If none of a commit does and one place does, it is approached
/// as what that is a place of is; and else through nothing.
pub proof fn law_approached(
    nodes: Seq<RunView>,
    lists: Seq<Seq<usize>>,
    node: usize,
    fuel: nat,
    slot: Slot,
    other: Slot,
)
    requires
        lists.len() <= usize::MAX,
        forall|i: int| 0 <= i < lists.len() ==> (#[trigger] lists[i]).len() <= usize::MAX,
        fuel > 0,
    ensures
        ({
            let (ambiguous, slots) = ascend(nodes, lists, node, fuel);
            let by_commit = exists|s: Slot| #[trigger]
                holds(lists, s, node) && is_commit(nodes[s.0 as int]);
            &&& by_commit ==> (slots.contains(slot) <==> holds(lists, slot, node) && is_commit(
                nodes[slot.0 as int],
            ))
            &&& by_commit && holds(lists, slot, node) && holds(lists, other, node) && slot != other
                ==> ambiguous
            &&& by_commit && ambiguous ==> exists|s: Slot, t: Slot| #[trigger]
                holds(lists, s, node) && #[trigger] holds(lists, t, node) && s != t
            &&& !by_commit && holds(lists, slot, node) && (forall|s: Slot| #[trigger]
                holds(lists, s, node) ==> s == slot) ==> ascend(nodes, lists, node, fuel) == ascend(
                nodes,
                lists,
                slot.0,
                (fuel - 1) as nat,
            )
            &&& !by_commit && (forall|s: Slot| !#[trigger] holds(lists, s, node)) ==> !ambiguous
                && slots.len() == 0
            &&& !by_commit && holds(lists, slot, node) && holds(lists, other, node) && slot != other
                ==> !ambiguous && slots.len() == 0
        }),
{
    let all = entering(lists, node, lists.len() as int);
    let picks = all.filter(from_commit(nodes));
    assert forall|s: Slot| all.contains(s) <==> #[trigger] holds(lists, s, node) by {
        law_entering(lists, node, lists.len() as int, s);
    }
    assert forall|s: Slot| #[trigger] picks.contains(s) <==> holds(lists, s, node) && is_commit(
        nodes[s.0 as int],
    ) by {
        lemma_filter_contains(all, from_commit(nodes), s);
        assert(all.contains(s) <==> holds(lists, s, node));
    }
    if picks.len() > 0 {
        assert(picks.contains(picks[0]));
        assert(holds(lists, picks[0], node));
    }
    if exists|s: Slot| #[trigger] holds(lists, s, node) && is_commit(nodes[s.0 as int]) {
        let s = choose|s: Slot| #[trigger] holds(lists, s, node) && is_commit(nodes[s.0 as int]);
        assert(picks.contains(s));
    }
    lemma_entering_distinct(lists, node, lists.len() as int);
    if holds(lists, slot, node) && holds(lists, other, node) && slot != other {
        assert(all.contains(slot) && all.contains(other));
        let i = choose|i: int| 0 <= i < all.len() && all[i] == slot;
        let j = choose|j: int| 0 <= j < all.len() && all[j] == other;
        assert(i != j);
    }
    if all.len() > 1 {
        assert(all.contains(all[0]) && all.contains(all[1]));
        assert(holds(lists, all[0], node) && holds(lists, all[1], node));
        assert(all[0] != all[1]);
    }
    if all.len() > 0 {
        assert(all.contains(all[0]));
        assert(holds(lists, all[0], node));
    }
}

proof fn lemma_entering_distinct(lists: Seq<Seq<usize>>, node: usize, n: int)
    requires
        0 <= n <= lists.len() <= usize::MAX,
        forall|i: int| 0 <= i < lists.len() ==> (#[trigger] lists[i]).len() <= usize::MAX,
    ensures
        entering(lists, node, n).no_duplicates(),
    decreases n,
{
    if n > 0 {
        lemma_entering_distinct(lists, node, n - 1);
        let list = lists[n - 1];
        let (before, own) = (
            entering(lists, node, n - 1),
            slots_onto(list, (n - 1) as usize, node, list.len() as int),
        );
        lemma_slots_distinct(list, (n - 1) as usize, node, list.len() as int);
        let all = before + own;
        assert forall|i: int, j: int| 0 <= i < all.len() && 0 <= j < all.len() && i
            != j implies all[i] != all[j] by {
            if i < before.len() && j >= before.len() {
                lemma_other_node(lists, node, n, i, j);
            } else if j < before.len() && i >= before.len() {
                lemma_other_node(lists, node, n, j, i);
            }
        }
    }
}

proof fn lemma_other_node(lists: Seq<Seq<usize>>, node: usize, n: int, i: int, j: int)
    requires
        0 < n <= lists.len() <= usize::MAX,
        forall|i: int| 0 <= i < lists.len() ==> (#[trigger] lists[i]).len() <= usize::MAX,
        0 <= i < entering(lists, node, n - 1).len() <= j < entering(lists, node, n).len(),
    ensures
        entering(lists, node, n)[i] != entering(lists, node, n)[j],
{
    let list = lists[n - 1];
    let (before, own) = (
        entering(lists, node, n - 1),
        slots_onto(list, (n - 1) as usize, node, list.len() as int),
    );
    assert(before.contains(before[i]));
    law_entering(lists, node, n - 1, before[i]);
    let k = j - before.len();
    assert(own.contains(own[k]));
    lemma_slots(list, (n - 1) as usize, node, list.len() as int, own[k]);
}

proof fn lemma_slots_distinct(list: Seq<usize>, child: usize, node: usize, n: int)
    requires
        0 <= n <= list.len() <= usize::MAX,
    ensures
        slots_onto(list, child, node, n).no_duplicates(),
    decreases n,
{
    if n > 0 {
        lemma_slots_distinct(list, child, node, n - 1);
        let before = slots_onto(list, child, node, n - 1);
        let own = (child, (n - 1) as usize);
        lemma_slots(list, child, node, n - 1, own);
        let all = before.push(own);
        assert forall|i: int, j: int| 0 <= i < all.len() && 0 <= j < all.len() && i
            != j implies all[i] != all[j] by {
            if i < before.len() && j == before.len() {
                assert(before.contains(before[i]));
            } else if j < before.len() && i == before.len() {
                assert(before.contains(before[j]));
            }
        }
    }
}

/// A reference that sits somewhere is approached by commits: for each place through which it is, the leg
/// of the commit that the place is of, moved up by as many places before it as are given up. Where
/// nothing is given up, it is the place itself.
pub proof fn law_placed_approach(
    nodes: Seq<RunView>,
    lists: Seq<Seq<usize>>,
    i: int,
    leg: CommitLeg,
)
    requires
        descend(nodes, lists, i as usize, None, WALK_LIMIT as nat) is Some,
    ensures
        ({
            let placed = placed_at(nodes, lists, i);
            let (ambiguous, slots) = ascend(nodes, lists, i as usize, WALK_LIMIT as nat);
            &&& placed.ambiguous == ambiguous
            &&& placed.approach.len() == slots.len()
            &&& ordered::<CommitLeg>(placed.approach)
            &&& (forall|s: Slot| #[trigger] slots.contains(s) ==> vacated(
                nodes,
                lists,
                lists[s.0 as int],
                s.1 as int,
            ) == 0) ==> (placed.approach.contains(leg) <==> exists|s: Slot| #[trigger]
                slots.contains(s) && leg == (commit_id(nodes[s.0 as int]), s.1))
        }),
{
    let (ambiguous, slots) = ascend(nodes, lists, i as usize, WALK_LIMIT as nat);
    let legs = compact_legs(nodes, lists, slots);
    lemma_sorted::<CommitLeg>(legs);
    lemma_sorted_contains::<CommitLeg>(legs, leg);
    if forall|s: Slot| #[trigger] slots.contains(s) ==> vacated(
        nodes,
        lists,
        lists[s.0 as int],
        s.1 as int,
    ) == 0 {
        assert forall|k: int| 0 <= k < slots.len() implies #[trigger] legs[k] == (
            commit_id(nodes[slots[k].0 as int]),
            slots[k].1,
        ) by {
            assert(slots.contains(slots[k]));
            let id = commit_id(nodes[slots[k].0 as int]);
            let c = crate::derivation::copies(nodes, id, nodes.len() as int);
            assert(c * 0 == 0) by (nonlinear_arith);
            assert(given_up(nodes, lists, slots[k]) == 0);
        }
        if legs.contains(leg) {
            let k = choose|k: int| 0 <= k < legs.len() && legs[k] == leg;
            assert(slots.contains(slots[k]));
        }
        if exists|s: Slot| #[trigger]
            slots.contains(s) && leg == (commit_id(nodes[s.0 as int]), s.1) {
            let s = choose|s: Slot| #[trigger]
                slots.contains(s) && leg == (commit_id(nodes[s.0 as int]), s.1);
            let k = choose|k: int| 0 <= k < slots.len() && slots[k] == s;
            assert(legs[k] == leg);
        }
    }
}

/// Whether each node of the way but the last one is no commit, and leads first of all to the next one.
pub open spec fn is_way(nodes: Seq<RunView>, lists: Seq<Seq<usize>>, way: Seq<usize>) -> bool {
    &&& way.len() > 0
    &&& forall|k: int|
        0 <= k < way.len() - 1 ==> lists[#[trigger] way[k] as int].len() > 0
            && lists[way[k] as int][0] == way[k + 1]
    &&& forall|k: int| 0 < k < way.len() - 1 ==> !is_commit(nodes[#[trigger] way[k] as int])
}

/// A reference sits on the first commit down from it, along what each node leads to first, and on the
/// first reference on the way there.
pub proof fn law_sits_on(
    nodes: Seq<RunView>,
    lists: Seq<Seq<usize>>,
    node: usize,
    fuel: nat,
) -> (way: Seq<usize>)
    requires
        descend(nodes, lists, node, None, fuel) is Some,
    ensures
        ({
            let (anchor, below) = descend(nodes, lists, node, None, fuel)->0;
            &&& is_way(nodes, lists, way)
            &&& way[0] == node
            &&& 1 < way.len() <= fuel + 1
            &&& way.last() == anchor
            &&& is_commit(nodes[anchor as int])
            &&& match below {
                Some(b) => exists|k: int|
                    0 < k < way.len() - 1 && #[trigger] way[k] == b && nodes[b as int] is Ref
                        && forall|m: int| 0 < m < k ==> !(nodes[#[trigger] way[m] as int] is Ref),
                None => forall|k: int|
                    0 < k < way.len() - 1 ==> !(nodes[#[trigger] way[k] as int] is Ref),
            }
        }),
{
    lemma_way(nodes, lists, node, None, fuel)
}

#[verifier::rlimit(40)]
proof fn lemma_way(
    nodes: Seq<RunView>,
    lists: Seq<Seq<usize>>,
    cursor: usize,
    below: Option<usize>,
    fuel: nat,
) -> (way: Seq<usize>)
    requires
        descend(nodes, lists, cursor, below, fuel) is Some,
    ensures
        ({
            let (anchor, found) = descend(nodes, lists, cursor, below, fuel)->0;
            &&& is_way(nodes, lists, way)
            &&& way[0] == cursor
            &&& 1 < way.len() <= fuel + 1
            &&& way.last() == anchor
            &&& is_commit(nodes[anchor as int])
            &&& below is Some ==> found == below
            &&& below is None ==> match found {
                Some(b) => exists|k: int|
                    0 < k < way.len() - 1 && #[trigger] way[k] == b && nodes[b as int] is Ref
                        && forall|m: int| 0 < m < k ==> !(nodes[#[trigger] way[m] as int] is Ref),
                None => forall|k: int|
                    0 < k < way.len() - 1 ==> !(nodes[#[trigger] way[k] as int] is Ref),
            }
        }),
    decreases fuel,
{
    let next = lists[cursor as int][0];
    if is_commit(nodes[next as int]) {
        let way = seq![cursor, next];
        assert(is_way(nodes, lists, way));
        assert(way.last() == next);
        way
    } else {
        let under = if below is None && nodes[next as int] is Ref {
            Some(next)
        } else {
            below
        };
        let rest = lemma_way(nodes, lists, next, under, (fuel - 1) as nat);
        let way = seq![cursor] + rest;
        assert forall|k: int| 0 <= k < way.len() - 1 implies lists[#[trigger] way[k] as int].len()
            > 0 && lists[way[k] as int][0] == way[k + 1] by {
            if k > 0 {
                assert(way[k] == rest[k - 1] && way[k + 1] == rest[k]);
            } else {
                assert(way[1] == rest[0]);
            }
        }
        assert forall|k: int| 0 < k < way.len() - 1 implies !is_commit(
            nodes[#[trigger] way[k] as int],
        ) by {
            assert(way[k] == rest[k - 1]);
        }
        assert(way.last() == rest.last());
        let (anchor, found) = descend(nodes, lists, cursor, below, fuel)->0;
        if below is None {
            if nodes[next as int] is Ref {
                assert(way[1] == next);
            } else {
                match found {
                    Some(b) => {
                        let k = choose|k: int|
                            0 < k < rest.len() - 1 && #[trigger] rest[k] == b
                                && nodes[b as int] is Ref && forall|m: int|
                                0 < m < k ==> !(nodes[#[trigger] rest[m] as int] is Ref);
                        assert(way[k + 1] == b);
                        assert forall|m: int| 0 < m < k + 1 implies !(
                        nodes[#[trigger] way[m] as int] is Ref) by {
                            assert(way[m] == rest[m - 1]);
                        }
                    },
                    None => {
                        assert forall|k: int| 0 < k < way.len() - 1 implies !(
                        nodes[#[trigger] way[k] as int] is Ref) by {
                            assert(way[k] == rest[k - 1]);
                        }
                    },
                }
            }
        }
        way
    }
}

/// The parents of the workspace commit are there exactly if the commit is, and are, in order, the
/// commits that what it leads to is or sits on.
pub proof fn law_workspace_parents(
    nodes: Seq<RunView>,
    lists: Seq<Seq<usize>>,
    id: ObjectId,
)
    requires
        nodes.len() <= usize::MAX,
    ensures
        workspace_parents(nodes, lists, None) is None,
        workspace_parents(nodes, lists, Some(id)) is Some <==> exists|i: int|
            0 <= i < nodes.len() && is_commit(#[trigger] nodes[i]) && commit_id(nodes[i]) == id,
        workspace_parents(nodes, lists, Some(id)) matches Some(ids) ==> {
            let list = lists[commit_node(nodes, id)->0 as int];
            &&& (forall|k: int|
                0 <= k < list.len() ==> settle(
                    nodes,
                    lists,
                    #[trigger] list[k],
                    WALK_LIMIT as nat,
                ) is Some) ==> ids.len() == list.len() && forall|k: int|
                0 <= k < list.len() ==> #[trigger] ids[k] == commit_id(
                    nodes[settle(nodes, lists, list[k], WALK_LIMIT as nat)->0 as int],
                )
        },
{
    let n = nodes.len() as int;
    lemma_commit_there(nodes, id, n);
    if let Some(i) = commit_node(nodes, id) {
        let list = lists[i as int];
        if forall|k: int|
            0 <= k < list.len() ==> settle(
                nodes,
                lists,
                #[trigger] list[k],
                WALK_LIMIT as nat,
            ) is Some {
            lemma_settled_ids(nodes, lists, list, list.len() as int);
        }
    }
}

proof fn lemma_commit_there(nodes: Seq<RunView>, id: ObjectId, n: int)
    requires
        0 <= n <= nodes.len(),
    ensures
        commit_in(nodes, id, n) is Some <==> exists|i: int|
            0 <= i < n && is_commit(#[trigger] nodes[i]) && commit_id(nodes[i]) == id,
    decreases n,
{
    if n > 0 {
        lemma_commit_there(nodes, id, n - 1);
        if is_commit(nodes[n - 1]) && commit_id(nodes[n - 1]) == id {
            assert(is_commit(nodes[n - 1]));
        } else if commit_in(nodes, id, n - 1) is Some {
            let i = choose|i: int|
                0 <= i < n - 1 && is_commit(#[trigger] nodes[i]) && commit_id(nodes[i]) == id;
            assert(is_commit(nodes[i]));
        }
    }
}

proof fn lemma_settled_ids(
    nodes: Seq<RunView>,
    lists: Seq<Seq<usize>>,
    list: Seq<usize>,
    n: int,
)
    requires
        0 <= n <= list.len(),
        forall|k: int|
            0 <= k < list.len() ==> settle(
                nodes,
                lists,
                #[trigger] list[k],
                WALK_LIMIT as nat,
            ) is Some,
    ensures
        settled_ids(nodes, lists, list, n).len() == n,
        forall|k: int|
            0 <= k < n ==> #[trigger] settled_ids(nodes, lists, list, n)[k] == commit_id(
                nodes[settle(nodes, lists, list[k], WALK_LIMIT as nat)->0 as int],
            ),
    decreases n,
{
    if n > 0 {
        lemma_settled_ids(nodes, lists, list, n - 1);
        let before = settled_ids(nodes, lists, list, n - 1);
        assert(settle(nodes, lists, list[n - 1], WALK_LIMIT as nat) is Some);
        assert forall|k: int| 0 <= k < n implies #[trigger] settled_ids(nodes, lists, list, n)[k]
            == commit_id(
            nodes[settle(nodes, lists, list[k], WALK_LIMIT as nat)->0 as int],
        ) by {
            if k < n - 1 {
                assert(settled_ids(nodes, lists, list, n)[k] == before[k]);
            }
        }
    }
}

/// What a node is or sits on is a commit: a commit is itself, and anything else what it leads to first
/// is.
pub proof fn law_settle(nodes: Seq<RunView>, lists: Seq<Seq<usize>>, node: usize, fuel: nat)
    ensures
        settle(nodes, lists, node, fuel) matches Some(pick) ==> is_commit(nodes[pick as int]),
        fuel > 0 && is_commit(nodes[node as int]) ==> settle(nodes, lists, node, fuel) == Some(node),
        fuel > 0 && !is_commit(nodes[node as int]) && lists[node as int].len() > 0 ==> settle(
            nodes,
            lists,
            node,
            fuel,
        ) == settle(nodes, lists, lists[node as int][0], (fuel - 1) as nat),
        !is_commit(nodes[node as int]) && lists[node as int].len() == 0 ==> settle(
            nodes,
            lists,
            node,
            fuel,
        ) is None,
    decreases fuel,
{
    if fuel > 0 && !is_commit(nodes[node as int]) && lists[node as int].len() > 0 {
        law_settle(nodes, lists, lists[node as int][0], (fuel - 1) as nat);
    }
}

/// Each node of a run leads to the next one, and the last one to where the connections of the segment
/// lead.
pub proof fn law_links(segments: Seq<SegmentView>, mutable: Set<usize>, n: int, s: int, i: int)
    requires
        0 <= s < n <= segments.len(),
        0 <= i < segment_run(segments[s], mutable.contains(s as usize)).len(),
        runs(segments, mutable, n).len() <= usize::MAX,
    ensures
        ({
            let start = runs(segments, mutable, s).len();
            let len = segment_run(segments[s], mutable.contains(s as usize)).len();
            let all = links(segments, mutable, n);
            &&& all.len() == runs(segments, mutable, n).len()
            &&& start + len <= all.len()
            &&& all[start + i] == if i + 1 < len {
                seq![(start + i + 1) as usize]
            } else {
                targets(segments, mutable, segments[s].connections)
            }
        }),
    decreases n,
{
    lemma_links_size(segments, mutable, n);
    lemma_links_size(segments, mutable, n - 1);
    if s < n - 1 {
        law_links(segments, mutable, n - 1, s, i);
    }
}

proof fn lemma_links_size(segments: Seq<SegmentView>, mutable: Set<usize>, n: int)
    ensures
        links(segments, mutable, n).len() == runs(segments, mutable, n).len(),
    decreases n,
{
    if n > 0 {
        lemma_links_size(segments, mutable, n - 1);
    }
}

/// A connection reaches a parent at the first place where the commit that it leaves has that parent.
pub proof fn law_reached_parent(nodes: Seq<RunView>, c: Connection, a: int)
    ensures
        real_parent(nodes, c) == Some(a) <==> {
            &&& connection_parents(nodes, c) matches Some(parents) && 0 <= a < parents.len() && (
            c.dst_id matches Some(dst) && parents[a] == dst && forall|b: int|
                0 <= b < a ==> #[trigger] parents[b] != dst)
        },
{
    if let (Some(parents), Some(dst)) = (connection_parents(nodes, c), c.dst_id) {
        let test = |p: ObjectId| p == dst;
        lemma_first_among(parents, test, parents.len() as int);
        if let Some(f) = real_parent(nodes, c) {
            if 0 <= a < parents.len() && parents[a] == dst && forall|b: int|
                0 <= b < a ==> #[trigger] parents[b] != dst {
                if f < a {
                    assert(parents[f] != dst);
                } else if a < f {
                    assert(!test(parents[a]));
                }
            }
        } else if 0 <= a < parents.len() {
            assert(!test(parents[a]));
        }
    }
}

/// The connections of a segment lead to the starts of the segments that they reach, each once. Of two
/// that reach parents of a commit, the one that reaches an earlier parent comes first; and one that
/// reaches a parent before one that does not, where both leave the same commit.
#[verifier::rlimit(40)]
pub proof fn law_targets(
    segments: Seq<SegmentView>,
    mutable: Set<usize>,
    connections: Seq<Connection>,
) -> (order: Seq<int>)
    requires
        connections.len() <= u32::MAX,
        forall|i: int|
            0 <= i < connections.len() ==> (connection_parents(
                all_nodes(segments, mutable),
                #[trigger] connections[i],
            ) matches Some(parents) ==> parents.len() <= u64::MAX),
    ensures
        order.len() == connections.len(),
        order.no_duplicates(),
        forall|k: int| 0 <= k < order.len() ==> 0 <= #[trigger] order[k] < connections.len(),
        ({
            let nodes = all_nodes(segments, mutable);
            let list = targets(segments, mutable, connections);
            &&& list.len() == connections.len()
            &&& forall|k: int|
                0 <= k < list.len() ==> #[trigger] list[k] == runs(
                    segments,
                    mutable,
                    connections[order[k]].target as int,
                ).len() as usize
            &&& forall|k: int, l: int|
                #![trigger order[k], order[l]]
                0 <= k < l < order.len() ==> match (
                    real_parent(nodes, connections[order[k]]),
                    real_parent(nodes, connections[order[l]]),
                ) {
                    (Some(a), Some(b)) => a < b || (a == b && order[k] < order[l]),
                    (None, Some(_)) => connection_parents(nodes, connections[order[k]])
                        != connection_parents(nodes, connections[order[l]]),
                    (Some(_), None) => true,
                    (None, None) => connection_parents(nodes, connections[order[k]])
                        == connection_parents(nodes, connections[order[l]]) ==> order[k] < order[l],
                }
        }),
{
    let nodes = all_nodes(segments, mutable);
    let n = connections.len() as int;
    let all = ranks(nodes, connections, n);
    let by_rank = sorted::<(u128, usize)>(all);
    lemma_sorted::<(u128, usize)>(all);
    let order = Seq::new(by_rank.len(), |k: int| by_rank[k].1 as int);
    assert forall|k: int| 0 <= k < by_rank.len() implies 0 <= (#[trigger] by_rank[k]).1 < n
        && by_rank[k].0 == rank_of(nodes, connections, by_rank[k].1 as int) by {
        assert(by_rank.contains(by_rank[k]));
        lemma_sorted_contains::<(u128, usize)>(all, by_rank[k]);
        let i = choose|i: int| 0 <= i < all.len() && all[i] == by_rank[k];
        lemma_rank_small(nodes, connections, i);
    }
    assert(by_rank.no_duplicates()) by {
        assert(all.no_duplicates());
        all.lemma_multiset_has_no_duplicates();
        lemma_sorted_distinct(all);
    }
    assert forall|k: int, l: int| 0 <= k < order.len() && 0 <= l < order.len() && k
        != l implies order[k] != order[l] by {
        assert(by_rank[k] != by_rank[l]);
        assert(by_rank[k].1 < n && by_rank[l].1 < n);
    }
    assert forall|k: int, l: int|
        #![trigger order[k], order[l]]
        0 <= k < l < order.len() implies match (
        real_parent(nodes, connections[order[k]]),
        real_parent(nodes, connections[order[l]]),
    ) {
        (Some(a), Some(b)) => a < b || (a == b && order[k] < order[l]),
        (None, Some(_)) => connection_parents(nodes, connections[order[k]]) != connection_parents(
            nodes,
            connections[order[l]],
        ),
        (Some(_), None) => true,
        (None, None) => connection_parents(nodes, connections[order[k]]) == connection_parents(
            nodes,
            connections[order[l]],
        ) ==> order[k] < order[l],
    } by {
        lemma_pair_order(by_rank, k, l);
        let (x, y) = (by_rank[k], by_rank[l]);
        assert(x != y);
        assert(x.0 == rank_of(nodes, connections, order[k]));
        assert(y.0 == rank_of(nodes, connections, order[l]));
        assert(x.0 < y.0 || (x.0 == y.0 && x.1 < y.1));
        lemma_real_parent_within(nodes, connections[order[k]]);
        lemma_real_parent_within(nodes, connections[order[l]]);
        if real_parent(nodes, connections[order[k]]) is None && real_parent(
            nodes,
            connections[order[l]],
        ) is None && order[k] > order[l] {
            lemma_unranked_grows(nodes, connections, order[l], order[k]);
        }
    }
    order
}

proof fn lemma_real_parent_within(nodes: Seq<RunView>, c: Connection)
    ensures
        real_parent(nodes, c) matches Some(a) ==> (connection_parents(nodes, c) matches Some(
            parents,
        ) && 0 <= a < parents.len()),
{
    if let Some(a) = real_parent(nodes, c) {
        law_reached_parent(nodes, c, a);
    }
}

proof fn lemma_unranked_grows(
    nodes: Seq<RunView>,
    connections: Seq<Connection>,
    i: int,
    j: int,
)
    requires
        0 <= i < j,
        real_parent(nodes, connections[i]) is None,
    ensures
        crate::derivation::unranked(nodes, connections, i) < crate::derivation::unranked(
            nodes,
            connections,
            j,
        ),
    decreases j - i,
{
    if i < j - 1 {
        lemma_unranked_grows(nodes, connections, i, j - 1);
    }
}

proof fn lemma_rank_small(nodes: Seq<RunView>, connections: Seq<Connection>, i: int)
    requires
        0 <= i < connections.len() <= u32::MAX,
        connection_parents(nodes, connections[i]) matches Some(parents) ==> parents.len()
            <= u64::MAX,
    ensures
        0 <= rank_of(nodes, connections, i) <= u128::MAX,
{
    lemma_unranked_few(nodes, connections, i);
    lemma_real_parent_within(nodes, connections[i]);
}

proof fn lemma_unranked_few(nodes: Seq<RunView>, connections: Seq<Connection>, n: int)
    requires
        0 <= n,
    ensures
        crate::derivation::unranked(nodes, connections, n) <= n,
    decreases n,
{
    if n > 0 {
        lemma_unranked_few(nodes, connections, n - 1);
    }
}

proof fn lemma_pair_order(s: Seq<(u128, usize)>, k: int, l: int)
    requires
        ordered::<(u128, usize)>(s),
        0 <= k < l < s.len(),
    ensures
        s[k].0 < s[l].0 || (s[k].0 == s[l].0 && s[k].1 <= s[l].1),
{
    crate::step_walk_laws::lemma_ordered_generic::<(u128, usize)>(s, k, l);
    assert(!<(u128, usize) as Key>::lt(s[l], s[k]));
}

proof fn lemma_sorted_distinct(s: Seq<(u128, usize)>)
    requires
        s.no_duplicates(),
    ensures
        sorted::<(u128, usize)>(s).no_duplicates(),
{
    broadcast use vstd::seq_lib::group_to_multiset_ensures;

    let t = sorted::<(u128, usize)>(s);
    lemma_sorted::<(u128, usize)>(s);
    s.lemma_multiset_has_no_duplicates();
    assert forall|x: (u128, usize)| t.to_multiset().contains(x) implies t.to_multiset().count(x)
        == 1 by {
        assert(s.to_multiset().contains(x));
    }
    t.lemma_multiset_has_no_duplicates_conv();
}

} // verus!
