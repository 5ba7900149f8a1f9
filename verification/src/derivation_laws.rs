//! What holds of every ledger that is read off segments.

use crate::commit::CommitView;
use crate::commit_graph::last_index;
use crate::creation::{
    created, head_checkouts, name_in, node_legs, ref_named, with_positions, ws_parents_known,
    PickDefaults,
};
use crate::derivation::{
    all_nodes, ascend, commit_id, commit_in, commit_node, commits_run, compact_legs,
    connections_fit, copies, derivable, derived, descend, distinct_commits, entering, final_lists,
    flat, flat_node, from_commit, given_up, heads, is_commit, legs_have_room, lemma_commit_found,
    links, lists_below, mutable_entries, named_run, placed_at, placed_refs, present, ranks,
    reachable_segments, refs_run, rewired, run_links, runs, segment_run, settle, settled_ids,
    slots_onto, targets, vacated, ExtraRef, RunView, Slot,
};
use crate::editor_graph::{EditorView, WALK_LIMIT};
use crate::names::ObjectId;
use crate::order::{lemma_sorted_contains, sorted};
use crate::placements::{CommitLeg, PlacedView, PlacementsView};
use crate::segment_graph::{SegmentGraph, SegmentView};
use crate::seqs::lemma_filter_contains;
use vstd::prelude::*;

verus! {

/// Connections lead to segments.
pub open spec fn connected_within(segments: Seq<SegmentView>) -> bool {
    forall|s: int, c: int|
        0 <= s < segments.len() && 0 <= c < segments[s].connections.len() ==> (
        #[trigger] segments[s].connections[c]).target < segments.len()
}

/// All ids of commits of the segments pass.
pub open spec fn ids_pass(segments: Seq<SegmentView>, pass: spec_fn(ObjectId) -> bool) -> bool {
    forall|s: int, c: int|
        0 <= s < segments.len() && 0 <= c < segments[s].commits.len() ==> pass(
            (#[trigger] segments[s].commits[c]).id,
        )
}

/// All ids of nodes that are commits pass.
pub open spec fn nodes_pass(nodes: Seq<RunView>, pass: spec_fn(ObjectId) -> bool) -> bool {
    forall|i: int|
        0 <= i < nodes.len() && is_commit(#[trigger] nodes[i]) ==> pass(commit_id(nodes[i]))
}

proof fn lemma_commits_pass(
    commits: Seq<CommitView>,
    mutable: bool,
    n: int,
    pass: spec_fn(ObjectId) -> bool,
)
    requires
        n <= commits.len(),
        forall|c: int| 0 <= c < commits.len() ==> pass((#[trigger] commits[c]).id),
    ensures
        nodes_pass(commits_run(commits, mutable, n), pass),
    decreases n,
{
    if n > 0 {
        lemma_commits_pass(commits, mutable, n - 1, pass);
        let before = commits_run(commits, mutable, n - 1);
        let commit = commits[n - 1];
        let refs = refs_run(commit.refs, mutable);
        let all = commits_run(commits, mutable, n);
        assert forall|i: int| 0 <= i < all.len() && is_commit(#[trigger] all[i]) implies pass(
            commit_id(all[i]),
        ) by {
            if i < before.len() {
                assert(all[i] == before[i]);
            } else if i < before.len() + refs.len() {
                assert(all[i] == refs[i - before.len()]);
            } else {
                assert(all[i] == RunView::Commit { id: commit.id, parent_ids: commit.parent_ids });
            }
        }
    }
}

proof fn lemma_runs_pass(
    segments: Seq<SegmentView>,
    mutable: Set<usize>,
    n: int,
    pass: spec_fn(ObjectId) -> bool,
)
    requires
        n <= segments.len(),
        ids_pass(segments, pass),
    ensures
        nodes_pass(runs(segments, mutable, n), pass),
    decreases n,
{
    if n > 0 {
        lemma_runs_pass(segments, mutable, n - 1, pass);
        let before = runs(segments, mutable, n - 1);
        let segment = segments[n - 1];
        let may = mutable.contains((n - 1) as usize);
        let run = segment_run(segment, may);
        let commits = commits_run(segment.commits, may, segment.commits.len() as int);
        let named = named_run(segment.name, may);
        assert forall|c: int| 0 <= c < segment.commits.len() implies pass(
            (#[trigger] segment.commits[c]).id,
        ) by {
            assert(pass(segments[n - 1].commits[c].id));
        }
        lemma_commits_pass(segment.commits, may, segment.commits.len() as int, pass);
        let all = runs(segments, mutable, n);
        assert forall|i: int| 0 <= i < all.len() && is_commit(#[trigger] all[i]) implies pass(
            commit_id(all[i]),
        ) by {
            if i < before.len() {
                assert(all[i] == before[i]);
            } else {
                let k = i - before.len();
                assert(all[i] == run[k]);
                if named.len() + commits.len() > 0 {
                    if k >= named.len() {
                        assert(run[k] == commits[k - named.len()]);
                    }
                }
            }
        }
    }
}

proof fn lemma_segment_run_len(segment: SegmentView, mutable: bool)
    ensures
        segment_run(segment, mutable).len() > 0,
{
}

proof fn lemma_start_below(segments: Seq<SegmentView>, mutable: Set<usize>, s: int, n: int)
    requires
        0 <= s < n,
    ensures
        runs(segments, mutable, s).len() < runs(segments, mutable, n).len(),
    decreases n,
{
    lemma_segment_run_len(segments[n - 1], mutable.contains((n - 1) as usize));
    if s < n - 1 {
        lemma_start_below(segments, mutable, s, n - 1);
    }
}

proof fn lemma_targets_below(segments: Seq<SegmentView>, mutable: Set<usize>, s: int)
    requires
        connected_within(segments),
        0 <= s < segments.len(),
        segments[s].connections.len() <= usize::MAX,
        all_nodes(segments, mutable).len() <= usize::MAX,
    ensures
        forall|i: int|
            0 <= i < targets(segments, mutable, segments[s].connections).len()
                ==> #[trigger] targets(segments, mutable, segments[s].connections)[i] < all_nodes(
                segments,
                mutable,
            ).len(),
{
    let connections = segments[s].connections;
    let nodes = all_nodes(segments, mutable);
    let given = ranks(nodes, connections, connections.len() as int);
    let order = sorted::<(u128, usize)>(given);
    let found = targets(segments, mutable, connections);
    assert forall|i: int| 0 <= i < found.len() implies #[trigger] found[i] < nodes.len() by {
        assert(order.contains(order[i]));
        lemma_sorted_contains::<(u128, usize)>(given, order[i]);
        let j = choose|j: int| 0 <= j < given.len() && given[j] == order[i];
        assert(order[i].1 == j as usize);
        let t = connections[j].target as int;
        assert(segments[s].connections[j].target < segments.len());
        lemma_start_below(segments, mutable, t, segments.len() as int);
    }
}

proof fn lemma_runs_grow(segments: Seq<SegmentView>, mutable: Set<usize>, s: int, n: int)
    requires
        0 <= s <= n,
    ensures
        runs(segments, mutable, s).len() <= runs(segments, mutable, n).len(),
{
    if s < n {
        lemma_start_below(segments, mutable, s, n);
    }
}

/// All lists only hold nodes.
pub proof fn lemma_links_below(segments: Seq<SegmentView>, mutable: Set<usize>, n: int)
    requires
        0 <= n <= segments.len(),
        connected_within(segments),
        connections_fit(segments),
        all_nodes(segments, mutable).len() <= usize::MAX,
    ensures
        links(segments, mutable, n).len() == runs(segments, mutable, n).len(),
        lists_below(links(segments, mutable, n), all_nodes(segments, mutable).len() as int),
    decreases n,
{
    if n > 0 {
        lemma_links_below(segments, mutable, n - 1);
        let len = all_nodes(segments, mutable).len();
        let before = links(segments, mutable, n - 1);
        let own = run_links(segments, mutable, n - 1);
        let all = links(segments, mutable, n);
        assert(segments[n - 1].connections.len() <= usize::MAX);
        lemma_targets_below(segments, mutable, n - 1);
        lemma_runs_grow(segments, mutable, n, segments.len() as int);
        let start = runs(segments, mutable, n - 1).len();
        assert forall|i: int, j: int| 0 <= i < all.len() && 0 <= j < all[i].len() implies
            #[trigger] all[i][j] < len by {
            if i < before.len() {
                assert(all[i] == before[i]);
                assert(before[i][j] < len);
            } else {
                let k = i - before.len();
                assert(all[i] == own[k]);
                if k + 1 < own.len() {
                    assert(start + k + 1 < start + own.len());
                }
            }
        }
    }
}

/// A commit that is found is there.
pub proof fn lemma_commit_in_below(nodes: Seq<RunView>, id: ObjectId, n: int)
    requires
        n <= nodes.len() <= usize::MAX,
    ensures
        commit_in(nodes, id, n) matches Some(i) ==> i < n && is_commit(nodes[i as int])
            && commit_id(nodes[i as int]) == id,
    decreases n,
{
    if n > 0 {
        lemma_commit_in_below(nodes, id, n - 1);
    }
}

proof fn lemma_present_below(nodes: Seq<RunView>, ids: Seq<ObjectId>, n: int)
    requires
        nodes.len() <= usize::MAX,
    ensures
        forall|i: int|
            0 <= i < present(nodes, ids, n).len() ==> #[trigger] present(nodes, ids, n)[i]
                < nodes.len(),
    decreases n,
{
    if n > 0 {
        lemma_present_below(nodes, ids, n - 1);
        lemma_commit_in_below(nodes, ids[n - 1], nodes.len() as int);
        let (before, all) = (present(nodes, ids, n - 1), present(nodes, ids, n));
        assert(all == before || all == before.push(commit_node(nodes, ids[n - 1])->0));
        assert forall|i: int| 0 <= i < all.len() implies #[trigger] all[i] < nodes.len() by {
            if i < before.len() {
                assert(all[i] == before[i]);
            }
        }
    } else {
        assert(present(nodes, ids, n).len() == 0);
    }
}

proof fn lemma_rewired_below(
    nodes: Seq<RunView>,
    lists: Seq<Seq<usize>>,
    ws: Option<ObjectId>,
    n: int,
)
    requires
        n <= nodes.len() <= usize::MAX,
        lists.len() == nodes.len(),
        lists_below(lists, nodes.len() as int),
    ensures
        rewired(nodes, lists, ws, n).len() == nodes.len(),
        lists_below(rewired(nodes, lists, ws, n), nodes.len() as int),
    decreases n,
{
    if n > 0 {
        lemma_rewired_below(nodes, lists, ws, n - 1);
        let before = rewired(nodes, lists, ws, n - 1);
        let all = rewired(nodes, lists, ws, n);
        if nodes[n - 1] is Commit {
            let ids = nodes[n - 1]->Commit_parent_ids;
            lemma_present_below(nodes, ids, ids.len() as int);
            let put = present(nodes, ids, ids.len() as int);
            let id = commit_id(nodes[n - 1]);
            let at = commit_node(nodes, id)->0 as int;
            lemma_commit_found(nodes, n - 1, nodes.len() as int);
            lemma_commit_in_below(nodes, id, nodes.len() as int);
            assert(all == before || all == before.update(at, put));
            assert forall|i: int, j: int| 0 <= i < all.len() && 0 <= j < all[i].len() implies
                #[trigger] all[i][j] < nodes.len() by {
                if all == before || i != at {
                    assert(before[i][j] < nodes.len());
                }
            }
        }
    }
}

/// What the nodes lead to in the end are nodes.
pub proof fn lemma_final_below(segments: Seq<SegmentView>, mutable: Set<usize>, ws: Option<ObjectId>)
    requires
        connected_within(segments),
        connections_fit(segments),
        all_nodes(segments, mutable).len() <= usize::MAX,
    ensures
        final_lists(segments, mutable, ws).len() == all_nodes(segments, mutable).len(),
        lists_below(
            final_lists(segments, mutable, ws),
            all_nodes(segments, mutable).len() as int,
        ),
{
    let nodes = all_nodes(segments, mutable);
    lemma_links_below(segments, mutable, segments.len() as int);
    lemma_rewired_below(
        nodes,
        links(segments, mutable, segments.len() as int),
        ws,
        nodes.len() as int,
    );
}

proof fn lemma_settle(nodes: Seq<RunView>, lists: Seq<Seq<usize>>, cursor: usize, fuel: nat)
    requires
        lists.len() == nodes.len(),
        lists_below(lists, nodes.len() as int),
        cursor < nodes.len(),
    ensures
        settle(nodes, lists, cursor, fuel) matches Some(pick) ==> pick < nodes.len() && is_commit(
            nodes[pick as int],
        ),
    decreases fuel,
{
    if fuel > 0 && !is_commit(nodes[cursor as int]) && lists[cursor as int].len() > 0 {
        assert(lists[cursor as int][0] < nodes.len());
        lemma_settle(nodes, lists, lists[cursor as int][0], (fuel - 1) as nat);
    }
}

proof fn lemma_settled_ids(
    nodes: Seq<RunView>,
    lists: Seq<Seq<usize>>,
    list: Seq<usize>,
    n: int,
    pass: spec_fn(ObjectId) -> bool,
)
    requires
        n <= list.len(),
        lists.len() == nodes.len(),
        lists_below(lists, nodes.len() as int),
        forall|i: int| 0 <= i < list.len() ==> #[trigger] list[i] < nodes.len(),
        nodes_pass(nodes, pass),
    ensures
        forall|i: int|
            0 <= i < settled_ids(nodes, lists, list, n).len() ==> pass(
                #[trigger] settled_ids(nodes, lists, list, n)[i],
            ),
    decreases n,
{
    if n > 0 {
        lemma_settled_ids(nodes, lists, list, n - 1, pass);
        lemma_settle(nodes, lists, list[n - 1], WALK_LIMIT as nat);
        let (before, all) = (
            settled_ids(nodes, lists, list, n - 1),
            settled_ids(nodes, lists, list, n),
        );
        if let Some(pick) = settle(nodes, lists, list[n - 1], WALK_LIMIT as nat) {
            assert(pass(commit_id(nodes[pick as int])));
            assert(all == before.push(commit_id(nodes[pick as int])));
        }
        assert forall|i: int| 0 <= i < all.len() implies pass(#[trigger] all[i]) by {
            if i < before.len() {
                assert(all[i] == before[i]);
            }
        }
    } else {
        assert(settled_ids(nodes, lists, list, n).len() == 0);
    }
}

proof fn lemma_descend(
    nodes: Seq<RunView>,
    lists: Seq<Seq<usize>>,
    cursor: usize,
    below: Option<usize>,
    fuel: nat,
)
    requires
        lists.len() == nodes.len(),
        lists_below(lists, nodes.len() as int),
        cursor < nodes.len(),
        below matches Some(b) ==> b < nodes.len() && nodes[b as int] is Ref,
    ensures
        descend(nodes, lists, cursor, below, fuel) matches Some((anchor, under)) ==> anchor
            < nodes.len() && is_commit(nodes[anchor as int]) && (under matches Some(b) ==> b
            < nodes.len() && nodes[b as int] is Ref),
    decreases fuel,
{
    if fuel > 0 && lists[cursor as int].len() > 0 {
        let next = lists[cursor as int][0];
        assert(next < nodes.len());
        if !is_commit(nodes[next as int]) {
            let under = if below is None && nodes[next as int] is Ref {
                Some(next)
            } else {
                below
            };
            lemma_descend(nodes, lists, next, under, (fuel - 1) as nat);
        }
    }
}

proof fn lemma_slot_child(list: Seq<usize>, child: usize, node: usize, n: int)
    ensures
        forall|i: int|
            0 <= i < slots_onto(list, child, node, n).len() ==> (#[trigger] slots_onto(
                list,
                child,
                node,
                n,
            )[i]).0 == child,
    decreases n,
{
    if n > 0 {
        lemma_slot_child(list, child, node, n - 1);
        let (before, all) = (
            slots_onto(list, child, node, n - 1),
            slots_onto(list, child, node, n),
        );
        assert(all == before || all == before.push((child, (n - 1) as usize)));
        assert forall|i: int| 0 <= i < all.len() implies (#[trigger] all[i]).0 == child by {
            if i < before.len() {
                assert(all[i] == before[i]);
            }
        }
    } else {
        assert(slots_onto(list, child, node, n).len() == 0);
    }
}

proof fn lemma_entering_child(lists: Seq<Seq<usize>>, node: usize, n: int)
    requires
        n <= lists.len() <= usize::MAX,
    ensures
        forall|i: int|
            0 <= i < entering(lists, node, n).len() ==> (#[trigger] entering(lists, node, n)[i]).0
                < n,
    decreases n,
{
    if n > 0 {
        lemma_entering_child(lists, node, n - 1);
        let own = slots_onto(lists[n - 1], (n - 1) as usize, node, lists[n - 1].len() as int);
        lemma_slot_child(lists[n - 1], (n - 1) as usize, node, lists[n - 1].len() as int);
        let (before, all) = (entering(lists, node, n - 1), entering(lists, node, n));
        assert forall|i: int| 0 <= i < all.len() implies (#[trigger] all[i]).0 < n by {
            if i < before.len() {
                assert(all[i] == before[i]);
            } else {
                assert(all[i] == own[i - before.len()]);
            }
        }
    } else {
        assert(entering(lists, node, n).len() == 0);
    }
}

/// The places are places of commits.
pub open spec fn commit_slots(nodes: Seq<RunView>, slots: Seq<Slot>) -> bool {
    forall|i: int|
        0 <= i < slots.len() ==> (#[trigger] slots[i]).0 < nodes.len() && is_commit(
            nodes[slots[i].0 as int],
        )
}

proof fn lemma_ascend(nodes: Seq<RunView>, lists: Seq<Seq<usize>>, cursor: usize, fuel: nat)
    requires
        lists.len() == nodes.len() <= usize::MAX,
    ensures
        commit_slots(nodes, ascend(nodes, lists, cursor, fuel).1),
    decreases fuel,
{
    let all = entering(lists, cursor, lists.len() as int);
    let picks = all.filter(from_commit(nodes));
    lemma_entering_child(lists, cursor, lists.len() as int);
    assert forall|i: int| 0 <= i < picks.len() implies (#[trigger] picks[i]).0 < nodes.len()
        && is_commit(nodes[picks[i].0 as int]) by {
        assert(picks.contains(picks[i]));
        lemma_filter_contains(all, from_commit(nodes), picks[i]);
        let j = choose|j: int| 0 <= j < all.len() && all[j] == picks[i];
        assert(all[j].0 < lists.len());
    }
    if fuel > 0 && picks.len() == 0 && all.len() == 1 {
        lemma_ascend(nodes, lists, all[0].0, (fuel - 1) as nat);
    }
}

/// All ids of commits that the placed reference names pass.
pub open spec fn placed_passes(placed: PlacedView, pass: spec_fn(ObjectId) -> bool) -> bool {
    &&& placed.anchor matches Some(id) ==> pass(id)
    &&& forall|i: int|
        0 <= i < placed.approach.len() ==> pass((#[trigger] placed.approach[i]).0)
}

/// Some of the references has the name.
pub open spec fn has_name(refs: Seq<PlacedView>, name: Seq<u8>) -> bool {
    exists|i: int| 0 <= i < refs.len() && (#[trigger] refs[i]).name == name
}

proof fn lemma_placed_at(
    nodes: Seq<RunView>,
    lists: Seq<Seq<usize>>,
    i: int,
    pass: spec_fn(ObjectId) -> bool,
)
    requires
        lists.len() == nodes.len() <= usize::MAX,
        lists_below(lists, nodes.len() as int),
        0 <= i < nodes.len(),
        nodes_pass(nodes, pass),
    ensures
        placed_passes(placed_at(nodes, lists, i), pass),
        placed_at(nodes, lists, i).below matches Some(name) ==> exists|b: int|
            0 <= b < nodes.len() && #[trigger] nodes[b] is Ref && nodes[b]->Ref_name == name,
{
    let fuel = WALK_LIMIT as nat;
    lemma_descend(nodes, lists, i as usize, None, fuel);
    lemma_ascend(nodes, lists, i as usize, fuel);
    let placed = placed_at(nodes, lists, i);
    if let Some((anchor, below)) = descend(nodes, lists, i as usize, None, fuel) {
        assert(is_commit(nodes[anchor as int]));
        let slots = ascend(nodes, lists, i as usize, fuel).1;
        let legs = compact_legs(nodes, lists, slots);
        assert forall|k: int| 0 <= k < placed.approach.len() implies pass(
            (#[trigger] placed.approach[k]).0,
        ) by {
            assert(placed.approach.contains(placed.approach[k]));
            lemma_sorted_contains::<CommitLeg>(legs, placed.approach[k]);
            let j = choose|j: int| 0 <= j < legs.len() && legs[j] == placed.approach[k];
            assert(slots[j].0 < nodes.len());
            assert(is_commit(nodes[slots[j].0 as int]));
        }
        if let Some(b) = below {
            assert(nodes[b as int] is Ref);
        }
    }
}

proof fn lemma_placed_refs(
    nodes: Seq<RunView>,
    lists: Seq<Seq<usize>>,
    n: int,
    pass: spec_fn(ObjectId) -> bool,
)
    requires
        lists.len() == nodes.len() <= usize::MAX,
        lists_below(lists, nodes.len() as int),
        n <= nodes.len(),
        nodes_pass(nodes, pass),
    ensures
        forall|k: int|
            0 <= k < placed_refs(nodes, lists, n).len() ==> {
                let placed = #[trigger] placed_refs(nodes, lists, n)[k];
                &&& placed_passes(placed, pass)
                &&& placed.below matches Some(name) ==> exists|b: int|
                    0 <= b < nodes.len() && #[trigger] nodes[b] is Ref && nodes[b]->Ref_name == name
            },
    decreases n,
{
    if n > 0 {
        lemma_placed_refs(nodes, lists, n - 1, pass);
        lemma_placed_at(nodes, lists, n - 1, pass);
        let (before, all) = (placed_refs(nodes, lists, n - 1), placed_refs(nodes, lists, n));
        assert(all == before || all == before.push(placed_at(nodes, lists, n - 1)));
        assert forall|k: int| 0 <= k < all.len() implies {
            let placed = #[trigger] all[k];
            &&& placed_passes(placed, pass)
            &&& placed.below matches Some(name) ==> exists|b: int|
                0 <= b < nodes.len() && #[trigger] nodes[b] is Ref && nodes[b]->Ref_name == name
        } by {
            if k < before.len() {
                assert(all[k] == before[k]);
            }
        }
    } else {
        assert(placed_refs(nodes, lists, n).len() == 0);
    }
}

/// Each node that is a reference is placed.
proof fn lemma_ref_is_placed(nodes: Seq<RunView>, lists: Seq<Seq<usize>>, b: int, n: int)
    requires
        0 <= b < n <= nodes.len(),
        nodes[b] is Ref,
    ensures
        has_name(placed_refs(nodes, lists, n), nodes[b]->Ref_name),
    decreases n,
{
    let (before, all) = (placed_refs(nodes, lists, n - 1), placed_refs(nodes, lists, n));
    let name = nodes[b]->Ref_name;
    if b == n - 1 {
        assert(all == before.push(placed_at(nodes, lists, b)));
        assert(all[before.len() as int].name == name);
    } else {
        lemma_ref_is_placed(nodes, lists, b, n - 1);
        let i = choose|i: int| 0 <= i < before.len() && (#[trigger] before[i]).name == name;
        assert(all == before || all == before.push(placed_at(nodes, lists, n - 1)));
        assert(all[i] == before[i]);
    }
}

/// The name of each of the first `n` segments is a node.
proof fn lemma_name_is_node(segments: Seq<SegmentView>, mutable: Set<usize>, s: int, n: int)
    requires
        0 <= s < n <= segments.len(),
        segments[s].name is Some,
    ensures
        exists|b: int|
            0 <= b < runs(segments, mutable, n).len() && #[trigger] runs(segments, mutable, n)[b]
                is Ref && runs(segments, mutable, n)[b]->Ref_name == segments[s].name->0,
    decreases n,
{
    let (before, all) = (runs(segments, mutable, n - 1), runs(segments, mutable, n));
    if s == n - 1 {
        let run = segment_run(segments[s], mutable.contains(s as usize));
        assert(all[before.len() as int] == run[0]);
        assert(run[0] is Ref && run[0]->Ref_name == segments[s].name->0);
    } else {
        lemma_name_is_node(segments, mutable, s, n - 1);
        let b = choose|b: int|
            0 <= b < before.len() && #[trigger] before[b] is Ref && before[b]->Ref_name
                == segments[s].name->0;
        assert(all[b] == before[b]);
    }
}

proof fn lemma_heads(segments: Seq<SegmentView>, name: Option<Seq<u8>>, n: int)
    requires
        n <= segments.len(),
    ensures
        forall|i: int|
            0 <= i < heads(segments, name, n).len() ==> exists|s: int|
                0 <= s < segments.len() && (#[trigger] segments[s]).name == Some(
                    #[trigger] heads(segments, name, n)[i],
                ),
    decreases n,
{
    if n > 0 {
        lemma_heads(segments, name, n - 1);
        let (before, all) = (heads(segments, name, n - 1), heads(segments, name, n));
        assert(all == before || all == before.push(segments[n - 1].name->0));
        assert forall|i: int| 0 <= i < all.len() implies exists|s: int|
            0 <= s < segments.len() && (#[trigger] segments[s]).name == Some(
                #[trigger] all[i],
            ) by {
            if i < before.len() {
                assert(all[i] == before[i]);
            } else {
                assert(segments[n - 1].name == Some(all[i]));
            }
        }
    } else {
        assert(heads(segments, name, n).len() == 0);
    }
}

/// What a ledger names is there: the commits pass, and the names are names of its references.
pub open spec fn self_contained(ledger: PlacementsView, pass: spec_fn(ObjectId) -> bool) -> bool {
    &&& forall|k: int|
        0 <= k < ledger.refs.len() ==> {
            let placed = #[trigger] ledger.refs[k];
            &&& placed_passes(placed, pass)
            &&& placed.below matches Some(name) ==> has_name(ledger.refs, name)
        }
    &&& forall|i: int|
        0 <= i < ledger.head_refs.len() ==> has_name(ledger.refs, #[trigger] ledger.head_refs[i])
    &&& ledger.ws_parents matches Some(ids) ==> forall|i: int|
        0 <= i < ids.len() ==> pass(#[trigger] ids[i])
}

/// A ledger that is read off segments only names commits of the segments, and names for what is
/// underneath or checked out only references of its own.
pub proof fn law_derived_is_self_contained(
    segments: Seq<SegmentView>,
    mutable: Set<usize>,
    entry: int,
    workspace_commit_id: Option<ObjectId>,
    pass: spec_fn(ObjectId) -> bool,
)
    requires
        connected_within(segments),
        connections_fit(segments),
        all_nodes(segments, mutable).len() <= usize::MAX,
        ids_pass(segments, pass),
    ensures
        self_contained(derived(segments, mutable, entry, workspace_commit_id), pass),
{
    let nodes = all_nodes(segments, mutable);
    let lists = final_lists(segments, mutable, workspace_commit_id);
    let ledger = derived(segments, mutable, entry, workspace_commit_id);
    let n = nodes.len() as int;
    lemma_final_below(segments, mutable, workspace_commit_id);
    lemma_runs_pass(segments, mutable, segments.len() as int, pass);
    lemma_placed_refs(nodes, lists, n, pass);
    assert(ledger.refs == placed_refs(nodes, lists, n));
    assert forall|k: int| 0 <= k < ledger.refs.len() implies {
        let placed = #[trigger] ledger.refs[k];
        &&& placed_passes(placed, pass)
        &&& placed.below matches Some(name) ==> has_name(ledger.refs, name)
    } by {
        let placed = ledger.refs[k];
        if let Some(name) = placed.below {
            let b = choose|b: int|
                0 <= b < nodes.len() && #[trigger] nodes[b] is Ref && nodes[b]->Ref_name == name;
            lemma_ref_is_placed(nodes, lists, b, n);
        }
    }
    lemma_heads(segments, segments[entry].name, segments.len() as int);
    assert forall|i: int| 0 <= i < ledger.head_refs.len() implies has_name(
        ledger.refs,
        #[trigger] ledger.head_refs[i],
    ) by {
        let s = choose|s: int|
            0 <= s < segments.len() && (#[trigger] segments[s]).name == Some(ledger.head_refs[i]);
        lemma_name_is_node(segments, mutable, s, segments.len() as int);
        let b = choose|b: int|
            0 <= b < nodes.len() && #[trigger] nodes[b] is Ref && nodes[b]->Ref_name
                == segments[s].name->0;
        lemma_ref_is_placed(nodes, lists, b, n);
    }
    if let Some(id) = workspace_commit_id {
        lemma_commit_in_below(nodes, id, n);
        if let Some(w) = commit_node(nodes, id) {
            let list = lists[w as int];
            assert forall|i: int| 0 <= i < list.len() implies #[trigger] list[i] < nodes.len() by {
                assert(lists[w as int][i] < nodes.len());
            }
            lemma_settled_ids(nodes, lists, list, list.len() as int, pass);
        }
    }
}

proof fn lemma_copies_of_first(a: Seq<RunView>, b: Seq<RunView>, id: ObjectId, n: int)
    requires
        n <= a.len(),
    ensures
        copies(a + b, id, n) == copies(a, id, n),
    decreases n,
{
    if n > 0 {
        lemma_copies_of_first(a, b, id, n - 1);
        assert((a + b)[n - 1] == a[n - 1]);
    }
}

proof fn lemma_copies_add(a: Seq<RunView>, b: Seq<RunView>, id: ObjectId, n: int)
    requires
        0 <= n <= b.len(),
    ensures
        copies(a + b, id, a.len() + n) == copies(a, id, a.len() as int) + copies(b, id, n),
    decreases n,
{
    if n > 0 {
        lemma_copies_add(a, b, id, n - 1);
        assert((a + b)[a.len() + n - 1] == b[n - 1]);
    } else {
        lemma_copies_of_first(a, b, id, a.len() as int);
    }
}

proof fn lemma_copies_of_refs(names: Seq<Seq<u8>>, mutable: bool, id: ObjectId, n: int)
    requires
        n <= names.len(),
    ensures
        copies(refs_run(names, mutable), id, n) == 0,
    decreases n,
{
    if n > 0 {
        lemma_copies_of_refs(names, mutable, id, n - 1);
    }
}

proof fn lemma_copies_of_commits(commits: Seq<CommitView>, mutable: bool, id: ObjectId, n: int)
    requires
        0 <= n <= commits.len(),
        forall|c: int, d: int|
            0 <= c < commits.len() && 0 <= d < commits.len() && (#[trigger] commits[c]).id == (
            #[trigger] commits[d]).id ==> c == d,
    ensures
        ({
            let run = commits_run(commits, mutable, n);
            let count = copies(run, id, run.len() as int);
            &&& count <= 1
            &&& count > 0 ==> exists|c: int| 0 <= c < n && (#[trigger] commits[c]).id == id
        }),
    decreases n,
{
    if n > 0 {
        lemma_copies_of_commits(commits, mutable, id, n - 1);
        let before = commits_run(commits, mutable, n - 1);
        let commit = commits[n - 1];
        let refs = refs_run(commit.refs, mutable);
        let own = refs.push(
            RunView::Commit { id: commit.id, parent_ids: commit.parent_ids },
        );
        assert(own =~= refs + seq![own[refs.len() as int]]);
        lemma_copies_of_refs(commit.refs, mutable, id, commit.refs.len() as int);
        lemma_copies_of_first(refs, seq![own[refs.len() as int]], id, refs.len() as int);
        lemma_copies_add(before, own, id, own.len() as int);
        if copies(before, id, before.len() as int) > 0 {
            let c = choose|c: int| 0 <= c < n - 1 && (#[trigger] commits[c]).id == id;
            assert(commits[c].id == id);
        }
    }
}

proof fn lemma_copies_of_segment(segment: SegmentView, mutable: bool, id: ObjectId)
    requires
        forall|c: int, d: int|
            0 <= c < segment.commits.len() && 0 <= d < segment.commits.len() && (
            #[trigger] segment.commits[c]).id == (#[trigger] segment.commits[d]).id ==> c == d,
    ensures
        ({
            let run = segment_run(segment, mutable);
            let count = copies(run, id, run.len() as int);
            &&& count <= 1
            &&& count > 0 ==> exists|c: int|
                0 <= c < segment.commits.len() && (#[trigger] segment.commits[c]).id == id
        }),
{
    let named = named_run(segment.name, mutable);
    let own = commits_run(segment.commits, mutable, segment.commits.len() as int);
    lemma_copies_of_commits(segment.commits, mutable, id, segment.commits.len() as int);
    lemma_copies_add(named, own, id, own.len() as int);
    reveal_with_fuel(copies, 2);
}

/// Where each commit is in one segment, and there once, it is one node at most.
pub proof fn lemma_copies_of_segments(
    segments: Seq<SegmentView>,
    mutable: Set<usize>,
    id: ObjectId,
    n: int,
)
    requires
        0 <= n <= segments.len(),
        distinct_commits(segments),
    ensures
        ({
            let nodes = runs(segments, mutable, n);
            let count = copies(nodes, id, nodes.len() as int);
            &&& count <= 1
            &&& count > 0 ==> exists|s: int, c: int|
                0 <= s < n && 0 <= c < segments[s].commits.len() && (
                #[trigger] segments[s].commits[c]).id == id
        }),
    decreases n,
{
    if n > 0 {
        lemma_copies_of_segments(segments, mutable, id, n - 1);
        let before = runs(segments, mutable, n - 1);
        let may = mutable.contains((n - 1) as usize);
        let own = segment_run(segments[n - 1], may);
        assert forall|c: int, d: int|
            0 <= c < segments[n - 1].commits.len() && 0 <= d < segments[n - 1].commits.len() && (
            #[trigger] segments[n - 1].commits[c]).id == (
            #[trigger] segments[n - 1].commits[d]).id implies c == d by {}
        lemma_copies_of_segment(segments[n - 1], may, id);
        lemma_copies_add(before, own, id, own.len() as int);
        if copies(own, id, own.len() as int) > 0 {
            let c = choose|c: int|
                0 <= c < segments[n - 1].commits.len() && (
                #[trigger] segments[n - 1].commits[c]).id == id;
            assert(segments[n - 1].commits[c].id == id);
            if copies(before, id, before.len() as int) > 0 {
                let (s, d) = choose|s: int, d: int|
                    0 <= s < n - 1 && 0 <= d < segments[s].commits.len() && (
                    #[trigger] segments[s].commits[d]).id == id;
                assert(segments[s].commits[d].id == segments[n - 1].commits[c].id);
            }
        } else if copies(before, id, before.len() as int) > 0 {
            let (s, d) = choose|s: int, d: int|
                0 <= s < n - 1 && 0 <= d < segments[s].commits.len() && (
                #[trigger] segments[s].commits[d]).id == id;
            assert(segments[s].commits[d].id == id);
        }
    }
}

proof fn lemma_vacated_room(
    nodes: Seq<RunView>,
    lists: Seq<Seq<usize>>,
    list: Seq<usize>,
    n: int,
)
    requires
        0 <= n,
    ensures
        vacated(nodes, lists, list, n) <= n,
    decreases n,
{
    if n > 0 {
        lemma_vacated_room(nodes, lists, list, n - 1);
    }
}

/// Where each commit is in one segment, and there once, a ledger can be read off whatever leads to
/// what.
pub proof fn law_distinct_commits_are_derivable(
    graph: SegmentGraph,
    extra: Seq<ExtraRef>,
    workspace_commit_id: Option<ObjectId>,
)
    requires
        distinct_commits(graph@),
    ensures
        derivable(graph, extra, workspace_commit_id),
{
    let segments = graph@;
    let mutable = reachable_segments(
        segments,
        mutable_entries((graph.entrypoint->0).0, extra),
    );
    let nodes = all_nodes(segments, mutable);
    let lists = final_lists(segments, mutable, workspace_commit_id);
    assert forall|l: Slot| #[trigger] given_up(nodes, lists, l) <= l.1 by {
        let id = commit_id(nodes[l.0 as int]);
        let each = vacated(nodes, lists, lists[l.0 as int], l.1 as int);
        let times = copies(nodes, id, nodes.len() as int);
        lemma_copies_of_segments(segments, mutable, id, segments.len() as int);
        lemma_vacated_room(nodes, lists, lists[l.0 as int], l.1 as int);
        assert(times * each <= each) by (nonlinear_arith)
            requires
                times <= 1,
        ;
    }
    assert(legs_have_room(nodes, lists));
}

/// Whether the commit is in the graph.
pub open spec fn in_graph(commits: Seq<CommitView>) -> spec_fn(ObjectId) -> bool {
    |id: ObjectId| last_index(commits, id) is Some
}

proof fn lemma_has_name(refs: Seq<PlacedView>, name: Seq<u8>, i: int, n: int)
    requires
        0 <= i < n,
        refs[i].name == name,
    ensures
        name_in(refs, name, n) is Some,
    decreases n,
{
    if i < n - 1 {
        lemma_has_name(refs, name, i, n - 1);
    }
}

proof fn lemma_named(refs: Seq<PlacedView>, name: Seq<u8>)
    requires
        has_name(refs, name),
    ensures
        ref_named(refs, name) is Some,
{
    let i = choose|i: int| 0 <= i < refs.len() && (#[trigger] refs[i]).name == name;
    lemma_has_name(refs, name, i, refs.len() as int);
}

proof fn lemma_legs_known(commits: Seq<CommitView>, legs: Seq<CommitLeg>, n: int)
    requires
        n <= legs.len(),
        forall|i: int| 0 <= i < legs.len() ==> last_index(commits, (#[trigger] legs[i]).0) is Some,
    ensures
        node_legs(commits, legs, n) is Ok,
    decreases n,
{
    if n > 0 {
        lemma_legs_known(commits, legs, n - 1);
        assert(last_index(commits, legs[n - 1].0) is Some);
    }
}

proof fn lemma_positions_ok(
    commits: Seq<CommitView>,
    ledger: PlacementsView,
    graph: EditorView,
    n: int,
)
    requires
        n <= ledger.refs.len(),
        self_contained(ledger, in_graph(commits)),
    ensures
        with_positions(commits, ledger.refs, graph, n) is Ok,
    decreases n,
{
    if n > 0 {
        lemma_positions_ok(commits, ledger, graph, n - 1);
        let placed = ledger.refs[n - 1];
        assert(placed_passes(placed, in_graph(commits)));
        if let Some(name) = placed.below {
            lemma_named(ledger.refs, name);
        }
        assert forall|i: int| 0 <= i < placed.approach.len() implies last_index(
            commits,
            (#[trigger] placed.approach[i]).0,
        ) is Some by {
            assert(in_graph(commits)(placed.approach[i].0));
        }
        lemma_legs_known(commits, placed.approach, placed.approach.len() as int);
        if let Some(id) = placed.anchor {
            assert(in_graph(commits)(id));
        }
    }
}

/// Names of references of the ledger are found.
pub proof fn lemma_checkouts_ok(refs: Seq<PlacedView>, names: Seq<Seq<u8>>, n: int)
    requires
        n <= names.len(),
        forall|i: int| 0 <= i < names.len() ==> has_name(refs, #[trigger] names[i]),
    ensures
        head_checkouts(refs, names, n) is Ok,
    decreases n,
{
    if n > 0 {
        lemma_checkouts_ok(refs, names, n - 1);
        assert(has_name(refs, names[n - 1]));
        lemma_named(refs, names[n - 1]);
    }
}

/// A graph can be built from every ledger that only names commits of the commit graph, and names
/// for what is underneath or checked out only references of its own.
pub proof fn law_self_contained_is_built(
    commits: Seq<CommitView>,
    defaults: PickDefaults,
    sign: Seq<char>,
    workspace_commit_id: Option<ObjectId>,
    ledger: PlacementsView,
)
    requires
        self_contained(ledger, in_graph(commits)),
    ensures
        ws_parents_known(commits, workspace_commit_id, ledger),
        created(commits, defaults, sign, workspace_commit_id, ledger) is Ok,
        head_checkouts(ledger.refs, ledger.head_refs, ledger.head_refs.len() as int) is Ok,
{
    let graph = EditorView {
        nodes: crate::creation::commit_nodes(
            commits,
            defaults,
            sign,
            workspace_commit_id,
            ledger,
        ),
        refs: crate::creation::lone_refs(ledger.refs),
        lanes: Map::empty(),
    };
    lemma_positions_ok(commits, ledger, graph, ledger.refs.len() as int);
    lemma_checkouts_ok(ledger.refs, ledger.head_refs, ledger.head_refs.len() as int);
    if let Some(ids) = ledger.ws_parents {
        assert forall|i: int| 0 <= i < ids.len() implies last_index(
            commits,
            #[trigger] ids[i],
        ) is Some by {
            assert(in_graph(commits)(ids[i]));
        }
    }
}

/// Whatever is not a commit has a higher rank than all that it leads to.
pub open spec fn ranked_nodes(
    nodes: Seq<RunView>,
    lists: Seq<Seq<usize>>,
    rank: Seq<nat>,
) -> bool {
    &&& rank.len() == nodes.len()
    &&& forall|i: int, j: int|
        0 <= i < nodes.len() && !is_commit(nodes[i]) && 0 <= j < lists[i].len()
            ==> rank[(#[trigger] lists[i][j]) as int] < rank[i]
}

proof fn lemma_flat_fuel(
    nodes: Seq<RunView>,
    lists: Seq<Seq<usize>>,
    rank: Seq<nat>,
    list: Seq<usize>,
    m: nat,
    n: nat,
)
    requires
        lists.len() == nodes.len(),
        lists_below(lists, nodes.len() as int),
        ranked_nodes(nodes, lists, rank),
        m <= n,
        forall|i: int|
            0 <= i < list.len() ==> (#[trigger] list[i]) < nodes.len() && rank[list[i] as int] < m,
    ensures
        flat(nodes, lists, list, m) == flat(nodes, lists, list, n),
    decreases m, list.len(),
{
    if list.len() > 0 {
        let d = list.drop_last();
        let last = list.last();
        assert forall|i: int| 0 <= i < d.len() implies (#[trigger] d[i]) < nodes.len()
            && rank[d[i] as int] < m by {
            assert(d[i] == list[i]);
        }
        lemma_flat_fuel(nodes, lists, rank, d, m, n);
        assert(list[list.len() - 1] < nodes.len() && rank[last as int] < m);
        if !is_commit(nodes[last as int]) {
            let own = lists[last as int];
            assert forall|i: int| 0 <= i < own.len() implies (#[trigger] own[i]) < nodes.len()
                && rank[own[i] as int] < m - 1 by {
                assert(lists[last as int][i] < nodes.len());
                assert(rank[lists[last as int][i] as int] < rank[last as int]);
            }
            lemma_flat_fuel(nodes, lists, rank, own, (m - 1) as nat, (n - 1) as nat);
        }
        assert(flat_node(nodes, lists, last, m) == flat_node(nodes, lists, last, n));
    }
}

/// Where names do not lead around in a circle, the commits that a list stands for do not depend on
/// how far it is followed, from the number of nodes on.
pub proof fn law_flat_is_complete(
    nodes: Seq<RunView>,
    lists: Seq<Seq<usize>>,
    rank: Seq<nat>,
    list: Seq<usize>,
    more: nat,
)
    requires
        lists.len() == nodes.len(),
        lists_below(lists, nodes.len() as int),
        ranked_nodes(nodes, lists, rank),
        forall|i: int| 0 <= i < rank.len() ==> #[trigger] rank[i] < nodes.len(),
        forall|i: int| 0 <= i < list.len() ==> #[trigger] list[i] < nodes.len(),
        nodes.len() <= more,
    ensures
        flat(nodes, lists, list, more) == flat(nodes, lists, list, nodes.len()),
{
    assert forall|i: int| 0 <= i < list.len() implies (#[trigger] list[i]) < nodes.len()
        && rank[list[i] as int] < nodes.len() by {
        assert(rank[list[i] as int] < nodes.len());
    }
    lemma_flat_fuel(nodes, lists, rank, list, nodes.len(), more);
}

} // verus!
