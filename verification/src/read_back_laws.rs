//! A ledger that is read off segments, built and read back.

use crate::commit::CommitView;
use crate::commit_graph::{last_index, lemma_last_index};
use crate::creation::{commit_nodes, created, head_checkouts, node_list, raw_parents, PickDefaults};
use crate::creation_laws::{
    distinct_names, is_leg_into, law_ledger_is_read_back, law_read_back_is_truly_placed, ledger_of,
    lemma_built_node, lemma_filter_distinct, parents_fit, placed_truly,
};
use crate::derivation::{
    all_nodes, ascend, commit_id, commit_in, commit_node, commits_run, compact_legs,
    connections_fit, copies, derived, descend, distinct_commits, entering, final_lists, flat,
    flat_node, from_commit, given_up, is_commit, lemma_commit_found, links, lists_below, lists_fit,
    named_run, partial, placed_at, placed_refs, present, refs_run, rewired, runs, segment_run,
    settle, settled_ids, slots_onto, vacated, workspace_parents, RunView, Slot,
};
use crate::derivation_laws::{
    connected_within, ids_pass, in_graph, law_derived_is_self_contained,
    law_self_contained_is_built, lemma_commit_in_below, lemma_copies_of_segments, lemma_links_below,
    ranked_nodes, self_contained,
};
use crate::editor_graph::{EditorGraphIndex, NodeView, WALK_LIMIT};
use crate::generation_laws::distinct_ids;
use crate::names::ObjectId;
use crate::order::{lemma_sorted_contains, lemma_sorted_increasing};
use crate::placements::{ledger, CommitLeg, PlacementError, PlacementsView};
use crate::segment_graph::{has_commit, SegmentView};
use crate::seqs::{lemma_filter_contains, lemma_filter_none, lemma_filter_take};
use vstd::prelude::*;

verus! {

/// Whatever is not a commit leads to one thing at most.
pub open spec fn straight(nodes: Seq<RunView>, lists: Seq<Seq<usize>>) -> bool {
    forall|i: int| 0 <= i < nodes.len() && !is_commit(#[trigger] nodes[i]) ==> lists[i].len() <= 1
}

/// Names do not lead around in a circle, and lead to commits before walks are given up.
pub open spec fn short(nodes: Seq<RunView>, lists: Seq<Seq<usize>>, rank: Seq<nat>) -> bool {
    &&& ranked_nodes(nodes, lists, rank)
    &&& forall|i: int|
        0 <= i < rank.len() ==> #[trigger] rank[i] < WALK_LIMIT && rank[i] < nodes.len()
}

/// The commit that the node is, or sits on, as far as walks go.
pub open spec fn settled(nodes: Seq<RunView>, lists: Seq<Seq<usize>>, node: usize) -> Option<usize> {
    settle(nodes, lists, node, WALK_LIMIT as nat)
}

proof fn lemma_settle_fuel(
    nodes: Seq<RunView>,
    lists: Seq<Seq<usize>>,
    rank: Seq<nat>,
    cursor: usize,
    m: nat,
    n: nat,
)
    requires
        lists.len() == nodes.len(),
        lists_below(lists, nodes.len() as int),
        ranked_nodes(nodes, lists, rank),
        cursor < nodes.len(),
        rank[cursor as int] < m <= n,
    ensures
        settle(nodes, lists, cursor, m) == settle(nodes, lists, cursor, n),
    decreases m,
{
    if !is_commit(nodes[cursor as int]) && lists[cursor as int].len() > 0 {
        let next = lists[cursor as int][0];
        assert(next < nodes.len());
        assert(rank[next as int] < rank[cursor as int]);
        lemma_settle_fuel(nodes, lists, rank, next, (m - 1) as nat, (n - 1) as nat);
    }
}

/// What is not a commit sits where the first thing that it leads to sits.
proof fn lemma_settled_step(
    nodes: Seq<RunView>,
    lists: Seq<Seq<usize>>,
    rank: Seq<nat>,
    cursor: usize,
)
    requires
        lists.len() == nodes.len(),
        lists_below(lists, nodes.len() as int),
        short(nodes, lists, rank),
        cursor < nodes.len(),
        !is_commit(nodes[cursor as int]),
        lists[cursor as int].len() > 0,
    ensures
        settled(nodes, lists, cursor) == settled(nodes, lists, lists[cursor as int][0]),
{
    let next = lists[cursor as int][0];
    assert(next < nodes.len());
    assert(rank[next as int] < rank[cursor as int]);
    assert(rank[cursor as int] < WALK_LIMIT);
    lemma_settle_fuel(
        nodes,
        lists,
        rank,
        next,
        (WALK_LIMIT - 1) as nat,
        WALK_LIMIT as nat,
    );
}

/// The commit that a reference is placed on is the one that it sits on.
proof fn lemma_descend_settled(
    nodes: Seq<RunView>,
    lists: Seq<Seq<usize>>,
    rank: Seq<nat>,
    cursor: usize,
    below: Option<usize>,
    fuel: nat,
)
    requires
        lists.len() == nodes.len(),
        lists_below(lists, nodes.len() as int),
        short(nodes, lists, rank),
        cursor < nodes.len(),
        !is_commit(nodes[cursor as int]),
    ensures
        descend(nodes, lists, cursor, below, fuel) matches Some((anchor, _)) ==> settled(
            nodes,
            lists,
            cursor,
        ) == Some(anchor) && anchor < nodes.len() && is_commit(nodes[anchor as int]),
    decreases fuel,
{
    if fuel > 0 && lists[cursor as int].len() > 0 {
        let next = lists[cursor as int][0];
        assert(next < nodes.len());
        lemma_settled_step(nodes, lists, rank, cursor);
        if !is_commit(nodes[next as int]) {
            let under = if below is None && nodes[next as int] is Ref {
                Some(next)
            } else {
                below
            };
            lemma_descend_settled(nodes, lists, rank, next, under, (fuel - 1) as nat);
        }
    }
}

/// Places in the order in which they are walked.
pub open spec fn slot_before(a: Slot, b: Slot) -> bool {
    a.0 < b.0 || (a.0 == b.0 && a.1 < b.1)
}

/// The places hold the node, and are in order.
pub open spec fn slots_hold(lists: Seq<Seq<usize>>, slots: Seq<Slot>, node: usize) -> bool {
    &&& forall|i: int|
        0 <= i < slots.len() ==> (#[trigger] slots[i]).0 < lists.len() && slots[i].1
            < lists[slots[i].0 as int].len() && lists[slots[i].0 as int][slots[i].1 as int] == node
    &&& forall|i: int, j: int|
        0 <= i < j < slots.len() ==> slot_before(#[trigger] slots[i], #[trigger] slots[j])
}

proof fn lemma_slots_onto_hold(list: Seq<usize>, child: usize, node: usize, n: int)
    requires
        n <= list.len() <= usize::MAX,
    ensures
        ({
            let slots = slots_onto(list, child, node, n);
            &&& forall|i: int|
                0 <= i < slots.len() ==> (#[trigger] slots[i]).0 == child && slots[i].1 < n
                    && list[slots[i].1 as int] == node
            &&& forall|i: int, j: int|
                0 <= i < j < slots.len() ==> slot_before(#[trigger] slots[i], #[trigger] slots[j])
        }),
    decreases n,
{
    if n > 0 {
        lemma_slots_onto_hold(list, child, node, n - 1);
        let (before, all) = (
            slots_onto(list, child, node, n - 1),
            slots_onto(list, child, node, n),
        );
        assert(all == before || all == before.push((child, (n - 1) as usize)));
        assert forall|i: int| 0 <= i < all.len() implies (#[trigger] all[i]).0 == child && all[i].1
            < n && list[all[i].1 as int] == node by {
            if i < before.len() {
                assert(all[i] == before[i]);
            }
        }
        assert forall|i: int, j: int| 0 <= i < j < all.len() implies slot_before(
            #[trigger] all[i],
            #[trigger] all[j],
        ) by {
            assert(all[i] == before[i]);
            if j < before.len() {
                assert(all[j] == before[j]);
            }
        }
    } else {
        assert(slots_onto(list, child, node, n).len() == 0);
    }
}

proof fn lemma_entering_hold(lists: Seq<Seq<usize>>, node: usize, n: int)
    requires
        n <= lists.len(),
        lists_fit(lists),
    ensures
        slots_hold(lists, entering(lists, node, n), node),
        forall|i: int|
            0 <= i < entering(lists, node, n).len() ==> (#[trigger] entering(lists, node, n)[i]).0
                < n,
    decreases n,
{
    if n > 0 {
        lemma_entering_hold(lists, node, n - 1);
        assert(lists[n - 1].len() <= usize::MAX);
        lemma_slots_onto_hold(lists[n - 1], (n - 1) as usize, node, lists[n - 1].len() as int);
        let (before, own, all) = (
            entering(lists, node, n - 1),
            slots_onto(lists[n - 1], (n - 1) as usize, node, lists[n - 1].len() as int),
            entering(lists, node, n),
        );
        assert forall|i: int| 0 <= i < all.len() implies (#[trigger] all[i]).0 < n && all[i].1
            < lists[all[i].0 as int].len() && lists[all[i].0 as int][all[i].1 as int] == node by {
            if i < before.len() {
                assert(all[i] == before[i]);
            } else {
                assert(all[i] == own[i - before.len()]);
            }
        }
        assert forall|i: int, j: int| 0 <= i < j < all.len() implies slot_before(
            #[trigger] all[i],
            #[trigger] all[j],
        ) by {
            if j < before.len() {
                assert(all[i] == before[i] && all[j] == before[j]);
            } else if i < before.len() {
                assert(all[i] == before[i] && all[j] == own[j - before.len()]);
            } else {
                assert(all[i] == own[i - before.len()] && all[j] == own[j - before.len()]);
            }
        }
    } else {
        assert(entering(lists, node, n).len() == 0);
    }
}

/// The places are places of commits that hold what sits on `pick`, each one once.
pub open spec fn slots_lead_to(
    nodes: Seq<RunView>,
    lists: Seq<Seq<usize>>,
    slots: Seq<Slot>,
    pick: Option<usize>,
) -> bool {
    &&& slots.no_duplicates()
    &&& forall|i: int|
        0 <= i < slots.len() ==> (#[trigger] slots[i]).0 < nodes.len() && is_commit(
            nodes[slots[i].0 as int],
        ) && slots[i].1 < lists[slots[i].0 as int].len() && settled(
            nodes,
            lists,
            lists[slots[i].0 as int][slots[i].1 as int],
        ) == pick
}

/// What descends into a reference are places that lead to where it sits.
proof fn lemma_ascend_leads(
    nodes: Seq<RunView>,
    lists: Seq<Seq<usize>>,
    rank: Seq<nat>,
    cursor: usize,
    fuel: nat,
)
    requires
        lists.len() == nodes.len(),
        lists_below(lists, nodes.len() as int),
        lists_fit(lists),
        short(nodes, lists, rank),
        straight(nodes, lists),
        cursor < nodes.len(),
    ensures
        slots_lead_to(
            nodes,
            lists,
            ascend(nodes, lists, cursor, fuel).1,
            settled(nodes, lists, cursor),
        ),
    decreases fuel,
{
    let n = lists.len() as int;
    let all = entering(lists, cursor, n);
    let picks = all.filter(from_commit(nodes));
    lemma_entering_hold(lists, cursor, n);
    assert(all.no_duplicates()) by {
        assert forall|i: int, j: int| 0 <= i < all.len() && 0 <= j < all.len() && i != j implies all[i]
            != all[j] by {
            if i < j {
                assert(slot_before(all[i], all[j]));
            } else {
                assert(slot_before(all[j], all[i]));
            }
        }
    }
    lemma_filter_distinct(all, from_commit(nodes));
    assert forall|i: int| 0 <= i < picks.len() implies (#[trigger] picks[i]).0 < nodes.len()
        && is_commit(nodes[picks[i].0 as int]) && picks[i].1 < lists[picks[i].0 as int].len()
        && settled(nodes, lists, lists[picks[i].0 as int][picks[i].1 as int]) == settled(
        nodes,
        lists,
        cursor,
    ) by {
        assert(picks.contains(picks[i]));
        lemma_filter_contains(all, from_commit(nodes), picks[i]);
        let j = choose|j: int| 0 <= j < all.len() && all[j] == picks[i];
        assert(all[j].0 < lists.len());
    }
    if fuel > 0 && picks.len() == 0 && all.len() == 1 {
        let child = all[0].0;
        if is_commit(nodes[child as int]) {
            assert(all.contains(all[0]));
            lemma_filter_contains(all, from_commit(nodes), all[0]);
            assert(picks.contains(all[0]));
        }
        assert(!is_commit(nodes[child as int]));
        assert(lists[child as int].len() <= 1);
        assert(lists[child as int][all[0].1 as int] == cursor);
        lemma_settled_step(nodes, lists, rank, child);
        lemma_ascend_leads(nodes, lists, rank, child, (fuel - 1) as nat);
    }
}

proof fn lemma_settled_len(
    nodes: Seq<RunView>,
    lists: Seq<Seq<usize>>,
    list: Seq<usize>,
    n: int,
)
    requires
        0 <= n <= list.len(),
    ensures
        settled_ids(nodes, lists, list, n).len() == n - vacated(nodes, lists, list, n),
    decreases n,
{
    if n > 0 {
        lemma_settled_len(nodes, lists, list, n - 1);
    }
}

/// Without the places that lead to no commit, a place is where its commit is among all commits that
/// the list leads to.
proof fn lemma_settled_at(
    nodes: Seq<RunView>,
    lists: Seq<Seq<usize>>,
    list: Seq<usize>,
    s: int,
    n: int,
)
    requires
        0 <= s < n <= list.len(),
        settled(nodes, lists, list[s]) is Some,
    ensures
        ({
            let ids = settled_ids(nodes, lists, list, n);
            let k = s - vacated(nodes, lists, list, s);
            &&& 0 <= k < ids.len()
            &&& ids[k] == commit_id(nodes[settled(nodes, lists, list[s])->0 as int])
        }),
    decreases n,
{
    lemma_settled_len(nodes, lists, list, s);
    if s < n - 1 {
        lemma_settled_at(nodes, lists, list, s, n - 1);
        let k = s - vacated(nodes, lists, list, s);
        let (before, all) = (
            settled_ids(nodes, lists, list, n - 1),
            settled_ids(nodes, lists, list, n),
        );
        assert(all[k] == before[k]);
    }
}

/// A commit that is there once at most is found where it is.
proof fn lemma_one_copy(nodes: Seq<RunView>, i: int, n: int)
    requires
        0 <= i < n <= nodes.len() <= usize::MAX,
        is_commit(nodes[i]),
        copies(nodes, commit_id(nodes[i]), n) <= 1,
    ensures
        copies(nodes, commit_id(nodes[i]), n) == 1,
        commit_in(nodes, commit_id(nodes[i]), n) == Some(i as usize),
    decreases n,
{
    if i < n - 1 {
        lemma_one_copy(nodes, i, n - 1);
    }
}

/// Each commit is there once.
pub open spec fn single(nodes: Seq<RunView>) -> bool {
    forall|id: ObjectId| #[trigger] copies(nodes, id, nodes.len() as int) <= 1
}

/// Of a list without names that lead to more than one thing, the commits that it stands for are
/// those that it leads to.
proof fn lemma_flat_settled(
    nodes: Seq<RunView>,
    lists: Seq<Seq<usize>>,
    rank: Seq<nat>,
    list: Seq<usize>,
    n: int,
)
    requires
        lists.len() == nodes.len(),
        lists_below(lists, nodes.len() as int),
        short(nodes, lists, rank),
        straight(nodes, lists),
        0 <= n <= list.len(),
        forall|i: int| 0 <= i < list.len() ==> #[trigger] list[i] < nodes.len(),
    ensures
        flat(nodes, lists, list.take(n), nodes.len()) == settled_ids(nodes, lists, list, n),
    decreases n,
{
    if n > 0 {
        lemma_flat_settled(nodes, lists, rank, list, n - 1);
        let x = list[n - 1];
        assert(list.take(n).drop_last() =~= list.take(n - 1));
        assert(list.take(n).last() == x);
        assert(rank[x as int] < nodes.len());
        lemma_flat_node(nodes, lists, rank, x, nodes.len());
        let (before, own) = (settled_ids(nodes, lists, list, n - 1), settled(nodes, lists, x));
        match own {
            Some(pick) => {
                assert(before + seq![commit_id(nodes[pick as int])] =~= before.push(
                    commit_id(nodes[pick as int]),
                ));
            },
            None => {
                assert(before + Seq::empty() =~= before);
            },
        }
    } else {
        assert(list.take(n).len() == 0);
    }
}

proof fn lemma_flat_node(
    nodes: Seq<RunView>,
    lists: Seq<Seq<usize>>,
    rank: Seq<nat>,
    node: usize,
    fuel: nat,
)
    requires
        lists.len() == nodes.len(),
        lists_below(lists, nodes.len() as int),
        short(nodes, lists, rank),
        straight(nodes, lists),
        node < nodes.len(),
        rank[node as int] < fuel,
    ensures
        flat_node(nodes, lists, node, fuel) == match settled(nodes, lists, node) {
            Some(pick) => seq![commit_id(nodes[pick as int])],
            None => Seq::empty(),
        },
    decreases fuel,
{
    if !is_commit(nodes[node as int]) {
        let own = lists[node as int];
        assert(own.len() <= 1);
        if own.len() == 1 {
            let next = own[0];
            assert(next < nodes.len());
            assert(rank[lists[node as int][0] as int] < rank[node as int]);
            lemma_settled_step(nodes, lists, rank, node);
            lemma_flat_node(nodes, lists, rank, next, (fuel - 1) as nat);
            assert(own.drop_last().len() == 0);
            assert(flat(nodes, lists, own.drop_last(), (fuel - 1) as nat) =~= Seq::empty());
            assert(flat(nodes, lists, own, (fuel - 1) as nat) =~= flat_node(
                nodes,
                lists,
                next,
                (fuel - 1) as nat,
            ));
        } else {
            assert(flat(nodes, lists, own, (fuel - 1) as nat) =~= Seq::empty());
            assert(settled(nodes, lists, node) is None);
        }
    } else {
        assert(settled(nodes, lists, node) == Some(node));
    }
}

/// Both lead from names to the same things.
pub open spec fn same_names_lists(
    nodes: Seq<RunView>,
    a: Seq<Seq<usize>>,
    b: Seq<Seq<usize>>,
) -> bool {
    forall|i: int| 0 <= i < nodes.len() && !is_commit(#[trigger] nodes[i]) ==> a[i] == b[i]
}

proof fn lemma_flat_same(
    nodes: Seq<RunView>,
    a: Seq<Seq<usize>>,
    b: Seq<Seq<usize>>,
    list: Seq<usize>,
    fuel: nat,
)
    requires
        a.len() == nodes.len(),
        lists_below(a, nodes.len() as int),
        same_names_lists(nodes, a, b),
        forall|i: int| 0 <= i < list.len() ==> #[trigger] list[i] < nodes.len(),
    ensures
        flat(nodes, a, list, fuel) == flat(nodes, b, list, fuel),
    decreases fuel, list.len(),
{
    if list.len() > 0 {
        let d = list.drop_last();
        let last = list.last();
        assert forall|i: int| 0 <= i < d.len() implies #[trigger] d[i] < nodes.len() by {
            assert(d[i] == list[i]);
        }
        lemma_flat_same(nodes, a, b, d, fuel);
        assert(list[list.len() - 1] < nodes.len());
        if !is_commit(nodes[last as int]) && fuel > 0 {
            let own = a[last as int];
            assert(own == b[last as int]);
            assert forall|i: int| 0 <= i < own.len() implies #[trigger] own[i] < nodes.len() by {
                assert(a[last as int][i] < nodes.len());
            }
            lemma_flat_same(nodes, a, b, own, (fuel - 1) as nat);
        }
        assert(flat_node(nodes, a, last, fuel) == flat_node(nodes, b, last, fuel));
    }
}

/// What becomes of the list of a commit: it stands for the parents of the commit, unless it stays as
/// it is because the commit is the workspace commit or a parent is not there.
proof fn lemma_rewired_at(
    nodes: Seq<RunView>,
    lists: Seq<Seq<usize>>,
    ws: Option<ObjectId>,
    n: int,
)
    requires
        0 <= n <= nodes.len() <= usize::MAX,
        lists.len() == nodes.len(),
        lists_below(lists, nodes.len() as int),
        single(nodes),
    ensures
        ({
            let r = rewired(nodes, lists, ws, n);
            &&& r.len() == nodes.len()
            &&& lists_below(r, nodes.len() as int)
            &&& same_names_lists(nodes, r, lists)
            &&& forall|i: int| n <= i < nodes.len() ==> #[trigger] r[i] == lists[i]
            &&& forall|i: int|
                0 <= i < n && is_commit(#[trigger] nodes[i]) && (ws == Some(commit_id(nodes[i]))
                    || partial(nodes, nodes[i]->Commit_parent_ids)) ==> r[i] == lists[i]
            &&& forall|i: int|
                0 <= i < n && is_commit(#[trigger] nodes[i]) && ws != Some(commit_id(nodes[i]))
                    && !partial(nodes, nodes[i]->Commit_parent_ids) ==> flat(
                    nodes,
                    r,
                    r[i],
                    nodes.len(),
                ) == nodes[i]->Commit_parent_ids
        }),
    decreases n,
{
    if n > 0 {
        lemma_rewired_at(nodes, lists, ws, n - 1);
        let before = rewired(nodes, lists, ws, n - 1);
        let r = rewired(nodes, lists, ws, n);
        let len = nodes.len() as int;
        if is_commit(nodes[n - 1]) {
            let id = commit_id(nodes[n - 1]);
            let ids = nodes[n - 1]->Commit_parent_ids;
            let put = present(nodes, ids, ids.len() as int);
            assert(copies(nodes, id, len) <= 1);
            lemma_one_copy(nodes, n - 1, len);
            assert(commit_node(nodes, id)->0 == n - 1);
            assert(r == before || r == before.update(n - 1, put));
            lemma_present_flat(nodes, r, ids, ids.len() as int);
            assert(lists_below(r, len)) by {
                assert forall|i: int, j: int| 0 <= i < r.len() && 0 <= j < r[i].len() implies
                    #[trigger] r[i][j] < len by {
                    if r == before || i != n - 1 {
                        assert(before[i][j] < len);
                    }
                }
            }
        }
        assert(same_names_lists(nodes, r, before));
        assert forall|i: int|
            0 <= i < n && is_commit(#[trigger] nodes[i]) && ws != Some(commit_id(nodes[i]))
                && !partial(nodes, nodes[i]->Commit_parent_ids) implies flat(
            nodes,
            r,
            r[i],
            nodes.len(),
        ) == nodes[i]->Commit_parent_ids by {
            if i < n - 1 {
                assert(r[i] == before[i]);
                assert forall|j: int| 0 <= j < r[i].len() implies #[trigger] r[i][j] < len by {}
                lemma_flat_same(nodes, r, before, r[i], nodes.len());
            } else {
                let ids = nodes[n - 1]->Commit_parent_ids;
                if flat(nodes, before, before[n - 1], nodes.len()) == ids {
                    assert(r == before);
                } else {
                    let put = present(nodes, ids, ids.len() as int);
                    assert(r[n - 1] == put);
                    assert forall|k: int| 0 <= k < ids.len() implies commit_node(
                        nodes,
                        #[trigger] ids[k],
                    ) is Some by {}
                    lemma_present_flat(nodes, r, ids, ids.len() as int);
                }
            }
        }
    }
}

/// Commits that are there stand for themselves.
proof fn lemma_present_flat(
    nodes: Seq<RunView>,
    lists: Seq<Seq<usize>>,
    ids: Seq<ObjectId>,
    n: int,
)
    requires
        0 <= n <= ids.len(),
        nodes.len() <= usize::MAX,
    ensures
        forall|i: int|
            0 <= i < present(nodes, ids, n).len() ==> #[trigger] present(nodes, ids, n)[i]
                < nodes.len(),
        (forall|k: int| 0 <= k < n ==> commit_node(nodes, #[trigger] ids[k]) is Some) ==> flat(
            nodes,
            lists,
            present(nodes, ids, n),
            nodes.len(),
        ) == ids.take(n),
    decreases n,
{
    if n > 0 {
        lemma_present_flat(nodes, lists, ids, n - 1);
        lemma_commit_in_below(nodes, ids[n - 1], nodes.len() as int);
        let (before, all) = (present(nodes, ids, n - 1), present(nodes, ids, n));
        if commit_node(nodes, ids[n - 1]) is Some {
            let x = commit_node(nodes, ids[n - 1])->0;
            assert(all == before.push(x));
            assert(all.drop_last() =~= before);
            assert(flat_node(nodes, lists, x, nodes.len()) == seq![ids[n - 1]]);
            assert(ids.take(n) =~= ids.take(n - 1) + seq![ids[n - 1]]);
            assert forall|i: int| 0 <= i < all.len() implies #[trigger] all[i] < nodes.len() by {
                if i < before.len() {
                    assert(all[i] == before[i]);
                }
            }
        }
    } else {
        assert(present(nodes, ids, n).len() == 0);
        assert(ids.take(n) =~= Seq::empty());
    }
}

/// Each commit among the nodes is in the graph, and its parents there are the commits that its list
/// leads to.
pub open spec fn built_from(
    commits: Seq<CommitView>,
    built: Seq<NodeView>,
    nodes: Seq<RunView>,
    lists: Seq<Seq<usize>>,
) -> bool {
    forall|n: int|
        0 <= n < nodes.len() && is_commit(#[trigger] nodes[n]) ==> {
            let ids = settled_ids(nodes, lists, lists[n], lists[n].len() as int);
            &&& last_index(commits, commit_id(nodes[n])) matches Some(i)
            &&& built[i as int].parents.len() == ids.len()
            &&& forall|k: int|
                0 <= k < ids.len() ==> #[trigger] built[i as int].parents[k]
                    == EditorGraphIndex::Node(last_index(commits, ids[k])->0)
        }
}

/// A reference is truly placed: what descends into it are legs into its commit.
proof fn lemma_placed_truly(
    commits: Seq<CommitView>,
    built: Seq<NodeView>,
    nodes: Seq<RunView>,
    lists: Seq<Seq<usize>>,
    rank: Seq<nat>,
    i: int,
)
    requires
        lists.len() == nodes.len() <= usize::MAX,
        lists_below(lists, nodes.len() as int),
        lists_fit(lists),
        single(nodes),
        short(nodes, lists, rank),
        straight(nodes, lists),
        built_from(commits, built, nodes, lists),
        0 <= i < nodes.len(),
        nodes[i] is Ref,
    ensures
        placed_truly(commits, built, placed_at(nodes, lists, i)),
{
    let limit = WALK_LIMIT as nat;
    let placed = placed_at(nodes, lists, i);
    lemma_descend_settled(nodes, lists, rank, i as usize, None, limit);
    if let Some((anchor, _)) = descend(nodes, lists, i as usize, None, limit) {
        let slots = ascend(nodes, lists, i as usize, limit).1;
        let legs = compact_legs(nodes, lists, slots);
        let id = commit_id(nodes[anchor as int]);
        lemma_ascend_leads(nodes, lists, rank, i as usize, limit);
        assert forall|j: int| 0 <= j < slots.len() implies is_leg_into(
            commits,
            built,
            #[trigger] legs[j],
            last_index(commits, id)->0,
        ) by {
            let l = slots[j];
            let list = lists[l.0 as int];
            assert(copies(nodes, commit_id(nodes[l.0 as int]), nodes.len() as int) <= 1);
            lemma_one_copy(nodes, l.0 as int, nodes.len() as int);
            lemma_given_up(nodes, lists, l);
            lemma_settled_at(nodes, lists, list, l.1 as int, list.len() as int);
            assert(legs[j].1 == l.1 - vacated(nodes, lists, list, l.1 as int));
            let ids = settled_ids(nodes, lists, list, list.len() as int);
            let at = last_index(commits, commit_id(nodes[l.0 as int]))->0;
            assert(ids[legs[j].1 as int] == id);
            assert(built[at as int].parents[legs[j].1 as int] == EditorGraphIndex::Node(
                last_index(commits, ids[legs[j].1 as int])->0,
            ));
        }
        assert(legs.no_duplicates()) by {
            assert forall|a: int, b: int|
                0 <= a < legs.len() && 0 <= b < legs.len() && a != b implies legs[a] != legs[b] by {
                lemma_legs_differ(nodes, lists, slots[a], slots[b]);
                assert(slots[a] != slots[b]);
            }
        }
        lemma_sorted_increasing::<CommitLeg>(legs);
        assert forall|k: int| 0 <= k < placed.approach.len() implies is_leg_into(
            commits,
            built,
            #[trigger] placed.approach[k],
            last_index(commits, id)->0,
        ) by {
            assert(placed.approach.contains(placed.approach[k]));
            lemma_sorted_contains::<CommitLeg>(legs, placed.approach[k]);
            let j = choose|j: int| 0 <= j < legs.len() && legs[j] == placed.approach[k];
            assert(is_leg_into(commits, built, legs[j], last_index(commits, id)->0));
        }
    }
}

/// A commit that is there once gives up the places that lead to no commit.
proof fn lemma_given_up(nodes: Seq<RunView>, lists: Seq<Seq<usize>>, l: Slot)
    requires
        nodes.len() <= usize::MAX,
        l.0 < nodes.len(),
        is_commit(nodes[l.0 as int]),
        single(nodes),
    ensures
        given_up(nodes, lists, l) == vacated(nodes, lists, lists[l.0 as int], l.1 as int),
{
    assert(copies(nodes, commit_id(nodes[l.0 as int]), nodes.len() as int) <= 1);
    lemma_one_copy(nodes, l.0 as int, nodes.len() as int);
}

/// Different places that lead to a commit are different legs.
proof fn lemma_legs_differ(nodes: Seq<RunView>, lists: Seq<Seq<usize>>, a: Slot, b: Slot)
    requires
        nodes.len() <= usize::MAX,
        single(nodes),
        a != b,
        a.0 < nodes.len() && is_commit(nodes[a.0 as int]) && a.1 < lists[a.0 as int].len(),
        b.0 < nodes.len() && is_commit(nodes[b.0 as int]) && b.1 < lists[b.0 as int].len(),
        settled(nodes, lists, lists[a.0 as int][a.1 as int]) is Some,
        settled(nodes, lists, lists[b.0 as int][b.1 as int]) is Some,
    ensures
        commit_id(nodes[a.0 as int]) != commit_id(nodes[b.0 as int]) || (a.1 - given_up(
            nodes,
            lists,
            a,
        )) as usize != (b.1 - given_up(nodes, lists, b)) as usize,
{
    lemma_given_up(nodes, lists, a);
    lemma_given_up(nodes, lists, b);
    assert(copies(nodes, commit_id(nodes[a.0 as int]), nodes.len() as int) <= 1);
    assert(copies(nodes, commit_id(nodes[b.0 as int]), nodes.len() as int) <= 1);
    lemma_one_copy(nodes, a.0 as int, nodes.len() as int);
    lemma_one_copy(nodes, b.0 as int, nodes.len() as int);
    if commit_id(nodes[a.0 as int]) == commit_id(nodes[b.0 as int]) {
        let list = lists[a.0 as int];
        assert(a.0 == b.0);
        lemma_settled_len(nodes, lists, list, a.1 as int);
        lemma_settled_len(nodes, lists, list, b.1 as int);
        if a.1 < b.1 {
            lemma_settled_at(nodes, lists, list, a.1 as int, b.1 as int);
        } else {
            lemma_settled_at(nodes, lists, list, b.1 as int, a.1 as int);
        }
    }
}

/// Where the references are truly placed, all are.
proof fn lemma_all_placed_truly(
    commits: Seq<CommitView>,
    built: Seq<NodeView>,
    nodes: Seq<RunView>,
    lists: Seq<Seq<usize>>,
    rank: Seq<nat>,
    n: int,
)
    requires
        lists.len() == nodes.len() <= usize::MAX,
        lists_below(lists, nodes.len() as int),
        lists_fit(lists),
        single(nodes),
        short(nodes, lists, rank),
        straight(nodes, lists),
        built_from(commits, built, nodes, lists),
        0 <= n <= nodes.len(),
    ensures
        forall|k: int|
            0 <= k < placed_refs(nodes, lists, n).len() ==> placed_truly(
                commits,
                built,
                #[trigger] placed_refs(nodes, lists, n)[k],
            ),
    decreases n,
{
    if n > 0 {
        lemma_all_placed_truly(commits, built, nodes, lists, rank, n - 1);
        let (before, all) = (placed_refs(nodes, lists, n - 1), placed_refs(nodes, lists, n));
        if nodes[n - 1] is Ref {
            lemma_placed_truly(commits, built, nodes, lists, rank, n - 1);
            assert(all == before.push(placed_at(nodes, lists, n - 1)));
            assert forall|k: int| 0 <= k < all.len() implies placed_truly(
                commits,
                built,
                #[trigger] all[k],
            ) by {
                if k < before.len() {
                    assert(all[k] == before[k]);
                }
            }
        }
    } else {
        assert(placed_refs(nodes, lists, n).len() == 0);
    }
}

/// All commits among the nodes pass, with their parents.
pub open spec fn nodes_hold(
    nodes: Seq<RunView>,
    pass: spec_fn(ObjectId, Seq<ObjectId>) -> bool,
) -> bool {
    forall|i: int|
        0 <= i < nodes.len() && is_commit(#[trigger] nodes[i]) ==> pass(
            commit_id(nodes[i]),
            nodes[i]->Commit_parent_ids,
        )
}

proof fn lemma_commits_hold(
    commits: Seq<CommitView>,
    mutable: bool,
    n: int,
    pass: spec_fn(ObjectId, Seq<ObjectId>) -> bool,
)
    requires
        0 <= n <= commits.len(),
        forall|c: int|
            0 <= c < commits.len() ==> pass(
                (#[trigger] commits[c]).id,
                commits[c].parent_ids,
            ),
    ensures
        nodes_hold(commits_run(commits, mutable, n), pass),
        forall|c: int|
            0 <= c < n ==> has_node(commits_run(commits, mutable, n), (#[trigger] commits[c]).id),
    decreases n,
{
    if n > 0 {
        lemma_commits_hold(commits, mutable, n - 1, pass);
        let before = commits_run(commits, mutable, n - 1);
        let commit = commits[n - 1];
        let refs = refs_run(commit.refs, mutable);
        let own = refs.push(
            RunView::Commit { id: commit.id, parent_ids: commit.parent_ids },
        );
        let all = commits_run(commits, mutable, n);
        assert(all == before + own);
        assert forall|i: int| 0 <= i < all.len() && is_commit(#[trigger] all[i]) implies pass(
            commit_id(all[i]),
            all[i]->Commit_parent_ids,
        ) by {
            if i < before.len() {
                assert(all[i] == before[i]);
            } else {
                assert(all[i] == own[i - before.len()]);
                assert(pass(commits[n - 1].id, commits[n - 1].parent_ids));
            }
        }
        assert forall|c: int| 0 <= c < n implies has_node(all, (#[trigger] commits[c]).id) by {
            if c < n - 1 {
                lemma_has_node_add(before, own, commits[c].id);
            } else {
                let at = before.len() + refs.len();
                assert(all[at as int] == own[refs.len() as int]);
            }
        }
    }
}

/// Some node is the commit.
pub open spec fn has_node(nodes: Seq<RunView>, id: ObjectId) -> bool {
    exists|i: int| 0 <= i < nodes.len() && is_commit(#[trigger] nodes[i]) && commit_id(nodes[i]) == id
}

proof fn lemma_has_node_add(a: Seq<RunView>, b: Seq<RunView>, id: ObjectId)
    ensures
        has_node(a, id) ==> has_node(a + b, id),
        has_node(b, id) ==> has_node(a + b, id),
{
    if has_node(a, id) {
        let i = choose|i: int|
            0 <= i < a.len() && is_commit(#[trigger] a[i]) && commit_id(a[i]) == id;
        assert((a + b)[i] == a[i]);
    }
    if has_node(b, id) {
        let i = choose|i: int|
            0 <= i < b.len() && is_commit(#[trigger] b[i]) && commit_id(b[i]) == id;
        assert((a + b)[a.len() + i] == b[i]);
    }
}

proof fn lemma_runs_hold(
    segments: Seq<SegmentView>,
    mutable: Set<usize>,
    n: int,
    pass: spec_fn(ObjectId, Seq<ObjectId>) -> bool,
)
    requires
        0 <= n <= segments.len(),
        forall|s: int, c: int|
            0 <= s < segments.len() && 0 <= c < segments[s].commits.len() ==> pass(
                (#[trigger] segments[s].commits[c]).id,
                segments[s].commits[c].parent_ids,
            ),
    ensures
        nodes_hold(runs(segments, mutable, n), pass),
        forall|s: int, c: int|
            0 <= s < n && 0 <= c < segments[s].commits.len() ==> has_node(
                runs(segments, mutable, n),
                (#[trigger] segments[s].commits[c]).id,
            ),
    decreases n,
{
    if n > 0 {
        lemma_runs_hold(segments, mutable, n - 1, pass);
        let before = runs(segments, mutable, n - 1);
        let segment = segments[n - 1];
        let may = mutable.contains((n - 1) as usize);
        let named = named_run(segment.name, may);
        let commits = commits_run(segment.commits, may, segment.commits.len() as int);
        let run = segment_run(segment, may);
        let all = runs(segments, mutable, n);
        assert forall|c: int| 0 <= c < segment.commits.len() implies pass(
            (#[trigger] segment.commits[c]).id,
            segment.commits[c].parent_ids,
        ) by {
            assert(pass(segments[n - 1].commits[c].id, segments[n - 1].commits[c].parent_ids));
        }
        lemma_commits_hold(segment.commits, may, segment.commits.len() as int, pass);
        assert forall|i: int| 0 <= i < all.len() && is_commit(#[trigger] all[i]) implies pass(
            commit_id(all[i]),
            all[i]->Commit_parent_ids,
        ) by {
            if i < before.len() {
                assert(all[i] == before[i]);
            } else {
                assert(all[i] == run[i - before.len()]);
                if i - before.len() >= named.len() {
                    assert(run[i - before.len()] == commits[i - before.len() - named.len()]);
                }
            }
        }
        assert forall|s: int, c: int|
            0 <= s < n && 0 <= c < segments[s].commits.len() implies has_node(
            all,
            (#[trigger] segments[s].commits[c]).id,
        ) by {
            let id = segments[s].commits[c].id;
            if s == n - 1 {
                assert(has_node(commits, segment.commits[c].id));
                lemma_has_node_add(named, commits, id);
                assert(run == named + commits);
                lemma_has_node_add(before, run, id);
            } else {
                lemma_has_node_add(before, run, id);
            }
        }
    }
}

/// The commit graph is one of the segments: it has their commits, with the same parents, and no
/// others.
pub open spec fn covers(segments: Seq<SegmentView>, commits: Seq<CommitView>) -> bool {
    &&& forall|s: int, c: int|
        0 <= s < segments.len() && 0 <= c < segments[s].commits.len() ==> last_index(
            commits,
            (#[trigger] segments[s].commits[c]).id,
        ) is Some && raw_parents(commits, segments[s].commits[c].id)
            == segments[s].commits[c].parent_ids
    &&& forall|id: ObjectId| #[trigger]
        last_index(commits, id) is Some ==> exists|s: int, c: int|
            0 <= s < segments.len() && 0 <= c < segments[s].commits.len() && (
            #[trigger] segments[s].commits[c]).id == id
}

/// What is connected with a commit that has a parent which is not there are its parents that are
/// there. The workspace commit does not count.
pub open spec fn kept_truly(
    nodes: Seq<RunView>,
    lists: Seq<Seq<usize>>,
    workspace_commit_id: Option<ObjectId>,
    commits: Seq<CommitView>,
) -> bool {
    forall|n: int|
        0 <= n < nodes.len() && is_commit(#[trigger] nodes[n]) && workspace_commit_id != Some(
            commit_id(nodes[n]),
        ) && partial(nodes, nodes[n]->Commit_parent_ids) ==> settled_ids(
            nodes,
            lists,
            lists[n],
            lists[n].len() as int,
        ) == nodes[n]->Commit_parent_ids.filter(in_graph(commits))
}

/// The node of the commit.
pub open spec fn node_for(commits: Seq<CommitView>) -> spec_fn(ObjectId) -> EditorGraphIndex {
    |id: ObjectId| EditorGraphIndex::Node(last_index(commits, id)->0)
}

proof fn lemma_node_list_of(commits: Seq<CommitView>, ids: Seq<ObjectId>, n: int)
    requires
        0 <= n <= ids.len(),
    ensures
        node_list(commits, ids, n) == ids.take(n).filter(in_graph(commits)).map_values(
            node_for(commits),
        ),
    decreases n,
{
    if n > 0 {
        lemma_node_list_of(commits, ids, n - 1);
        lemma_filter_take(ids, in_graph(commits), n - 1);
        let before = ids.take(n - 1).filter(in_graph(commits));
        if in_graph(commits)(ids[n - 1]) {
            assert(before.push(ids[n - 1]).map_values(node_for(commits)) =~= before.map_values(
                node_for(commits),
            ).push(node_for(commits)(ids[n - 1])));
        }
    } else {
        lemma_filter_none(ids, in_graph(commits));
        assert(Seq::<ObjectId>::empty().map_values(node_for(commits)) =~= Seq::empty());
        assert(node_list(commits, ids, n) =~= Seq::empty());
    }
}

/// Nothing is left out where everything is kept.
proof fn lemma_filter_everything(ids: Seq<ObjectId>, keep: spec_fn(ObjectId) -> bool, n: int)
    requires
        0 <= n <= ids.len(),
        forall|k: int| 0 <= k < ids.len() ==> keep(#[trigger] ids[k]),
    ensures
        ids.take(n).filter(keep) == ids.take(n),
    decreases n,
{
    if n > 0 {
        lemma_filter_everything(ids, keep, n - 1);
        lemma_filter_take(ids, keep, n - 1);
        assert(keep(ids[n - 1]));
        assert(ids.take(n - 1).push(ids[n - 1]) =~= ids.take(n));
    } else {
        lemma_filter_none(ids, keep);
        assert(ids.take(0) =~= Seq::empty());
    }
}

/// A commit is among the nodes exactly if it is in the graph.
proof fn lemma_known_alike(
    segments: Seq<SegmentView>,
    mutable: Set<usize>,
    commits: Seq<CommitView>,
    id: ObjectId,
)
    requires
        all_nodes(segments, mutable).len() <= usize::MAX,
        covers(segments, commits),
    ensures
        commit_node(all_nodes(segments, mutable), id) is Some <==> last_index(commits, id) is Some,
{
    let nodes = all_nodes(segments, mutable);
    let n = nodes.len() as int;
    let known = |x: ObjectId, p: Seq<ObjectId>| last_index(commits, x) is Some;
    assert forall|s: int, c: int|
        0 <= s < segments.len() && 0 <= c < segments[s].commits.len() implies known(
        (#[trigger] segments[s].commits[c]).id,
        segments[s].commits[c].parent_ids,
    ) by {}
    lemma_runs_hold(segments, mutable, segments.len() as int, known);
    lemma_commit_in_below(nodes, id, n);
    if let Some(i) = commit_node(nodes, id) {
        assert(known(commit_id(nodes[i as int]), nodes[i as int]->Commit_parent_ids));
    }
    if last_index(commits, id) is Some {
        let (s, c) = choose|s: int, c: int|
            0 <= s < segments.len() && 0 <= c < segments[s].commits.len() && (
            #[trigger] segments[s].commits[c]).id == id;
        assert(has_node(nodes, segments[s].commits[c].id));
        let i = choose|i: int|
            0 <= i < nodes.len() && is_commit(#[trigger] nodes[i]) && commit_id(nodes[i]) == id;
        lemma_commit_found(nodes, i, n);
    }
}

/// The parents that the nodes of a graph get are the commits that the lists lead to.
proof fn lemma_built_from(
    segments: Seq<SegmentView>,
    mutable: Set<usize>,
    workspace_commit_id: Option<ObjectId>,
    rank: Seq<nat>,
    commits: Seq<CommitView>,
    defaults: PickDefaults,
    sign: Seq<char>,
    l: PlacementsView,
)
    requires
        connected_within(segments),
        connections_fit(segments),
        distinct_commits(segments),
        all_nodes(segments, mutable).len() <= usize::MAX,
        covers(segments, commits),
        distinct_ids(commits),
        commits.len() <= usize::MAX,
        short(
            all_nodes(segments, mutable),
            final_lists(segments, mutable, workspace_commit_id),
            rank,
        ),
        straight(
            all_nodes(segments, mutable),
            final_lists(segments, mutable, workspace_commit_id),
        ),
        kept_truly(
            all_nodes(segments, mutable),
            final_lists(segments, mutable, workspace_commit_id),
            workspace_commit_id,
            commits,
        ),
        l.ws_parents == workspace_parents(
            all_nodes(segments, mutable),
            final_lists(segments, mutable, workspace_commit_id),
            workspace_commit_id,
        ),
        l.ws_parents matches Some(ids) ==> forall|i: int|
            0 <= i < ids.len() ==> in_graph(commits)(#[trigger] ids[i]),
    ensures
        single(all_nodes(segments, mutable)),
        lists_below(
            final_lists(segments, mutable, workspace_commit_id),
            all_nodes(segments, mutable).len() as int,
        ),
        final_lists(segments, mutable, workspace_commit_id).len() == all_nodes(
            segments,
            mutable,
        ).len(),
        built_from(
            commits,
            commit_nodes(commits, defaults, sign, workspace_commit_id, l),
            all_nodes(segments, mutable),
            final_lists(segments, mutable, workspace_commit_id),
        ),
{
    let nodes = all_nodes(segments, mutable);
    let len = nodes.len() as int;
    let lists = final_lists(segments, mutable, workspace_commit_id);
    let built = commit_nodes(commits, defaults, sign, workspace_commit_id, l);
    let keep = in_graph(commits);
    assert forall|id: ObjectId| #[trigger] copies(nodes, id, len) <= 1 by {
        lemma_copies_of_segments(segments, mutable, id, segments.len() as int);
    }
    lemma_links_below(segments, mutable, segments.len() as int);
    lemma_rewired_at(
        nodes,
        links(segments, mutable, segments.len() as int),
        workspace_commit_id,
        len,
    );
    let same = |x: ObjectId, p: Seq<ObjectId>|
        last_index(commits, x) is Some && raw_parents(commits, x) == p;
    assert forall|s: int, c: int|
        0 <= s < segments.len() && 0 <= c < segments[s].commits.len() implies same(
        (#[trigger] segments[s].commits[c]).id,
        segments[s].commits[c].parent_ids,
    ) by {}
    lemma_runs_hold(segments, mutable, segments.len() as int, same);
    assert forall|n: int| 0 <= n < nodes.len() && is_commit(#[trigger] nodes[n]) implies {
        let ids = settled_ids(nodes, lists, lists[n], lists[n].len() as int);
        &&& last_index(commits, commit_id(nodes[n])) matches Some(i)
        &&& built[i as int].parents.len() == ids.len()
        &&& forall|k: int|
            0 <= k < ids.len() ==> #[trigger] built[i as int].parents[k] == EditorGraphIndex::Node(
                last_index(commits, ids[k])->0,
            )
    } by {
        let id = commit_id(nodes[n]);
        let parents = nodes[n]->Commit_parent_ids;
        let list = lists[n];
        let ids = settled_ids(nodes, lists, list, list.len() as int);
        assert(same(id, parents));
        lemma_last_index(commits, id);
        let i = last_index(commits, id)->0 as int;
        lemma_built_node(commits, defaults, sign, workspace_commit_id, l, i);
        assert forall|j: int| 0 <= j < list.len() implies #[trigger] list[j] < nodes.len() by {
            assert(lists[n][j] < nodes.len());
        }
        let wanted = if workspace_commit_id == Some(id) {
            ids
        } else {
            parents
        };
        if workspace_commit_id == Some(id) {
            assert(copies(nodes, id, len) <= 1);
            lemma_one_copy(nodes, n, len);
            assert(l.ws_parents == Some(ids));
            lemma_filter_everything(ids, keep, ids.len() as int);
            assert(ids.take(ids.len() as int) =~= ids);
        } else if !partial(nodes, parents) {
            lemma_flat_settled(nodes, lists, rank, list, list.len() as int);
            assert(list.take(list.len() as int) =~= list);
            assert(ids == parents);
            assert forall|k: int| 0 <= k < parents.len() implies keep(#[trigger] parents[k]) by {
                lemma_known_alike(segments, mutable, commits, parents[k]);
            }
            lemma_filter_everything(parents, keep, parents.len() as int);
            assert(parents.take(parents.len() as int) =~= parents);
        }
        assert(wanted.filter(keep) == ids);
        lemma_node_list_of(commits, wanted, wanted.len() as int);
        assert(wanted.take(wanted.len() as int) =~= wanted);
        assert(built[i].parents == ids.map_values(node_for(commits)));
    }
}

/// A commit leads, directly or through names, to its parents and to nothing else, in their order. The
/// workspace commit, and a commit with a parent that is not there, lead to what the segments have
/// them lead to.
pub proof fn law_commits_lead_to_their_parents(
    segments: Seq<SegmentView>,
    mutable: Set<usize>,
    workspace_commit_id: Option<ObjectId>,
    n: int,
)
    requires
        connected_within(segments),
        connections_fit(segments),
        distinct_commits(segments),
        all_nodes(segments, mutable).len() <= usize::MAX,
        0 <= n < all_nodes(segments, mutable).len(),
        is_commit(all_nodes(segments, mutable)[n]),
    ensures
        ({
            let nodes = all_nodes(segments, mutable);
            let lists = final_lists(segments, mutable, workspace_commit_id);
            let parents = nodes[n]->Commit_parent_ids;
            if workspace_commit_id == Some(commit_id(nodes[n])) || partial(nodes, parents) {
                lists[n] == links(segments, mutable, segments.len() as int)[n]
            } else {
                flat(nodes, lists, lists[n], nodes.len()) == parents
            }
        }),
{
    let nodes = all_nodes(segments, mutable);
    let len = nodes.len() as int;
    assert forall|id: ObjectId| #[trigger] copies(nodes, id, len) <= 1 by {
        lemma_copies_of_segments(segments, mutable, id, segments.len() as int);
    }
    lemma_links_below(segments, mutable, segments.len() as int);
    lemma_rewired_at(
        nodes,
        links(segments, mutable, segments.len() as int),
        workspace_commit_id,
        len,
    );
    assert(is_commit(nodes[n]));
}

/// There are no more references than nodes.
proof fn lemma_refs_fit(nodes: Seq<RunView>, lists: Seq<Seq<usize>>, n: int)
    requires
        0 <= n <= nodes.len(),
    ensures
        placed_refs(nodes, lists, n).len() <= n,
    decreases n,
{
    if n > 0 {
        lemma_refs_fit(nodes, lists, n - 1);
    }
}

/// What the ledger that was read off the segments has, apart from where its references sit.
proof fn lemma_derived_ledger(
    segments: Seq<SegmentView>,
    mutable: Set<usize>,
    entry: int,
    workspace_commit_id: Option<ObjectId>,
    commits: Seq<CommitView>,
)
    requires
        connected_within(segments),
        connections_fit(segments),
        all_nodes(segments, mutable).len() <= usize::MAX,
        covers(segments, commits),
        distinct_ids(commits),
        commits.len() <= usize::MAX,
    ensures
        ({
            let l = derived(segments, mutable, entry, workspace_commit_id);
            &&& self_contained(l, in_graph(commits))
            &&& l.refs.len() <= usize::MAX
            &&& forall|id: ObjectId| #[trigger]
                l.mutable_commits.contains(id) ==> last_index(commits, id) is Some
            &&& l.ws_parents is Some <==> workspace_commit_id is Some && last_index(
                commits,
                workspace_commit_id->0,
            ) is Some
        }),
{
    let l = derived(segments, mutable, entry, workspace_commit_id);
    let nodes = all_nodes(segments, mutable);
    let lists = final_lists(segments, mutable, workspace_commit_id);
    assert(ids_pass(segments, in_graph(commits)));
    law_derived_is_self_contained(
        segments,
        mutable,
        entry,
        workspace_commit_id,
        in_graph(commits),
    );
    lemma_refs_fit(nodes, lists, nodes.len() as int);
    assert forall|id: ObjectId| #[trigger] l.mutable_commits.contains(id) implies last_index(
        commits,
        id,
    ) is Some by {
        let s = choose|s: int|
            0 <= s < segments.len() && mutable.contains(s as usize) && has_commit(
                (#[trigger] segments[s]).commits,
                id,
            );
        let c = choose|c: int|
            0 <= c < segments[s].commits.len() && #[trigger] segments[s].commits[c].id == id;
        assert(last_index(commits, segments[s].commits[c].id) is Some);
    }
    if let Some(ws) = workspace_commit_id {
        lemma_known_alike(segments, mutable, commits, ws);
    }
}

/// A graph is always built from what was read off its segments, and what is read off the graph is
/// that again exactly if the legs by which references are approached lead to their commits in the
/// graph. They need not: a name that is connected with two commits counts as one parent of the
/// commit above it where legs are counted, and as two where the parents of the commit are.
pub proof fn law_derived_is_read_back(
    segments: Seq<SegmentView>,
    mutable: Set<usize>,
    entry: int,
    workspace_commit_id: Option<ObjectId>,
    commits: Seq<CommitView>,
    defaults: PickDefaults,
    sign: Seq<char>,
)
    requires
        connected_within(segments),
        connections_fit(segments),
        all_nodes(segments, mutable).len() <= usize::MAX,
        covers(segments, commits),
        distinct_ids(commits),
        commits.len() <= usize::MAX,
        distinct_names(derived(segments, mutable, entry, workspace_commit_id).refs),
        parents_fit(
            commit_nodes(
                commits,
                defaults,
                sign,
                workspace_commit_id,
                derived(segments, mutable, entry, workspace_commit_id),
            ),
        ),
    ensures
        ({
            let l = derived(segments, mutable, entry, workspace_commit_id);
            let built = commit_nodes(commits, defaults, sign, workspace_commit_id, l);
            let graph = created(commits, defaults, sign, workspace_commit_id, l);
            let checkouts = head_checkouts(l.refs, l.head_refs, l.head_refs.len() as int);
            &&& graph is Ok && checkouts is Ok
            &&& ledger(graph->Ok_0, checkouts->Ok_0, workspace_commit_id) == Ok::<
                PlacementsView,
                PlacementError,
            >(l) <==> forall|i: int|
                0 <= i < l.refs.len() ==> placed_truly(commits, built, #[trigger] l.refs[i])
        }),
{
    let l = derived(segments, mutable, entry, workspace_commit_id);
    let built = commit_nodes(commits, defaults, sign, workspace_commit_id, l);
    let graph = created(commits, defaults, sign, workspace_commit_id, l);
    let checkouts = head_checkouts(l.refs, l.head_refs, l.head_refs.len() as int);
    lemma_derived_ledger(segments, mutable, entry, workspace_commit_id, commits);
    law_self_contained_is_built(commits, defaults, sign, workspace_commit_id, l);
    if forall|i: int|
        0 <= i < l.refs.len() ==> placed_truly(commits, built, #[trigger] l.refs[i]) {
        assert(ledger_of(commits, built, workspace_commit_id, l));
        law_ledger_is_read_back(commits, defaults, sign, workspace_commit_id, l);
    }
    if ledger(graph->Ok_0, checkouts->Ok_0, workspace_commit_id) == Ok::<
        PlacementsView,
        PlacementError,
    >(l) {
        assert forall|i: int| 0 <= i < l.refs.len() implies placed_truly(
            commits,
            built,
            #[trigger] l.refs[i],
        ) by {
            law_read_back_is_truly_placed(
                commits,
                defaults,
                sign,
                workspace_commit_id,
                l,
                i,
            );
        }
    }
}

/// What is read off a graph is what was read off the segments that it was built from where names
/// lead to one thing each, not around in a circle, and not further than walks go; where each commit
/// is there once; and where a commit with a parent that is not there is connected with those of its
/// parents that are.
pub proof fn law_straight_names_are_read_back(
    segments: Seq<SegmentView>,
    mutable: Set<usize>,
    entry: int,
    workspace_commit_id: Option<ObjectId>,
    rank: Seq<nat>,
    commits: Seq<CommitView>,
    defaults: PickDefaults,
    sign: Seq<char>,
)
    requires
        connected_within(segments),
        connections_fit(segments),
        distinct_commits(segments),
        all_nodes(segments, mutable).len() <= usize::MAX,
        lists_fit(final_lists(segments, mutable, workspace_commit_id)),
        covers(segments, commits),
        distinct_ids(commits),
        commits.len() <= usize::MAX,
        distinct_names(derived(segments, mutable, entry, workspace_commit_id).refs),
        short(
            all_nodes(segments, mutable),
            final_lists(segments, mutable, workspace_commit_id),
            rank,
        ),
        straight(
            all_nodes(segments, mutable),
            final_lists(segments, mutable, workspace_commit_id),
        ),
        kept_truly(
            all_nodes(segments, mutable),
            final_lists(segments, mutable, workspace_commit_id),
            workspace_commit_id,
            commits,
        ),
        parents_fit(
            commit_nodes(
                commits,
                defaults,
                sign,
                workspace_commit_id,
                derived(segments, mutable, entry, workspace_commit_id),
            ),
        ),
    ensures
        ({
            let l = derived(segments, mutable, entry, workspace_commit_id);
            let graph = created(commits, defaults, sign, workspace_commit_id, l);
            let checkouts = head_checkouts(l.refs, l.head_refs, l.head_refs.len() as int);
            &&& graph is Ok && checkouts is Ok
            &&& ledger(graph->Ok_0, checkouts->Ok_0, workspace_commit_id) == Ok::<
                PlacementsView,
                PlacementError,
            >(l)
        }),
{
    let l = derived(segments, mutable, entry, workspace_commit_id);
    let nodes = all_nodes(segments, mutable);
    let lists = final_lists(segments, mutable, workspace_commit_id);
    let built = commit_nodes(commits, defaults, sign, workspace_commit_id, l);
    lemma_derived_ledger(segments, mutable, entry, workspace_commit_id, commits);
    lemma_built_from(
        segments,
        mutable,
        workspace_commit_id,
        rank,
        commits,
        defaults,
        sign,
        l,
    );
    lemma_all_placed_truly(commits, built, nodes, lists, rank, nodes.len() as int);
    law_derived_is_read_back(
        segments,
        mutable,
        entry,
        workspace_commit_id,
        commits,
        defaults,
        sign,
    );
}

} // verus!
