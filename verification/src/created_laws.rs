//! What a graph that was built from commits and a ledger holds.

use crate::commit::CommitView;
use crate::commit_graph::{last_index, lemma_last_index};
use crate::creation::{
    commit_nodes, created, head_checkouts, lone_nodes, lone_refs, mutable_names, name_in, node_legs,
    node_list, raw_parents, ref_named, settings_for, some_absent, wanted_parents, wired_node,
    wired_nodes, with_positions, CreationErrorView, PickDefaults,
};
use crate::creation_laws::{
    distinct_names, lemma_built_node, lemma_placed_upto, parents_fit, placed_like,
};
use crate::editor_graph::{EditorGraphIndex, EditorLeg, EditorView, NodeView};
use crate::generation_laws::distinct_ids;
use crate::names::ObjectId;
use crate::placements::{Checkout, CommitLeg, PlacedView, PlacementsView};
use crate::seqs::lemma_filter_contains;
use crate::step::SettingsView;
use vstd::prelude::*;

verus! {

/// Whether one of the commits has the id.
pub open spec fn holds_id(commits: Seq<CommitView>, id: ObjectId) -> bool {
    exists|j: int| 0 <= j < commits.len() && (#[trigger] commits[j]).id == id
}

/// A commit is found exactly if it is there, and at an index where it is.
proof fn lemma_found(commits: Seq<CommitView>, id: ObjectId)
    requires
        commits.len() <= usize::MAX,
    ensures
        last_index(commits, id) is Some <==> holds_id(commits, id),
        last_index(commits, id) matches Some(i) ==> i < commits.len() && commits[i as int].id == id,
{
    lemma_last_index(commits, id);
    if holds_id(commits, id) {
        let j = choose|j: int| 0 <= j < commits.len() && (#[trigger] commits[j]).id == id;
        assert(commits[j].id == id);
    }
    if let Some(i) = last_index(commits, id) {
        assert(commits[i as int].id == id);
    }
}

/// What is at an index is found there, if no id is there twice.
proof fn lemma_own(commits: Seq<CommitView>, i: int)
    requires
        distinct_ids(commits),
        0 <= i < commits.len() <= usize::MAX,
    ensures
        last_index(commits, commits[i].id) == Some(i as usize),
{
    lemma_last_index(commits, commits[i].id);
    let j = last_index(commits, commits[i].id)->0 as int;
    assert(commits[j].id == commits[i].id);
}

proof fn lemma_wired(
    commits: Seq<CommitView>,
    ws: Option<ObjectId>,
    ws_parents: Option<Seq<ObjectId>>,
    nodes: Seq<NodeView>,
    n: int,
    i: int,
)
    requires
        distinct_ids(commits),
        0 <= n <= commits.len() <= usize::MAX,
        nodes.len() == commits.len(),
        0 <= i < commits.len(),
    ensures
        wired_nodes(commits, ws, ws_parents, nodes, n).len() == commits.len(),
        wired_nodes(commits, ws, ws_parents, nodes, n)[i] == if i < n {
            wired_node(commits, ws, ws_parents, commits[i].id, nodes[i])
        } else {
            nodes[i]
        },
    decreases n,
{
    if n > 0 {
        lemma_wired(commits, ws, ws_parents, nodes, n - 1, i);
        lemma_wired(commits, ws, ws_parents, nodes, n - 1, n - 1);
        lemma_own(commits, n - 1);
    }
}

/// Positions of references change no commit.
proof fn lemma_nodes_stay(
    commits: Seq<CommitView>,
    refs: Seq<PlacedView>,
    graph: EditorView,
    n: int,
)
    requires
        with_positions(commits, refs, graph, n) is Ok,
    ensures
        with_positions(commits, refs, graph, n)->Ok_0.nodes == graph.nodes,
    decreases n,
{
    if n > 0 {
        lemma_nodes_stay(commits, refs, graph, n - 1);
    }
}

/// The parents that a list of ids gives are the commits of those that are there, in order.
proof fn lemma_node_list(commits: Seq<CommitView>, ids: Seq<ObjectId>, n: int)
    requires
        commits.len() <= usize::MAX,
        0 <= n <= ids.len(),
    ensures
        forall|k: int|
            0 <= k < node_list(commits, ids, n).len() ==> (#[trigger] node_list(
                commits,
                ids,
                n,
            )[k] matches EditorGraphIndex::Node(j) && j < commits.len()),
        node_list(commits, ids, n).map_values(
            |p: EditorGraphIndex| commits[p->Node_0 as int].id,
        ) == ids.take(n).filter(|id: ObjectId| holds_id(commits, id)),
    decreases n,
{
    let there = |id: ObjectId| holds_id(commits, id);
    let shown = |p: EditorGraphIndex| commits[p->Node_0 as int].id;
    reveal(Seq::filter);
    if n > 0 {
        lemma_node_list(commits, ids, n - 1);
        lemma_found(commits, ids[n - 1]);
        let (before, all) = (node_list(commits, ids, n - 1), node_list(commits, ids, n));
        assert(ids.take(n).drop_last() =~= ids.take(n - 1));
        assert(ids.take(n).last() == ids[n - 1]);
        if last_index(commits, ids[n - 1]) is Some {
            assert(all.map_values(shown) =~= before.map_values(shown).push(ids[n - 1]));
        }
    } else {
        assert(ids.take(0) =~= Seq::empty());
        assert(node_list(commits, ids, n).map_values(shown) =~= Seq::empty());
    }
}

/// Each commit is built at its own index: as the workspace commit or as any other is picked, and to
/// be changed if the ledger says so. It keeps the parents that it has itself exactly if one of them,
/// however many there are, is not in the commit graph. Its parents in the graph are, in order, those
/// of its own parents that are there, or for the workspace commit those that the ledger has.
#[verifier::spinoff_prover]
#[verifier::rlimit(40)]
pub proof fn law_created_commit(
    commits: Seq<CommitView>,
    defaults: PickDefaults,
    sign: Seq<char>,
    ws: Option<ObjectId>,
    l: PlacementsView,
    i: int,
)
    requires
        distinct_ids(commits),
        0 <= i < commits.len() <= usize::MAX,
        created(commits, defaults, sign, ws, l) is Ok,
    ensures
        ({
            let nodes = created(commits, defaults, sign, ws, l)->Ok_0.nodes;
            let (commit, node) = (commits[i], nodes[i]);
            &&& nodes.len() == commits.len()
            &&& node.pick matches Some(pick) && {
                &&& pick.id == commit.id
                &&& pick.mutable == l.mutable_commits.contains(commit.id)
                &&& pick.preserved_parents == if exists|k: int|
                    0 <= k < commit.parent_ids.len() && !holds_id(
                        commits,
                        #[trigger] commit.parent_ids[k],
                    ) {
                    Some(commit.parent_ids)
                } else {
                    None
                }
                &&& pick.settings == if ws == Some(commit.id) {
                    defaults.workspace_pick@
                } else {
                    SettingsView { sign_commit: sign, ..defaults.pick@ }
                }
            }
            &&& forall|k: int|
                0 <= k < node.parents.len() ==> (#[trigger] node.parents[k] matches
                    EditorGraphIndex::Node(j) && j < commits.len())
            &&& node.parents.map_values(|p: EditorGraphIndex| commits[p->Node_0 as int].id) == (
            if ws != Some(commit.id) {
                commit.parent_ids
            } else {
                match l.ws_parents {
                    Some(ids) => ids,
                    None => Seq::empty(),
                }
            }).filter(|id: ObjectId| holds_id(commits, id))
        }),
{
    let nodes = commit_nodes(commits, defaults, sign, ws, l);
    let start = EditorView { nodes, refs: lone_refs(l.refs), lanes: Map::empty() };
    lemma_nodes_stay(commits, l.refs, start, l.refs.len() as int);
    let lone = lone_nodes(commits, defaults, sign, ws, l.mutable_commits, commits.len() as int);
    lemma_wired(commits, ws, l.ws_parents, lone, commits.len() as int, i);
    lemma_own(commits, i);
    let commit = commits[i];
    assert(raw_parents(commits, commit.id) == commit.parent_ids);
    let wanted = wanted_parents(commits, ws, l.ws_parents, commit.id);
    assert(nodes[i].parents =~= wanted);
    let ids = if ws != Some(commit.id) {
        commit.parent_ids
    } else {
        match l.ws_parents {
            Some(ids) => ids,
            None => Seq::empty(),
        }
    };
    lemma_node_list(commits, ids, ids.len() as int);
    assert(ids.take(ids.len() as int) =~= ids);
    assert(some_absent(commits, commit.parent_ids) <==> exists|k: int|
        0 <= k < commit.parent_ids.len() && !holds_id(commits, #[trigger] commit.parent_ids[k])) by {
        if some_absent(commits, commit.parent_ids) {
            let k = choose|k: int|
                0 <= k < commit.parent_ids.len() && last_index(
                    commits,
                    #[trigger] commit.parent_ids[k],
                ) is None;
            lemma_found(commits, commit.parent_ids[k]);
        }
        if exists|k: int|
            0 <= k < commit.parent_ids.len() && !holds_id(commits, #[trigger] commit.parent_ids[k]) {
            let k = choose|k: int|
                0 <= k < commit.parent_ids.len() && !holds_id(
                    commits,
                    #[trigger] commit.parent_ids[k],
                );
            lemma_found(commits, commit.parent_ids[k]);
        }
    }
    let now = created(commits, defaults, sign, ws, l)->Ok_0.nodes;
    assert(now == nodes);
    let (own, pick) = (lone[i].pick->0, now[i].pick->0);
    assert(now[i].pick is Some);
    assert(own.id == commit.id && own.mutable == l.mutable_commits.contains(commit.id));
    assert(own.settings == settings_for(defaults, sign, ws, commit.id));
    assert(pick.id == own.id && pick.mutable == own.mutable && pick.settings == own.settings);
    assert(pick.preserved_parents == if some_absent(commits, commit.parent_ids) {
        Some(commit.parent_ids)
    } else {
        None
    });
    assert(now[i].parents == node_list(commits, ids, ids.len() as int));
    let shown = |p: EditorGraphIndex| commits[p->Node_0 as int].id;
    assert(now[i].parents.map_values(shown) == ids.filter(|id: ObjectId| holds_id(commits, id)));
}

/// A commit all of whose parents are there leads to just these, in order, and keeps none beside.
pub proof fn law_created_commit_with_its_parents(
    commits: Seq<CommitView>,
    defaults: PickDefaults,
    sign: Seq<char>,
    ws: Option<ObjectId>,
    l: PlacementsView,
    i: int,
    k: int,
)
    requires
        distinct_ids(commits),
        0 <= i < commits.len() <= usize::MAX,
        created(commits, defaults, sign, ws, l) is Ok,
        ws != Some(commits[i].id),
        forall|m: int|
            0 <= m < commits[i].parent_ids.len() ==> holds_id(
                commits,
                #[trigger] commits[i].parent_ids[m],
            ),
        0 <= k < commits[i].parent_ids.len(),
    ensures
        ({
            let parents = created(commits, defaults, sign, ws, l)->Ok_0.nodes[i].parents;
            &&& parents.len() == commits[i].parent_ids.len()
            &&& parents[k] matches EditorGraphIndex::Node(j) && j < commits.len()
                && commits[j as int].id == commits[i].parent_ids[k]
        }),
{
    law_created_commit(commits, defaults, sign, ws, l, i);
    let ids = commits[i].parent_ids;
    lemma_filter_whole(ids, |id: ObjectId| holds_id(commits, id));
    let parents = created(commits, defaults, sign, ws, l)->Ok_0.nodes[i].parents;
    let shown = parents.map_values(|p: EditorGraphIndex| commits[p->Node_0 as int].id);
    assert(shown == ids);
    assert(shown[k] == ids[k]);
}

proof fn lemma_filter_whole(ids: Seq<ObjectId>, keep: spec_fn(ObjectId) -> bool)
    requires
        forall|m: int| 0 <= m < ids.len() ==> keep(#[trigger] ids[m]),
    ensures
        ids.filter(keep) == ids,
    decreases ids.len(),
{
    reveal(Seq::filter);
    if ids.len() > 0 {
        let d = ids.drop_last();
        assert forall|m: int| 0 <= m < d.len() implies keep(#[trigger] d[m]) by {
            assert(d[m] == ids[m]);
        }
        lemma_filter_whole(d, keep);
        assert(keep(ids[ids.len() - 1]));
        assert(ids =~= d.push(ids.last()));
    } else {
        assert(ids.filter(keep) =~= ids);
    }
}

proof fn lemma_named(refs: Seq<PlacedView>, name: Seq<u8>, n: int)
    requires
        n <= refs.len() <= usize::MAX,
    ensures
        name_in(refs, name, n) matches Some(i) ==> i < n && refs[i as int].name == name,
        name_in(refs, name, n) is None ==> forall|i: int|
            0 <= i < n ==> (#[trigger] refs[i]).name != name,
    decreases n,
{
    if n > 0 {
        lemma_named(refs, name, n - 1);
    }
}

/// What was placed could be placed: its commit, what is underneath and where its legs come from are
/// known.
proof fn lemma_placed_known(
    commits: Seq<CommitView>,
    refs: Seq<PlacedView>,
    start: EditorView,
    n: int,
    i: int,
)
    requires
        with_positions(commits, refs, start, n) is Ok,
        0 <= i < n <= refs.len(),
        refs[i].anchor is Some,
    ensures
        last_index(commits, refs[i].anchor->0) is Some,
        refs[i].below matches Some(name) ==> ref_named(refs, name) is Some,
        node_legs(commits, refs[i].approach, refs[i].approach.len() as int) is Ok,
    decreases n,
{
    if i < n - 1 {
        lemma_placed_known(commits, refs, start, n - 1, i);
    }
}

proof fn lemma_legs(commits: Seq<CommitView>, legs: Seq<CommitLeg>, n: int)
    requires
        0 <= n <= legs.len(),
        node_legs(commits, legs, n) is Ok,
    ensures
        node_legs(commits, legs, n)->Ok_0.len() == n,
        forall|k: int|
            0 <= k < n ==> last_index(commits, (#[trigger] legs[k]).0) is Some && node_legs(
                commits,
                legs,
                n,
            )->Ok_0[k] == (
                EditorGraphIndex::Node(last_index(commits, legs[k].0)->0),
                legs[k].1,
            ),
    decreases n,
{
    if n > 0 {
        lemma_legs(commits, legs, n - 1);
    }
}

/// Each reference of the ledger is built at its own index, with its name, to be moved if the ledger
/// says so. It sits on the commit that the ledger has, above the reference that the ledger has, and
/// is ambiguous if the ledger says so; without a commit it sits nowhere. Of the legs that the ledger
/// has, those that lead to its commit approach it, and no others do.
#[verifier::rlimit(40)]
pub proof fn law_created_reference(
    commits: Seq<CommitView>,
    defaults: PickDefaults,
    sign: Seq<char>,
    ws: Option<ObjectId>,
    l: PlacementsView,
    i: int,
)
    requires
        distinct_ids(commits),
        commits.len() <= usize::MAX,
        distinct_names(l.refs),
        0 <= i < l.refs.len() <= usize::MAX,
        created(commits, defaults, sign, ws, l) is Ok,
        parents_fit(commit_nodes(commits, defaults, sign, ws, l)),
    ensures
        ({
            let graph = created(commits, defaults, sign, ws, l)->Ok_0;
            let (placed, own) = (l.refs[i], graph.refs[i]);
            &&& graph.refs.len() == l.refs.len()
            &&& own.name == placed.name && own.mutable == placed.mutable && own.live
            &&& placed.anchor is None ==> own.position is None
            &&& placed.anchor matches Some(id) ==> own.position matches Some(p) && {
                &&& p.on matches EditorGraphIndex::Node(a) && a < commits.len()
                    && commits[a as int].id == id
                &&& p.ambiguous == placed.ambiguous
                &&& placed.below is None ==> p.below is None
                &&& placed.below matches Some(name) ==> (p.below matches Some(
                    EditorGraphIndex::Ref(b),
                ) && b < l.refs.len() && l.refs[b as int].name == name)
                &&& forall|c: usize, slot: usize|
                    c < commits.len() ==> (#[trigger] graph.approach(
                        EditorGraphIndex::Ref(i as usize),
                    ).contains((EditorGraphIndex::Node(c), slot)) <==> placed.approach.contains(
                        (commits[c as int].id, slot),
                    ) && slot < graph.nodes[c as int].parents.len()
                        && graph.nodes[c as int].parents[slot as int] == p.on)
            }
        }),
{
    let nodes = commit_nodes(commits, defaults, sign, ws, l);
    let start = EditorView { nodes, refs: lone_refs(l.refs), lanes: Map::empty() };
    let n = l.refs.len() as int;
    let graph = created(commits, defaults, sign, ws, l)->Ok_0;
    if commits.len() == 0 {
        assert(nodes =~= Seq::empty());
    } else {
        lemma_built_node(commits, defaults, sign, ws, l, 0);
    }
    assert forall|c: int| 0 <= c < commits.len() implies (#[trigger] nodes[c]).pick is Some by {
        lemma_built_node(commits, defaults, sign, ws, l, c);
    }
    lemma_placed_upto(commits, l, start, n);
    let placed = l.refs[i];
    assert(placed_like(commits, l, graph, l.refs[i], i));
    assert(graph.refs[i].name == placed.name);
    let ix = EditorGraphIndex::Ref(i as usize);
    assert(graph.position(ix) == graph.refs[i].position);
    if let Some(id) = placed.anchor {
        lemma_placed_known(commits, l.refs, start, n, i);
        lemma_found(commits, id);
        if let Some(name) = placed.below {
            lemma_named(l.refs, name, n);
        }
        let on = EditorGraphIndex::Node(last_index(commits, id)->0);
        let many = placed.approach.len() as int;
        let legs = node_legs(commits, placed.approach, many)->Ok_0;
        lemma_legs(commits, placed.approach, many);
        let wanted = |x: EditorLeg| legs.contains(x);
        assert forall|c: usize, slot: usize| c < commits.len() implies (#[trigger] graph.approach(
            ix,
        ).contains((EditorGraphIndex::Node(c), slot)) <==> placed.approach.contains(
            (commits[c as int].id, slot),
        ) && slot < graph.nodes[c as int].parents.len()
            && graph.nodes[c as int].parents[slot as int] == on) by {
            let leg = (EditorGraphIndex::Node(c), slot);
            lemma_filter_contains(graph.legs_into(on), wanted, leg);
            crate::approach_laws::lemma_leads(graph, on, leg);
            lemma_own(commits, c as int);
            assert(nodes[c as int].pick is Some);
            if legs.contains(leg) {
                let k = choose|k: int| 0 <= k < legs.len() && legs[k] == leg;
                lemma_found(commits, placed.approach[k].0);
                assert(placed.approach[k] == (commits[c as int].id, slot));
            }
            if placed.approach.contains((commits[c as int].id, slot)) {
                let k = choose|k: int|
                    0 <= k < placed.approach.len() && placed.approach[k] == (
                        commits[c as int].id,
                        slot,
                    );
                assert(legs[k] == leg);
            }
        }
    }
}

/// There is no graph only where the ledger names what is not there: a commit that a reference is on,
/// a reference underneath, or a commit that a leg comes from.
pub proof fn law_creation_fails_truly(
    commits: Seq<CommitView>,
    defaults: PickDefaults,
    sign: Seq<char>,
    ws: Option<ObjectId>,
    l: PlacementsView,
)
    requires
        commits.len() <= usize::MAX,
        l.refs.len() <= usize::MAX,
        created(commits, defaults, sign, ws, l) is Err,
    ensures
        exists|i: int|
            0 <= i < l.refs.len() && (#[trigger] l.refs[i]).anchor is Some && match created(
                commits,
                defaults,
                sign,
                ws,
                l,
            )->Err_0 {
                CreationErrorView::UnknownAnchor(id) => l.refs[i].anchor == Some(id) && !holds_id(
                    commits,
                    id,
                ),
                CreationErrorView::UnknownBelow(name) => l.refs[i].below == Some(name) && forall|
                    b: int,
                |
                    0 <= b < l.refs.len() ==> (#[trigger] l.refs[b]).name != name,
                CreationErrorView::UnknownSource(id) => !holds_id(commits, id) && exists|k: int|
                    0 <= k < l.refs[i].approach.len() && (#[trigger] l.refs[i].approach[k]).0 == id,
                _ => false,
            },
{
    let nodes = commit_nodes(commits, defaults, sign, ws, l);
    let start = EditorView { nodes, refs: lone_refs(l.refs), lanes: Map::empty() };
    let i = lemma_failed(commits, l.refs, start, l.refs.len() as int);
    assert(l.refs[i].anchor is Some);
}

proof fn lemma_failed(
    commits: Seq<CommitView>,
    refs: Seq<PlacedView>,
    start: EditorView,
    n: int,
) -> (i: int)
    requires
        commits.len() <= usize::MAX,
        0 <= n <= refs.len() <= usize::MAX,
        with_positions(commits, refs, start, n) is Err,
    ensures
        0 <= i < n,
        refs[i].anchor is Some,
        match with_positions(commits, refs, start, n)->Err_0 {
            CreationErrorView::UnknownAnchor(id) => refs[i].anchor == Some(id) && !holds_id(
                commits,
                id,
            ),
            CreationErrorView::UnknownBelow(name) => refs[i].below == Some(name) && forall|b: int|
                0 <= b < refs.len() ==> (#[trigger] refs[b]).name != name,
            CreationErrorView::UnknownSource(id) => !holds_id(commits, id) && exists|k: int|
                0 <= k < refs[i].approach.len() && (#[trigger] refs[i].approach[k]).0 == id,
            _ => false,
        },
    decreases n,
{
    if with_positions(commits, refs, start, n - 1) is Err {
        lemma_failed(commits, refs, start, n - 1)
    } else {
        let placed = refs[n - 1];
        lemma_found(commits, placed.anchor->0);
        if let Some(name) = placed.below {
            lemma_named(refs, name, refs.len() as int);
        }
        if node_legs(commits, placed.approach, placed.approach.len() as int) is Err {
            lemma_legs_fail(commits, placed.approach, placed.approach.len() as int);
        }
        n - 1
    }
}

proof fn lemma_legs_fail(commits: Seq<CommitView>, legs: Seq<CommitLeg>, n: int)
    requires
        commits.len() <= usize::MAX,
        0 <= n <= legs.len(),
        node_legs(commits, legs, n) is Err,
    ensures
        node_legs(commits, legs, n)->Err_0 matches CreationErrorView::UnknownSource(id)
            && !holds_id(commits, id) && exists|k: int|
            0 <= k < legs.len() && (#[trigger] legs[k]).0 == id,
    decreases n,
{
    if n > 0 {
        if node_legs(commits, legs, n - 1) is Err {
            lemma_legs_fail(commits, legs, n - 1);
        } else {
            lemma_found(commits, legs[n - 1].0);
            assert(legs[n - 1].0 == node_legs(commits, legs, n)->Err_0->UnknownSource_0);
        }
    }
}

/// What is checked out are the references with the names that the ledger has, in order, each
/// checkout with no merge base of its own; it fails only at a name that no reference has.
pub proof fn law_created_checkouts(refs: Seq<PlacedView>, names: Seq<Seq<u8>>, n: int)
    requires
        refs.len() <= usize::MAX,
        0 <= n <= names.len(),
    ensures
        match head_checkouts(refs, names, n) {
            Ok(checkouts) => {
                &&& checkouts.len() == n
                &&& forall|k: int|
                    0 <= k < n ==> (#[trigger] checkouts[k] matches Checkout::Head {
                        selector,
                        merge_base_override,
                    } && merge_base_override is None && (
                    selector.id matches EditorGraphIndex::Ref(r) && r < refs.len()
                        && refs[r as int].name == names[k]))
            },
            Err(CreationErrorView::UnknownHead(name)) => names.contains(name) && forall|r: int|
                0 <= r < refs.len() ==> (#[trigger] refs[r]).name != name,
            Err(_) => false,
        },
    decreases n,
{
    if n > 0 {
        law_created_checkouts(refs, names, n - 1);
        lemma_named(refs, names[n - 1], refs.len() as int);
        assert(names.contains(names[n - 1]));
    }
}

/// The references that may be moved are those of which the ledger says so.
pub proof fn law_initial_references(refs: Seq<PlacedView>, name: Seq<u8>)
    ensures
        mutable_names(refs).contains(name) <==> exists|i: int|
            0 <= i < refs.len() && (#[trigger] refs[i]).mutable && refs[i].name == name,
{
    let keep = crate::creation::may_move();
    let kept = refs.filter(keep);
    let names = mutable_names(refs);
    if names.contains(name) {
        let k = choose|k: int| 0 <= k < names.len() && names[k] == name;
        assert(kept.contains(kept[k]));
        lemma_filter_contains(refs, keep, kept[k]);
        let i = choose|i: int| 0 <= i < refs.len() && refs[i] == kept[k];
        assert(refs[i].mutable);
    }
    if exists|i: int| 0 <= i < refs.len() && (#[trigger] refs[i]).mutable && refs[i].name == name {
        let i = choose|i: int|
            0 <= i < refs.len() && (#[trigger] refs[i]).mutable && refs[i].name == name;
        lemma_filter_contains(refs, keep, refs[i]);
        assert(refs.contains(refs[i]));
        let k = choose|k: int| 0 <= k < kept.len() && kept[k] == refs[i];
        assert(names[k] == name);
    }
}

} // verus!
