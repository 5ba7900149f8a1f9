//! What is read off a graph that was built from a ledger.

use crate::arrangement_laws::{
    law_position_read_back, law_set_position, law_set_position_leaves_others, lemma_same_legs,
};
use crate::commit::CommitView;
use crate::commit_graph::{last_index, lemma_last_index};
use crate::creation::{
    commit_nodes, created, head_checkouts, lone_nodes, lone_refs, name_in, node_legs, node_list,
    ref_named, wanted_parents, wired_node, wired_nodes, with_placed, with_positions,
    CreationErrorView, PickDefaults,
};
use crate::derivation_laws::{in_graph, law_self_contained_is_built, self_contained};
use crate::editor_graph::{
    legs_among, legs_from, live_refs, EditorGraphIndex, EditorLeg, EditorView, NodeView,
    RefPosition,
};
use crate::generation_laws::distinct_ids;
use crate::lanes::{lanes_at, memberships};
use crate::names::ObjectId;
use crate::order::{
    increasing, lemma_increasing_unique, lemma_sorted_contains, lemma_sorted_increasing, sorted,
};
use crate::placements::{
    commit_legs, head_names, ledger, live_name, mutable_ids, node_of, parent_ids, placement_of,
    placements_of, ws_parent_ids, Checkout, CommitLeg, PlacedView, PlacementError, PlacementsView,
};
use crate::seqs::lemma_filter_contains;
use vstd::prelude::*;

verus! {

/// No two references have the same name.
pub open spec fn distinct_names(refs: Seq<PlacedView>) -> bool {
    forall|i: int, j: int|
        0 <= i < j < refs.len() ==> (#[trigger] refs[i]).name != (#[trigger] refs[j]).name
}

/// The leg is one into the node: the commit that it comes from has the node for that parent.
pub open spec fn is_leg_into(
    commits: Seq<CommitView>,
    nodes: Seq<NodeView>,
    leg: CommitLeg,
    node: usize,
) -> bool {
    &&& last_index(commits, leg.0) matches Some(i)
    &&& leg.1 < nodes[i as int].parents.len()
    &&& nodes[i as int].parents[leg.1 as int] == EditorGraphIndex::Node(node)
}

/// A reference that sits nowhere has nothing underneath, nothing converges on it and nothing
/// descends into it; what descends into one on a commit are legs into the commit, ascending.
pub open spec fn placed_truly(
    commits: Seq<CommitView>,
    nodes: Seq<NodeView>,
    placed: PlacedView,
) -> bool {
    match placed.anchor {
        None => placed.below is None && !placed.ambiguous && placed.approach.len() == 0,
        Some(id) => {
            &&& increasing::<CommitLeg>(placed.approach)
            &&& forall|k: int|
                0 <= k < placed.approach.len() ==> is_leg_into(
                    commits,
                    nodes,
                    #[trigger] placed.approach[k],
                    last_index(commits, id)->0,
                )
        },
    }
}

/// The ledger is one of these commits: it only names what is there, each reference once; the
/// references are truly placed; and it has parents of the workspace commit exactly if that is there.
pub open spec fn ledger_of(
    commits: Seq<CommitView>,
    nodes: Seq<NodeView>,
    workspace_commit_id: Option<ObjectId>,
    l: PlacementsView,
) -> bool {
    &&& self_contained(l, in_graph(commits))
    &&& distinct_names(l.refs)
    &&& forall|i: int|
        0 <= i < l.refs.len() ==> placed_truly(commits, nodes, #[trigger] l.refs[i])
    &&& forall|id: ObjectId| #[trigger]
        l.mutable_commits.contains(id) ==> last_index(commits, id) is Some
    &&& l.ws_parents is Some <==> workspace_commit_id is Some && last_index(
        commits,
        workspace_commit_id->0,
    ) is Some
}

/// What is counted can be counted.
pub open spec fn parents_fit(nodes: Seq<NodeView>) -> bool {
    forall|i: int| 0 <= i < nodes.len() ==> (#[trigger] nodes[i]).parents.len() <= usize::MAX
}

proof fn lemma_own_index(commits: Seq<CommitView>, i: int)
    requires
        distinct_ids(commits),
        0 <= i < commits.len() <= usize::MAX,
    ensures
        last_index(commits, commits[i].id) == Some(i as usize),
{
    lemma_last_index(commits, commits[i].id);
    let j = last_index(commits, commits[i].id)->0 as int;
    assert(commits[j].id == commits[i].id);
    if j < i {
        assert(commits[j].id != commits[i].id);
    }
    if i < j {
        assert(commits[i].id != commits[j].id);
    }
}

/// Each commit gets its parents once.
proof fn lemma_wired_at(
    commits: Seq<CommitView>,
    ws: Option<ObjectId>,
    ws_parents: Option<Seq<ObjectId>>,
    nodes: Seq<NodeView>,
    n: int,
    i: int,
)
    requires
        distinct_ids(commits),
        0 <= n <= commits.len() <= usize::MAX,
        nodes.len() == commits.len(),
        0 <= i < commits.len(),
    ensures
        wired_nodes(commits, ws, ws_parents, nodes, n).len() == commits.len(),
        wired_nodes(commits, ws, ws_parents, nodes, n)[i] == if i < n {
            wired_node(commits, ws, ws_parents, commits[i].id, nodes[i])
        } else {
            nodes[i]
        },
    decreases n,
{
    if n > 0 {
        lemma_wired_at(commits, ws, ws_parents, nodes, n - 1, i);
        lemma_wired_at(commits, ws, ws_parents, nodes, n - 1, n - 1);
        lemma_own_index(commits, n - 1);
    }
}

/// What the node of a commit is.
pub proof fn lemma_built_node(
    commits: Seq<CommitView>,
    defaults: PickDefaults,
    sign: Seq<char>,
    ws: Option<ObjectId>,
    l: PlacementsView,
    i: int,
)
    requires
        distinct_ids(commits),
        0 <= i < commits.len() <= usize::MAX,
    ensures
        ({
            let nodes = commit_nodes(commits, defaults, sign, ws, l);
            &&& nodes.len() == commits.len()
            &&& nodes[i].pick is Some
            &&& nodes[i].pick->0.id == commits[i].id
            &&& nodes[i].pick->0.mutable == l.mutable_commits.contains(commits[i].id)
            &&& nodes[i].parents == wanted_parents(commits, ws, l.ws_parents, commits[i].id)
        }),
{
    let lone = lone_nodes(commits, defaults, sign, ws, l.mutable_commits, commits.len() as int);
    lemma_wired_at(commits, ws, l.ws_parents, lone, commits.len() as int, i);
    assert(lone[i].parents + wanted_parents(commits, ws, l.ws_parents, commits[i].id)
        =~= wanted_parents(commits, ws, l.ws_parents, commits[i].id));
}

/// Names that occur once are found where they are.
pub proof fn lemma_name_at(refs: Seq<PlacedView>, i: int, n: int)
    requires
        distinct_names(refs),
        0 <= i < n <= refs.len(),
    ensures
        name_in(refs, refs[i].name, n) == Some(i as usize),
    decreases n,
{
    if i < n - 1 {
        assert(refs[i].name != refs[n - 1].name);
        lemma_name_at(refs, i, n - 1);
    }
}

/// The nodes that legs come from.
proof fn lemma_node_legs(commits: Seq<CommitView>, legs: Seq<CommitLeg>, n: int)
    requires
        0 <= n <= legs.len(),
        node_legs(commits, legs, n) is Ok,
    ensures
        node_legs(commits, legs, n)->Ok_0.len() == n,
        forall|k: int|
            0 <= k < n ==> last_index(commits, (#[trigger] legs[k]).0) is Some && node_legs(
                commits,
                legs,
                n,
            )->Ok_0[k] == (
                EditorGraphIndex::Node(last_index(commits, legs[k].0)->0),
                legs[k].1,
            ),
    decreases n,
{
    if n > 0 {
        lemma_node_legs(commits, legs, n - 1);
    }
}

/// What holds of the graph when the first `n` references have their positions.
pub open spec fn placed_upto(
    commits: Seq<CommitView>,
    l: PlacementsView,
    start: EditorView,
    v: EditorView,
    n: int,
) -> bool {
    &&& v.nodes == start.nodes
    &&& v.refs.len() == l.refs.len()
    &&& v.in_step()
    &&& forall|i: int|
        0 <= i < l.refs.len() ==> {
            &&& (#[trigger] v.refs[i]).name == l.refs[i].name
            &&& v.refs[i].mutable == l.refs[i].mutable
            &&& v.refs[i].live
            &&& i >= n ==> v.refs[i].position is None
        }
    &&& forall|i: int| 0 <= i < n ==> placed_like(commits, l, v, #[trigger] l.refs[i], i)
}

/// The reference sits where the ledger has it.
pub open spec fn placed_like(
    commits: Seq<CommitView>,
    l: PlacementsView,
    v: EditorView,
    placed: PlacedView,
    i: int,
) -> bool {
    let ix = EditorGraphIndex::Ref(i as usize);
    match placed.anchor {
        None => v.position(ix) is None,
        Some(id) => {
            let on = EditorGraphIndex::Node(last_index(commits, id)->0);
            let legs = node_legs(commits, placed.approach, placed.approach.len() as int)->Ok_0;
            &&& v.position(ix) == Some(
                RefPosition {
                    on,
                    below: match placed.below {
                        Some(name) => ref_named(l.refs, name),
                        None => None,
                    },
                    ambiguous: placed.ambiguous,
                },
            )
            &&& v.approach(ix) == v.legs_into(on).filter(|x: EditorLeg| legs.contains(x))
        },
    }
}

proof fn lemma_no_lanes(start: EditorView)
    requires
        start.lanes == Map::<EditorGraphIndex, Seq<crate::lanes::LaneView<EditorGraphIndex>>>::empty(),
        forall|i: int| 0 <= i < start.refs.len() ==> (#[trigger] start.refs[i]).position is None,
    ensures
        start.in_step(),
{
    assert forall|key: EditorGraphIndex, node: EditorGraphIndex| #[trigger]
        memberships(
            lanes_at(start.lanes, key),
            node,
            lanes_at(start.lanes, key).len() as int,
        ) == if start.places()(node) == Some(key) {
            1nat
        } else {
            0nat
        } by {
        assert(start.position(node) is None);
    }
}

/// What holds of the graph while references get their positions.
pub proof fn lemma_placed_upto(
    commits: Seq<CommitView>,
    l: PlacementsView,
    start: EditorView,
    n: int,
)
    requires
        commits.len() <= usize::MAX,
        start.nodes.len() == commits.len(),
        forall|i: int| 0 <= i < commits.len() ==> (#[trigger] start.nodes[i]).pick is Some,
        start.refs == lone_refs(l.refs),
        start.lanes == Map::<EditorGraphIndex, Seq<crate::lanes::LaneView<EditorGraphIndex>>>::empty(),
        l.refs.len() <= usize::MAX,
        distinct_names(l.refs),
        0 <= n <= l.refs.len(),
        with_positions(commits, l.refs, start, n) is Ok,
    ensures
        placed_upto(commits, l, start, with_positions(commits, l.refs, start, n)->Ok_0, n),
    decreases n,
{
    if n == 0 {
        lemma_no_lanes(start);
    } else {
        lemma_placed_upto(commits, l, start, n - 1);
        let v = with_positions(commits, l.refs, start, n - 1)->Ok_0;
        let after = with_positions(commits, l.refs, start, n)->Ok_0;
        let placed = l.refs[n - 1];
        assert(with_placed(commits, l.refs, v, placed) == Ok::<EditorView, CreationErrorView>(
            after,
        ));
        if let Some(id) = placed.anchor {
            let ix = EditorGraphIndex::Ref((n - 1) as usize);
            lemma_name_at(l.refs, n - 1, l.refs.len() as int);
            lemma_last_index(commits, id);
            let on = EditorGraphIndex::Node(last_index(commits, id)->0);
            let below = match placed.below {
                Some(name) => ref_named(l.refs, name),
                None => None,
            };
            let legs = node_legs(commits, placed.approach, placed.approach.len() as int)->Ok_0;
            assert(after == v.set_position(ix, on, legs, placed.ambiguous, below));
            assert(v.nodes[last_index(commits, id)->0 as int].pick is Some);
            law_set_position(v, ix, on, legs, placed.ambiguous, below);
            law_position_read_back(v, ix, on, legs, placed.ambiguous, below);
            lemma_same_legs(v, after, on);
            assert forall|i: int| 0 <= i < n implies placed_like(
                commits,
                l,
                after,
                #[trigger] l.refs[i],
                i,
            ) by {
                if i < n - 1 {
                    assert(placed_like(commits, l, v, l.refs[i], i));
                    let j = EditorGraphIndex::Ref(i as usize);
                    if let Some(other) = l.refs[i].anchor {
                        let at = EditorGraphIndex::Node(last_index(commits, other)->0);
                        lemma_anchor_known(commits, l.refs, start, n - 1, i);
                        lemma_last_index(commits, other);
                        assert(v.nodes[last_index(commits, other)->0 as int].pick is Some);
                        law_set_position_leaves_others(
                            v,
                            ix,
                            on,
                            legs,
                            placed.ambiguous,
                            below,
                            j,
                        );
                        lemma_same_legs(v, after, at);
                    }
                }
            }
        } else {
            assert(v.refs[n - 1].position is None);
            assert forall|i: int| 0 <= i < n implies placed_like(
                commits,
                l,
                after,
                #[trigger] l.refs[i],
                i,
            ) by {
                if i < n - 1 {
                    assert(placed_like(commits, l, v, l.refs[i], i));
                }
            }
        }
    }
}

/// Where all went well, each anchor was found.
proof fn lemma_anchor_known(
    commits: Seq<CommitView>,
    refs: Seq<PlacedView>,
    start: EditorView,
    n: int,
    i: int,
)
    requires
        0 <= i < n,
        with_positions(commits, refs, start, n) is Ok,
        refs[i].anchor is Some,
    ensures
        last_index(commits, refs[i].anchor->0) is Some,
        node_legs(commits, refs[i].approach, refs[i].approach.len() as int) is Ok,
        refs[i].below matches Some(name) ==> ref_named(refs, name) is Some,
    decreases n,
{
    if i < n - 1 {
        lemma_anchor_known(commits, refs, start, n - 1, i);
    }
}

/// The leg is one of the first `n` parents of the commit.
pub open spec fn is_leg_from(
    nodes: Seq<NodeView>,
    child: int,
    node: EditorGraphIndex,
    n: int,
    x: EditorLeg,
) -> bool {
    &&& x.0 == EditorGraphIndex::Node(child as usize)
    &&& x.1 < n
    &&& nodes[child].parents[x.1 as int] == node
}

/// One more element that was not there makes no repetition.
proof fn lemma_push_distinct<A>(s: Seq<A>, x: A)
    requires
        s.no_duplicates(),
        !s.contains(x),
    ensures
        s.push(x).no_duplicates(),
{
    let t = s.push(x);
    assert forall|i: int, j: int| 0 <= i < t.len() && 0 <= j < t.len() && i != j implies t[i]
        != t[j] by {
        if i < s.len() && j < s.len() {
            assert(s[i] != s[j]);
        } else if i < s.len() {
            assert(s.contains(s[i]));
        } else if j < s.len() {
            assert(s.contains(s[j]));
        }
    }
}

/// What is kept of a list without repetitions has none.
pub proof fn lemma_filter_distinct<A>(s: Seq<A>, keep: spec_fn(A) -> bool)
    requires
        s.no_duplicates(),
    ensures
        s.filter(keep).no_duplicates(),
    decreases s.len(),
{
    reveal(Seq::filter);
    if s.len() > 0 {
        let d = s.drop_last();
        lemma_filter_distinct(d, keep);
        if keep(s.last()) {
            lemma_filter_contains(d, keep, s.last());
            if d.contains(s.last()) {
                let i = choose|i: int| 0 <= i < d.len() && d[i] == s.last();
                assert(s[i] == s[s.len() - 1]);
            }
            lemma_push_distinct(d.filter(keep), s.last());
        }
    }
}

proof fn lemma_legs_from(nodes: Seq<NodeView>, child: int, node: EditorGraphIndex, n: int)
    requires
        0 <= n <= nodes[child].parents.len() <= usize::MAX,
    ensures
        legs_from(nodes, child, node, n).no_duplicates(),
        forall|x: EditorLeg| #[trigger]
            legs_from(nodes, child, node, n).contains(x) <==> is_leg_from(nodes, child, node, n, x),
    decreases n,
{
    if n > 0 {
        lemma_legs_from(nodes, child, node, n - 1);
        let before = legs_from(nodes, child, node, n - 1);
        let all = legs_from(nodes, child, node, n);
        let own = (EditorGraphIndex::Node(child as usize), (n - 1) as usize);
        assert(before.contains(own) <==> is_leg_from(nodes, child, node, n - 1, own));
        if nodes[child].parents[n - 1] == node {
            lemma_push_distinct(before, own);
        }
        assert forall|x: EditorLeg| #[trigger] all.contains(x) <==> is_leg_from(
            nodes,
            child,
            node,
            n,
            x,
        ) by {
            crate::seqs::lemma_push_contains(before, own, x);
            assert(before.contains(x) <==> is_leg_from(nodes, child, node, n - 1, x));
        }
    } else {
        assert(legs_from(nodes, child, node, n) =~= Seq::empty());
    }
}

/// Two lists without repetitions that have nothing in common have none together.
proof fn lemma_add_distinct<A>(a: Seq<A>, b: Seq<A>)
    requires
        a.no_duplicates(),
        b.no_duplicates(),
        forall|x: A| a.contains(x) ==> !b.contains(x),
    ensures
        (a + b).no_duplicates(),
{
    let t = a + b;
    assert forall|i: int, j: int| 0 <= i < j < t.len() implies t[i] != t[j] by {
        if j < a.len() {
            assert(a[i] != a[j]);
        } else if i < a.len() {
            assert(a.contains(a[i]));
            assert(b.contains(b[j - a.len()]));
        } else {
            assert(b[i - a.len()] != b[j - a.len()]);
        }
    }
}

/// The leg is one into the node, from the first `n` commits.
pub open spec fn is_leg_among(
    nodes: Seq<NodeView>,
    node: EditorGraphIndex,
    n: int,
    x: EditorLeg,
) -> bool {
    &&& x.0 matches EditorGraphIndex::Node(c)
    &&& c < n
    &&& x.1 < nodes[c as int].parents.len()
    &&& nodes[c as int].parents[x.1 as int] == node
}

/// The legs into a node are each there once, and are those of the nodes that have it as a parent.
pub proof fn lemma_legs_among(nodes: Seq<NodeView>, node: EditorGraphIndex, n: int)
    requires
        0 <= n <= nodes.len() <= usize::MAX,
        parents_fit(nodes),
    ensures
        legs_among(nodes, node, n).no_duplicates(),
        forall|x: EditorLeg| #[trigger]
            legs_among(nodes, node, n).contains(x) <==> is_leg_among(nodes, node, n, x),
    decreases n,
{
    if n > 0 {
        lemma_legs_among(nodes, node, n - 1);
        assert(nodes[n - 1].parents.len() <= usize::MAX);
        lemma_legs_from(nodes, n - 1, node, nodes[n - 1].parents.len() as int);
        let before = legs_among(nodes, node, n - 1);
        let own = legs_from(nodes, n - 1, node, nodes[n - 1].parents.len() as int);
        assert forall|x: EditorLeg| before.contains(x) implies !own.contains(x) by {
            assert(is_leg_among(nodes, node, n - 1, x));
        }
        lemma_add_distinct(before, own);
        assert forall|x: EditorLeg| #[trigger]
            legs_among(nodes, node, n).contains(x) <==> is_leg_among(nodes, node, n, x) by {
            crate::reach::lemma_add_contains(before, own, x);
            assert(before.contains(x) <==> is_leg_among(nodes, node, n - 1, x));
            assert(own.contains(x) <==> is_leg_from(
                nodes,
                n - 1,
                node,
                nodes[n - 1].parents.len() as int,
                x,
            ));
        }
    } else {
        assert(legs_among(nodes, node, n) =~= Seq::empty());
    }
}

/// Those of the legs into a commit that are wanted are each shown once, as legs into the commit.
proof fn lemma_shown_legs(
    commits: Seq<CommitView>,
    v: EditorView,
    node: usize,
    wanted: spec_fn(EditorLeg) -> bool,
)
    requires
        distinct_ids(commits),
        v.fits(),
        v.nodes.len() == commits.len(),
        parents_fit(v.nodes),
        forall|c: int|
            0 <= c < commits.len() ==> (#[trigger] v.nodes[c]).pick is Some && v.nodes[c].pick->0.id
                == commits[c].id,
    ensures
        ({
            let found = v.legs_into(EditorGraphIndex::Node(node)).filter(wanted);
            let shown = commit_legs(v, found);
            &&& shown.no_duplicates()
            &&& forall|k: int|
                0 <= k < shown.len() ==> is_leg_into(commits, v.nodes, #[trigger] shown[k], node)
        }),
{
    let on = EditorGraphIndex::Node(node);
    lemma_legs_among(v.nodes, on, v.nodes.len() as int);
    let from_pick = |x: EditorLeg| v.is_pick(x.0);
    let into = v.legs_into(on);
    let found = into.filter(wanted);
    lemma_filter_distinct(v.incoming(on), from_pick);
    lemma_filter_distinct(into, wanted);
    assert forall|x: EditorLeg| found.contains(x) implies is_leg_among(
        v.nodes,
        on,
        v.nodes.len() as int,
        x,
    ) by {
        lemma_filter_contains(into, wanted, x);
        lemma_filter_contains(v.incoming(on), from_pick, x);
        assert(legs_among(v.nodes, on, v.nodes.len() as int).contains(x));
    }
    let shown = commit_legs(v, found);
    assert forall|a: int, b: int| 0 <= a < shown.len() && 0 <= b < shown.len() && a
        != b implies shown[a] != shown[b] by {
        let (x, y) = (found[a], found[b]);
        assert(found.contains(x) && found.contains(y));
        assert(x != y);
        let (cx, cy) = (x.0->Node_0 as int, y.0->Node_0 as int);
        assert(v.nodes[cx].pick is Some && v.nodes[cy].pick is Some);
        if shown[a] == shown[b] {
            assert(commits[cx].id == commits[cy].id);
            lemma_own_index(commits, cx);
            lemma_own_index(commits, cy);
        }
    }
    assert forall|k: int| 0 <= k < shown.len() implies is_leg_into(
        commits,
        v.nodes,
        #[trigger] shown[k],
        node,
    ) by {
        let x = found[k];
        assert(found.contains(x));
        let c = x.0->Node_0 as int;
        assert(v.nodes[c].pick is Some);
        lemma_own_index(commits, c);
    }
}

/// What is read off as the approach of a reference is what the ledger has.
proof fn lemma_approach_back(
    commits: Seq<CommitView>,
    l: PlacementsView,
    v: EditorView,
    placed: PlacedView,
    i: int,
)
    requires
        distinct_ids(commits),
        v.fits(),
        v.nodes.len() == commits.len(),
        parents_fit(v.nodes),
        forall|c: int|
            0 <= c < commits.len() ==> (#[trigger] v.nodes[c]).pick is Some && v.nodes[c].pick->0.id
                == commits[c].id,
        placed.anchor is Some,
        last_index(commits, placed.anchor->0) is Some,
        node_legs(commits, placed.approach, placed.approach.len() as int) is Ok,
        placed_truly(commits, v.nodes, placed),
        placed_like(commits, l, v, placed, i),
    ensures
        sorted::<CommitLeg>(commit_legs(v, v.approach(EditorGraphIndex::Ref(i as usize))))
            == placed.approach,
{
    let ix = EditorGraphIndex::Ref(i as usize);
    let n = placed.approach.len() as int;
    let node = last_index(commits, placed.anchor->0)->0;
    let on = EditorGraphIndex::Node(node);
    let legs = node_legs(commits, placed.approach, n)->Ok_0;
    lemma_node_legs(commits, placed.approach, n);
    lemma_legs_among(v.nodes, on, v.nodes.len() as int);
    let from_pick = |x: EditorLeg| v.is_pick(x.0);
    let wanted = |x: EditorLeg| legs.contains(x);
    let into = v.legs_into(on);
    let found = into.filter(wanted);
    lemma_filter_distinct(v.incoming(on), from_pick);
    lemma_filter_distinct(into, wanted);
    assert(v.approach(ix) == found);
    assert forall|x: EditorLeg| found.contains(x) implies is_leg_among(
        v.nodes,
        on,
        v.nodes.len() as int,
        x,
    ) && legs.contains(x) by {
        lemma_filter_contains(into, wanted, x);
        lemma_filter_contains(v.incoming(on), from_pick, x);
        assert(legs_among(v.nodes, on, v.nodes.len() as int).contains(x));
    }
    let shown = commit_legs(v, found);
    lemma_shown_legs(commits, v, node, wanted);
    assert(shown.no_duplicates());
    lemma_sorted_increasing::<CommitLeg>(shown);
    assert forall|leg: CommitLeg| sorted::<CommitLeg>(shown).contains(leg)
        <==> placed.approach.contains(leg) by {
        lemma_sorted_contains::<CommitLeg>(shown, leg);
        if shown.contains(leg) {
            let a = choose|a: int| 0 <= a < shown.len() && shown[a] == leg;
            let x = found[a];
            assert(found.contains(x));
            let k = choose|k: int| 0 <= k < legs.len() && legs[k] == x;
            let c = x.0->Node_0 as int;
            assert(v.nodes[c].pick is Some);
            assert(last_index(commits, placed.approach[k].0) == Some(x.0->Node_0));
            lemma_last_index(commits, placed.approach[k].0);
            assert(commits[c].id == placed.approach[k].0);
            assert(placed.approach[k] == leg);
        }
        if placed.approach.contains(leg) {
            let k = choose|k: int| 0 <= k < placed.approach.len() && placed.approach[k] == leg;
            assert(is_leg_into(commits, v.nodes, placed.approach[k], node));
            let x = legs[k];
            let c = x.0->Node_0 as int;
            lemma_last_index(commits, leg.0);
            assert(v.nodes[c].pick is Some);
            assert(is_leg_among(v.nodes, on, v.nodes.len() as int, x));
            assert(legs_among(v.nodes, on, v.nodes.len() as int).contains(x));
            lemma_filter_contains(v.incoming(on), from_pick, x);
            assert(legs.contains(x));
            lemma_filter_contains(into, wanted, x);
            let a = choose|a: int| 0 <= a < found.len() && found[a] == x;
            assert(shown[a] == leg);
        }
    }
    lemma_increasing_unique::<CommitLeg>(sorted::<CommitLeg>(shown), placed.approach);
}

proof fn lemma_live(v: EditorView, n: int)
    requires
        0 <= n <= v.refs.len(),
        forall|i: int| 0 <= i < v.refs.len() ==> (#[trigger] v.refs[i]).live,
    ensures
        live_refs(v.refs, n) == Seq::new(n as nat, |i: int| EditorGraphIndex::Ref(i as usize)),
    decreases n,
{
    if n > 0 {
        lemma_live(v, n - 1);
        assert(v.refs[n - 1].live);
        assert(live_refs(v.refs, n) =~= Seq::new(
            n as nat,
            |i: int| EditorGraphIndex::Ref(i as usize),
        ));
    } else {
        assert(live_refs(v.refs, n) =~= Seq::new(
            n as nat,
            |i: int| EditorGraphIndex::Ref(i as usize),
        ));
    }
}

/// The name of a reference that was found by its name.
proof fn lemma_named_back(l: PlacementsView, v: EditorView, name: Seq<u8>)
    requires
        l.refs.len() <= usize::MAX,
        v.refs.len() == l.refs.len(),
        forall|i: int|
            0 <= i < l.refs.len() ==> (#[trigger] v.refs[i]).name == l.refs[i].name
                && v.refs[i].live,
        ref_named(l.refs, name) is Some,
    ensures
        live_name(v, ref_named(l.refs, name)->0) == Some(name),
{
    lemma_found_name(l.refs, name, l.refs.len() as int);
    let i = name_in(l.refs, name, l.refs.len() as int)->0 as int;
    assert(v.refs[i].name == l.refs[i].name);
}

proof fn lemma_found_name(refs: Seq<PlacedView>, name: Seq<u8>, n: int)
    requires
        n <= refs.len() <= usize::MAX,
    ensures
        name_in(refs, name, n) matches Some(i) ==> i < n && refs[i as int].name == name,
    decreases n,
{
    if n > 0 {
        lemma_found_name(refs, name, n - 1);
    }
}

proof fn lemma_placement_back(
    commits: Seq<CommitView>,
    l: PlacementsView,
    start: EditorView,
    v: EditorView,
    i: int,
)
    requires
        distinct_ids(commits),
        commits.len() <= usize::MAX,
        l.refs.len() <= usize::MAX,
        0 <= i < l.refs.len(),
        with_positions(commits, l.refs, start, l.refs.len() as int) == Ok::<
            EditorView,
            CreationErrorView,
        >(v),
        placed_upto(commits, l, start, v, l.refs.len() as int),
        v.nodes.len() == commits.len(),
        parents_fit(v.nodes),
        forall|c: int|
            0 <= c < commits.len() ==> (#[trigger] v.nodes[c]).pick is Some && v.nodes[c].pick->0.id
                == commits[c].id,
        placed_truly(commits, v.nodes, l.refs[i]),
    ensures
        placement_of(v, EditorGraphIndex::Ref(i as usize)) == Ok::<PlacedView, PlacementError>(
            l.refs[i],
        ),
{
    let placed = l.refs[i];
    let ix = EditorGraphIndex::Ref(i as usize);
    assert(placed_like(commits, l, v, l.refs[i], i));
    assert(v.refs[i].name == placed.name);
    if let Some(id) = placed.anchor {
        lemma_anchor_known(commits, l.refs, start, l.refs.len() as int, i);
        lemma_last_index(commits, id);
        let node = last_index(commits, id)->0;
        let on = EditorGraphIndex::Node(node);
        assert(v.nodes[node as int].pick is Some);
        assert(v.resolve(on) == Some(on));
        if let Some(name) = placed.below {
            lemma_named_back(l, v, name);
        }
        lemma_approach_back(commits, l, v, placed, i);
        assert(placement_of(v, ix)->Ok_0 =~= placed);
    } else {
        assert(placed.approach =~= Seq::empty());
        assert(placement_of(v, ix)->Ok_0 =~= placed);
    }
}

proof fn lemma_placements_back(v: EditorView, refs: Seq<PlacedView>, n: int)
    requires
        0 <= n <= refs.len(),
        forall|i: int|
            0 <= i < refs.len() ==> #[trigger] placement_of(v, EditorGraphIndex::Ref(i as usize))
                == Ok::<PlacedView, PlacementError>(refs[i]),
    ensures
        placements_of(
            v,
            Seq::new(refs.len(), |i: int| EditorGraphIndex::Ref(i as usize)),
            n,
        ) == Ok::<Seq<PlacedView>, PlacementError>(refs.take(n)),
    decreases n,
{
    if n > 0 {
        lemma_placements_back(v, refs, n - 1);
        assert(placement_of(v, EditorGraphIndex::Ref((n - 1) as usize)) == Ok::<
            PlacedView,
            PlacementError,
        >(refs[n - 1]));
        assert(refs.take(n) =~= refs.take(n - 1).push(refs[n - 1]));
    } else {
        assert(refs.take(0) =~= Seq::empty());
    }
}

proof fn lemma_heads_back(
    l: PlacementsView,
    v: EditorView,
    checkouts: Seq<Checkout>,
    n: int,
)
    requires
        l.refs.len() <= usize::MAX,
        v.refs.len() == l.refs.len(),
        forall|i: int|
            0 <= i < l.refs.len() ==> (#[trigger] v.refs[i]).name == l.refs[i].name
                && v.refs[i].live,
        0 <= n <= l.head_refs.len(),
        head_checkouts(l.refs, l.head_refs, n) == Ok::<Seq<Checkout>, CreationErrorView>(
            checkouts.take(n),
        ),
        n <= checkouts.len(),
    ensures
        head_names(v, checkouts, n) == Ok::<Seq<Seq<u8>>, PlacementError>(l.head_refs.take(n)),
    decreases n,
{
    if n > 0 {
        let before = head_checkouts(l.refs, l.head_refs, n - 1)->Ok_0;
        assert(checkouts.take(n).drop_last() =~= checkouts.take(n - 1));
        assert(checkouts.take(n) == before.push(checkouts[n - 1])) by {
            assert(checkouts.take(n).last() == checkouts[n - 1]);
            assert(before =~= checkouts.take(n - 1)) by {
                assert(checkouts.take(n).drop_last() =~= before);
            }
        }
        assert(before =~= checkouts.take(n - 1));
        lemma_heads_back(l, v, checkouts, n - 1);
        lemma_named_back(l, v, l.head_refs[n - 1]);
        assert(head_checkouts(l.refs, l.head_refs, n)->Ok_0.last() == checkouts[n - 1]);
        let Checkout::Head { selector, .. } = checkouts[n - 1];
        assert(Some(selector.id) == ref_named(l.refs, l.head_refs[n - 1]));
        assert(live_name(v, selector.id) == Some(l.head_refs[n - 1]));
        assert(l.head_refs.take(n) =~= l.head_refs.take(n - 1).push(l.head_refs[n - 1]));
    } else {
        assert(l.head_refs.take(0) =~= Seq::empty());
    }
}

proof fn lemma_checkouts_len(refs: Seq<PlacedView>, names: Seq<Seq<u8>>, n: int)
    requires
        0 <= n,
        head_checkouts(refs, names, n) is Ok,
    ensures
        head_checkouts(refs, names, n)->Ok_0.len() == n,
    decreases n,
{
    if n > 0 {
        lemma_checkouts_len(refs, names, n - 1);
    }
}

proof fn lemma_mutable_back(
    nodes: Seq<NodeView>,
    commits: Seq<CommitView>,
    mutable: Set<ObjectId>,
    n: int,
    id: ObjectId,
)
    requires
        0 <= n <= commits.len(),
        nodes.len() == commits.len(),
        forall|c: int|
            0 <= c < commits.len() ==> (#[trigger] nodes[c]).pick is Some && nodes[c].pick->0.id
                == commits[c].id && nodes[c].pick->0.mutable == mutable.contains(commits[c].id),
    ensures
        mutable_ids(nodes, n).contains(id) <==> mutable.contains(id) && exists|c: int|
            0 <= c < n && (#[trigger] commits[c]).id == id,
    decreases n,
{
    if n > 0 {
        lemma_mutable_back(nodes, commits, mutable, n - 1, id);
        assert(nodes[n - 1].pick is Some);
        if commits[n - 1].id == id {
            assert(commits[n - 1].id == id);
        }
    }
}

proof fn lemma_node_of(nodes: Seq<NodeView>, commits: Seq<CommitView>, id: ObjectId, n: int)
    requires
        distinct_ids(commits),
        0 <= n <= commits.len() <= usize::MAX,
        nodes.len() == commits.len(),
        forall|c: int|
            0 <= c < commits.len() ==> (#[trigger] nodes[c]).pick is Some && nodes[c].pick->0.id
                == commits[c].id,
    ensures
        node_of(nodes, id, n) matches Some(i) ==> i < n && commits[i as int].id == id,
        node_of(nodes, id, n) is None ==> forall|c: int|
            0 <= c < n ==> (#[trigger] commits[c]).id != id,
    decreases n,
{
    if n > 0 {
        lemma_node_of(nodes, commits, id, n - 1);
        assert(nodes[n - 1].pick is Some);
    }
}

/// The ids of nodes that were found by their ids.
proof fn lemma_ids_back(commits: Seq<CommitView>, v: EditorView, ids: Seq<ObjectId>, n: int)
    requires
        0 <= n <= ids.len(),
        commits.len() <= usize::MAX,
        v.nodes.len() == commits.len(),
        forall|c: int|
            0 <= c < commits.len() ==> (#[trigger] v.nodes[c]).pick is Some && v.nodes[c].pick->0.id
                == commits[c].id,
        forall|i: int| 0 <= i < ids.len() ==> last_index(commits, #[trigger] ids[i]) is Some,
    ensures
        node_list(commits, ids, n).len() == n,
        forall|i: int|
            0 <= i < n ==> v.commit_id(#[trigger] node_list(commits, ids, n)[i]) == Some(ids[i]),
    decreases n,
{
    if n > 0 {
        lemma_ids_back(commits, v, ids, n - 1);
        let id = ids[n - 1];
        assert(last_index(commits, ids[n - 1]) is Some);
        lemma_last_index(commits, id);
        let at = last_index(commits, id)->0;
        assert(v.nodes[at as int].pick is Some);
        let (before, all) = (node_list(commits, ids, n - 1), node_list(commits, ids, n));
        assert(all == before.push(EditorGraphIndex::Node(at)));
        assert forall|i: int| 0 <= i < n implies v.commit_id(#[trigger] all[i]) == Some(
            ids[i],
        ) by {
            if i < n - 1 {
                assert(all[i] == before[i]);
            }
        }
    } else {
        assert(node_list(commits, ids, n).len() == 0);
    }
}

proof fn lemma_parent_ids_back(v: EditorView, parents: Seq<EditorGraphIndex>, ids: Seq<ObjectId>, n: int)
    requires
        0 <= n <= parents.len(),
        parents.len() == ids.len(),
        forall|i: int| 0 <= i < parents.len() ==> v.commit_id(#[trigger] parents[i]) == Some(ids[i]),
    ensures
        parent_ids(v, parents, n) == Ok::<Seq<ObjectId>, PlacementError>(ids.take(n)),
    decreases n,
{
    if n > 0 {
        lemma_parent_ids_back(v, parents, ids, n - 1);
        assert(v.commit_id(parents[n - 1]) == Some(ids[n - 1]));
        assert(ids.take(n) =~= ids.take(n - 1).push(ids[n - 1]));
    } else {
        assert(ids.take(0) =~= Seq::empty());
    }
}

/// What is read off a graph that was built from a ledger is that ledger.
pub proof fn law_ledger_is_read_back(
    commits: Seq<CommitView>,
    defaults: PickDefaults,
    sign: Seq<char>,
    workspace_commit_id: Option<ObjectId>,
    l: PlacementsView,
)
    requires
        distinct_ids(commits),
        commits.len() <= usize::MAX,
        l.refs.len() <= usize::MAX,
        parents_fit(commit_nodes(commits, defaults, sign, workspace_commit_id, l)),
        ledger_of(
            commits,
            commit_nodes(commits, defaults, sign, workspace_commit_id, l),
            workspace_commit_id,
            l,
        ),
    ensures
        ({
            let graph = created(commits, defaults, sign, workspace_commit_id, l);
            let checkouts = head_checkouts(l.refs, l.head_refs, l.head_refs.len() as int);
            &&& graph is Ok && checkouts is Ok
            &&& ledger(graph->Ok_0, checkouts->Ok_0, workspace_commit_id) == Ok::<
                PlacementsView,
                PlacementError,
            >(l)
        }),
{
    law_self_contained_is_built(commits, defaults, sign, workspace_commit_id, l);
    let nodes = commit_nodes(commits, defaults, sign, workspace_commit_id, l);
    let start = EditorView { nodes, refs: lone_refs(l.refs), lanes: Map::empty() };
    let n = l.refs.len() as int;
    let v = created(commits, defaults, sign, workspace_commit_id, l)->Ok_0;
    let checkouts = head_checkouts(l.refs, l.head_refs, l.head_refs.len() as int)->Ok_0;
    if commits.len() == 0 {
        assert(nodes =~= Seq::empty());
    } else {
        lemma_built_node(commits, defaults, sign, workspace_commit_id, l, 0);
    }
    assert(nodes.len() == commits.len());
    assert forall|c: int| 0 <= c < commits.len() implies (#[trigger] nodes[c]).pick is Some
        && nodes[c].pick->0.id == commits[c].id && nodes[c].pick->0.mutable
        == l.mutable_commits.contains(commits[c].id) by {
        lemma_built_node(commits, defaults, sign, workspace_commit_id, l, c);
    }
    lemma_placed_upto(commits, l, start, n);
    assert forall|i: int| 0 <= i < l.refs.len() implies #[trigger] placement_of(
        v,
        EditorGraphIndex::Ref(i as usize),
    ) == Ok::<PlacedView, PlacementError>(l.refs[i]) by {
        assert(placed_truly(commits, nodes, l.refs[i]));
        lemma_placement_back(commits, l, start, v, i);
    }
    lemma_live(v, n);
    lemma_placements_back(v, l.refs, n);
    assert(l.refs.take(n) =~= l.refs);
    lemma_checkouts_len(l.refs, l.head_refs, l.head_refs.len() as int);
    assert(checkouts.take(checkouts.len() as int) =~= checkouts);
    lemma_heads_back(l, v, checkouts, l.head_refs.len() as int);
    assert(l.head_refs.take(l.head_refs.len() as int) =~= l.head_refs);
    assert forall|id: ObjectId| mutable_ids(v.nodes, v.nodes.len() as int).contains(id)
        <==> l.mutable_commits.contains(id) by {
        lemma_mutable_back(v.nodes, commits, l.mutable_commits, commits.len() as int, id);
        if l.mutable_commits.contains(id) {
            lemma_last_index(commits, id);
        }
    }
    assert(mutable_ids(v.nodes, v.nodes.len() as int) =~= l.mutable_commits);
    if let Some(ws) = workspace_commit_id {
        lemma_node_of(v.nodes, commits, ws, commits.len() as int);
        lemma_last_index(commits, ws);
        if let Some(w) = node_of(v.nodes, ws, v.nodes.len() as int) {
            lemma_built_node(commits, defaults, sign, workspace_commit_id, l, w as int);
            let ids = l.ws_parents->0;
            assert forall|i: int| 0 <= i < ids.len() implies last_index(
                commits,
                #[trigger] ids[i],
            ) is Some by {
                assert(in_graph(commits)(ids[i]));
            }
            lemma_ids_back(commits, v, ids, ids.len() as int);
            let parents = v.nodes[w as int].parents;
            assert(parents == node_list(commits, ids, ids.len() as int));
            lemma_parent_ids_back(v, parents, ids, ids.len() as int);
            assert(ids.take(ids.len() as int) =~= ids);
        }
    }
    assert(ws_parent_ids(v, workspace_commit_id) == Ok::<Option<Seq<ObjectId>>, PlacementError>(
        l.ws_parents,
    ));
}

/// What is read off of each reference, where all were read.
proof fn lemma_each_read(
    v: EditorView,
    list: Seq<EditorGraphIndex>,
    refs: Seq<PlacedView>,
    n: int,
    i: int,
)
    requires
        placements_of(v, list, n) == Ok::<Seq<PlacedView>, PlacementError>(refs),
        0 <= i < n,
    ensures
        refs.len() == n,
        placement_of(v, list[i]) == Ok::<PlacedView, PlacementError>(refs[i]),
    decreases n,
{
    let before = placements_of(v, list, n - 1)->Ok_0;
    if i < n - 1 {
        lemma_each_read(v, list, before, n - 1, i);
    } else if n > 1 {
        lemma_each_read(v, list, before, n - 1, 0);
    } else {
        assert(before.len() == 0);
    }
}

/// A ledger that is read back off the graph that was built from it has all its references truly
/// placed.
pub proof fn law_read_back_is_truly_placed(
    commits: Seq<CommitView>,
    defaults: PickDefaults,
    sign: Seq<char>,
    workspace_commit_id: Option<ObjectId>,
    l: PlacementsView,
    i: int,
)
    requires
        distinct_ids(commits),
        commits.len() <= usize::MAX,
        l.refs.len() <= usize::MAX,
        parents_fit(commit_nodes(commits, defaults, sign, workspace_commit_id, l)),
        self_contained(l, in_graph(commits)),
        distinct_names(l.refs),
        ({
            let graph = created(commits, defaults, sign, workspace_commit_id, l);
            let checkouts = head_checkouts(l.refs, l.head_refs, l.head_refs.len() as int);
            ledger(graph->Ok_0, checkouts->Ok_0, workspace_commit_id) == Ok::<
                PlacementsView,
                PlacementError,
            >(l)
        }),
        0 <= i < l.refs.len(),
    ensures
        placed_truly(
            commits,
            commit_nodes(commits, defaults, sign, workspace_commit_id, l),
            l.refs[i],
        ),
{
    law_self_contained_is_built(commits, defaults, sign, workspace_commit_id, l);
    let nodes = commit_nodes(commits, defaults, sign, workspace_commit_id, l);
    let start = EditorView { nodes, refs: lone_refs(l.refs), lanes: Map::empty() };
    let n = l.refs.len() as int;
    let v = created(commits, defaults, sign, workspace_commit_id, l)->Ok_0;
    if commits.len() == 0 {
        assert(nodes =~= Seq::empty());
    } else {
        lemma_built_node(commits, defaults, sign, workspace_commit_id, l, 0);
    }
    assert(nodes.len() == commits.len());
    assert forall|c: int| 0 <= c < commits.len() implies (#[trigger] nodes[c]).pick is Some
        && nodes[c].pick->0.id == commits[c].id by {
        lemma_built_node(commits, defaults, sign, workspace_commit_id, l, c);
    }
    lemma_placed_upto(commits, l, start, n);
    lemma_live(v, n);
    let live = live_refs(v.refs, v.refs.len() as int);
    lemma_each_read(v, live, l.refs, n, i);
    let ix = EditorGraphIndex::Ref(i as usize);
    assert(live[i] == ix);
    let placed = l.refs[i];
    assert(placed_like(commits, l, v, l.refs[i], i));
    if let Some(id) = placed.anchor {
        let node = last_index(commits, id)->0;
        let on = EditorGraphIndex::Node(node);
        let legs = node_legs(commits, placed.approach, placed.approach.len() as int)->Ok_0;
        let wanted = |x: EditorLeg| legs.contains(x);
        let shown = commit_legs(v, v.approach(ix));
        lemma_shown_legs(commits, v, node, wanted);
        assert(shown == commit_legs(v, v.legs_into(on).filter(wanted)));
        assert(placed.approach == sorted::<CommitLeg>(shown));
        lemma_sorted_increasing::<CommitLeg>(shown);
        assert forall|k: int| 0 <= k < placed.approach.len() implies is_leg_into(
            commits,
            nodes,
            #[trigger] placed.approach[k],
            node,
        ) by {
            let leg = placed.approach[k];
            assert(placed.approach.contains(leg));
            lemma_sorted_contains::<CommitLeg>(shown, leg);
            let m = choose|m: int| 0 <= m < shown.len() && shown[m] == leg;
            assert(is_leg_into(commits, v.nodes, shown[m], node));
        }
    }
}

} // verus!
