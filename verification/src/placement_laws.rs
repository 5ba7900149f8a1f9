//! What is read off a graph says where each of its references sits.

use crate::editor_graph::{live_refs, EditorGraphIndex, EditorLeg, EditorView, NodeView, RefView};
use crate::names::ObjectId;
use crate::order::{lemma_sorted_contains, ordered};
use crate::placements::{
    commit_legs, head_names, ledger, live_name, mutable_ids, node_of, parent_ids, picks_of,
    placement_of, placements_of, CanonicalPickView, Checkout, CommitLeg, PlacedView, PlacementError,
};
use crate::seqs::lemma_push_contains;
use vstd::prelude::*;

verus! {

/// The references that were not removed are listed once each, by their indices.
pub proof fn law_live_refs(refs: Seq<RefView>, n: int, r: usize)
    requires
        0 <= n <= refs.len() <= usize::MAX,
    ensures
        live_refs(refs, n).contains(EditorGraphIndex::Ref(r)) <==> r < n && refs[r as int].live,
        forall|i: int|
            0 <= i < live_refs(refs, n).len() ==> (#[trigger] live_refs(refs, n)[i] matches
                EditorGraphIndex::Ref(k) && k < n),
        forall|i: int, j: int|
            0 <= i < j < live_refs(refs, n).len() ==> (#[trigger] live_refs(refs, n)[i])->Ref_0 < (
            #[trigger] live_refs(refs, n)[j])->Ref_0,
    decreases n,
{
    if n > 0 {
        law_live_refs(refs, n - 1, r);
        let (before, all) = (live_refs(refs, n - 1), live_refs(refs, n));
        let own = EditorGraphIndex::Ref((n - 1) as usize);
        lemma_push_contains(before, own, EditorGraphIndex::Ref(r));
        assert forall|i: int| 0 <= i < all.len() implies (#[trigger] all[i] matches
            EditorGraphIndex::Ref(k) && k < n) by {
            if i < before.len() {
                assert(all[i] == before[i]);
            }
        }
        assert forall|i: int, j: int| 0 <= i < j < all.len() implies (#[trigger] all[i])->Ref_0 < (
        #[trigger] all[j])->Ref_0 by {
            if j < before.len() {
                assert(all[i] == before[i] && all[j] == before[j]);
            } else {
                assert(all[i] == before[i]);
            }
        }
    }
}

/// Whether this is where the reference sits: on the commit that it stands for, on the reference
/// underneath by its name, and approached through its legs by the ids of the commits that they come
/// from, in order.
pub open spec fn says_where(view: EditorView, ix: EditorGraphIndex, placed: PlacedView) -> bool {
    let rec = view.refs[ix->Ref_0 as int];
    &&& placed.name == rec.name
    &&& placed.mutable == rec.mutable
    &&& match view.position(ix) {
        None => placed.anchor is None && placed.below is None && !placed.ambiguous
            && placed.approach.len() == 0,
        Some(p) => {
            &&& view.seat(ix) matches Some(pick) && placed.anchor == view.commit_id(pick)
            &&& match p.below {
                Some(b) => view.is_reference(b) && placed.below == Some(
                    view.refs[b->Ref_0 as int].name,
                ),
                None => placed.below is None,
            }
            &&& placed.ambiguous == p.ambiguous
            &&& placed.approach.len() == view.approach(ix).len()
            &&& ordered::<CommitLeg>(placed.approach)
            &&& forall|l: CommitLeg| #[trigger]
                placed.approach.contains(l) <==> exists|leg: EditorLeg| #[trigger]
                    view.approach(ix).contains(leg) && l == (view.commit_id(leg.0)->0, leg.1)
        },
    }
}

proof fn lemma_says_where(view: EditorView, ix: EditorGraphIndex)
    requires
        placement_of(view, ix) is Ok,
    ensures
        says_where(view, ix, placement_of(view, ix)->Ok_0),
{
    let placed = placement_of(view, ix)->Ok_0;
    if view.position(ix) is Some {
        let own = view.approach(ix);
        let legs = commit_legs(view, own);
        crate::order::lemma_sorted::<CommitLeg>(legs);
        assert forall|l: CommitLeg| #[trigger] placed.approach.contains(l) <==> exists|
            leg: EditorLeg,
        | #[trigger] own.contains(leg) && l == (view.commit_id(leg.0)->0, leg.1) by {
            lemma_sorted_contains::<CommitLeg>(legs, l);
            if legs.contains(l) {
                let i = choose|i: int| 0 <= i < legs.len() && legs[i] == l;
                assert(own.contains(own[i]));
            }
            if exists|leg: EditorLeg| #[trigger]
                own.contains(leg) && l == (view.commit_id(leg.0)->0, leg.1) {
                let leg = choose|leg: EditorLeg| #[trigger]
                    own.contains(leg) && l == (view.commit_id(leg.0)->0, leg.1);
                let i = choose|i: int| 0 <= i < own.len() && own[i] == leg;
                assert(legs[i] == l);
            }
        }
    }
}

proof fn lemma_each_placed(view: EditorView, list: Seq<EditorGraphIndex>, n: int)
    requires
        0 <= n <= list.len(),
    ensures
        match placements_of(view, list, n) {
            Ok(refs) => refs.len() == n && forall|i: int|
                0 <= i < n ==> says_where(view, list[i], #[trigger] refs[i]) && placement_of(
                    view,
                    list[i],
                ) is Ok,
            Err(e) => exists|i: int|
                0 <= i < n && placement_of(view, #[trigger] list[i]) == Err::<
                    PlacedView,
                    PlacementError,
                >(e) && forall|j: int| 0 <= j < i ==> placement_of(view, #[trigger] list[j]) is Ok,
        },
    decreases n,
{
    if n > 0 {
        lemma_each_placed(view, list, n - 1);
        if let Ok(before) = placements_of(view, list, n - 1) {
            if placement_of(view, list[n - 1]) is Ok {
                lemma_says_where(view, list[n - 1]);
            } else {
                assert forall|j: int| 0 <= j < n - 1 implies placement_of(
                    view,
                    #[trigger] list[j],
                ) is Ok by {
                    assert(says_where(view, list[j], before[j]));
                }
                assert(0 <= n - 1 < n && placement_of(view, list[n - 1]) is Err);
            }
        } else {
            let e = placements_of(view, list, n - 1)->Err_0;
            let i = choose|i: int|
                0 <= i < n - 1 && placement_of(view, #[trigger] list[i]) == Err::<
                    PlacedView,
                    PlacementError,
                >(e) && forall|j: int| 0 <= j < i ==> placement_of(view, #[trigger] list[j]) is Ok;
            assert(0 <= i < n && placement_of(view, list[i]) is Err);
        }
    }
}

/// What is read off a graph has the references that were not removed, in the order of their indices,
/// each where it sits; the commits that may be rewritten; and the names of what is checked out.
pub proof fn law_ledger_of_graph(
    view: EditorView,
    checkouts: Seq<Checkout>,
    ws: Option<ObjectId>,
    id: ObjectId,
)
    requires
        ledger(view, checkouts, ws) is Ok,
    ensures
        ({
            let l = ledger(view, checkouts, ws)->Ok_0;
            let live = live_refs(view.refs, view.refs.len() as int);
            &&& l.refs.len() == live.len()
            &&& forall|i: int|
                0 <= i < live.len() ==> says_where(view, live[i], #[trigger] l.refs[i])
            &&& l.mutable_commits.contains(id) <==> exists|i: int|
                0 <= i < view.nodes.len() && (#[trigger] view.nodes[i].pick matches Some(pick)
                    && pick.mutable && pick.id == id)
            &&& l.head_refs.len() == checkouts.len()
            &&& forall|i: int|
                0 <= i < checkouts.len() ==> {
                    let Checkout::Head { selector, .. } = checkouts[i];
                    view.is_reference(selector.id) && #[trigger] l.head_refs[i]
                        == view.refs[selector.id->Ref_0 as int].name
                }
        }),
{
    let live = live_refs(view.refs, view.refs.len() as int);
    lemma_each_placed(view, live, live.len() as int);
    lemma_mutable_ids(view.nodes, view.nodes.len() as int, id);
    lemma_heads(view, checkouts, checkouts.len() as int);
}

/// The parents of the workspace commit are those that it has in the graph, by their ids; there are none
/// to be had exactly if there is no such commit in the graph.
pub proof fn law_workspace_parents_of_graph(
    view: EditorView,
    checkouts: Seq<Checkout>,
    ws: Option<ObjectId>,
    i: int,
)
    requires
        ledger(view, checkouts, ws) is Ok,
        view.nodes.len() <= usize::MAX,
        0 <= i < view.nodes.len(),
        view.nodes[i].pick matches Some(pick) && Some(pick.id) == ws,
        forall|j: int|
            0 <= j < i ==> !(#[trigger] view.nodes[j].pick matches Some(pick) && Some(pick.id)
                == ws),
    ensures
        ledger(view, checkouts, ws)->Ok_0.ws_parents matches Some(ids) && {
            &&& ids.len() == view.nodes[i].parents.len()
            &&& forall|k: int|
                0 <= k < ids.len() ==> view.commit_id(view.nodes[i].parents[k]) == Some(
                    #[trigger] ids[k],
                )
        },
{
    let id = ws->0;
    lemma_node_of(view.nodes, id, view.nodes.len() as int);
    assert(view.nodes[i].pick is Some);
    let parents = view.nodes[i].parents;
    lemma_parent_ids(view, parents, parents.len() as int);
}

/// Without a workspace commit in the graph, there are no parents of it to be had.
pub proof fn law_no_workspace_parents(
    view: EditorView,
    checkouts: Seq<Checkout>,
    ws: Option<ObjectId>,
)
    requires
        ledger(view, checkouts, ws) is Ok,
        view.nodes.len() <= usize::MAX,
        forall|j: int|
            0 <= j < view.nodes.len() ==> !(#[trigger] view.nodes[j].pick matches Some(pick)
                && Some(pick.id) == ws),
    ensures
        ledger(view, checkouts, ws)->Ok_0.ws_parents is None,
{
    if let Some(id) = ws {
        lemma_node_of(view.nodes, id, view.nodes.len() as int);
    }
}

/// A graph that cannot be read off has a reference whose commit is gone, or that sits on something that
/// is no reference any more; or something else than a reference is to be checked out; or a parent of
/// the workspace commit is no commit. Which of these it is said to be, it is; and each reference is
/// looked at before what is checked out, and that before the workspace commit.
pub proof fn law_ledger_fails_truly(
    view: EditorView,
    checkouts: Seq<Checkout>,
    ws: Option<ObjectId>,
)
    requires
        view.nodes.len() <= usize::MAX,
    ensures
        ({
            let live = live_refs(view.refs, view.refs.len() as int);
            let lost = |ix: EditorGraphIndex|
                view.position(ix) is Some && view.seat(ix) is None;
            let hangs = |ix: EditorGraphIndex|
                view.below(ix) matches Some(b) && !view.is_reference(b);
            let bad_ref = exists|i: int|
                #![trigger live[i]]
                0 <= i < live.len() && (lost(live[i]) || hangs(live[i]));
            let bad_head = exists|i: int|
                0 <= i < checkouts.len() && !view.is_reference(
                    (#[trigger] checkouts[i])->selector.id,
                );
            match ledger(view, checkouts, ws) {
                Ok(_) => !bad_ref && !bad_head,
                Err(PlacementError::Unresolved) => exists|i: int|
                    #![trigger live[i]]
                    0 <= i < live.len() && lost(live[i]),
                Err(PlacementError::DeadBelow) => exists|i: int|
                    #![trigger live[i]]
                    0 <= i < live.len() && !lost(live[i]) && hangs(live[i]),
                Err(PlacementError::CheckoutNotARef) => !bad_ref && bad_head,
                Err(PlacementError::ParentNotAPick) => !bad_ref && !bad_head && exists|
                    i: int,
                    k: int,
                |
                    0 <= i < view.nodes.len() && 0 <= k < view.nodes[i].parents.len() && (
                    view.nodes[i].pick matches Some(pick) && Some(pick.id) == ws)
                        && view.commit_id(#[trigger] view.nodes[i].parents[k]) is None,
                Err(PlacementError::DuplicatePick(_)) => false,
            }
        }),
{
    let live = live_refs(view.refs, view.refs.len() as int);
    let n = live.len() as int;
    lemma_each_placed(view, live, n);
    lemma_heads(view, checkouts, checkouts.len() as int);
    match placements_of(view, live, n) {
        Ok(refs) => {
            assert forall|i: int| #![trigger live[i]] 0 <= i < n implies !(view.position(
                live[i],
            ) is Some && view.seat(live[i]) is None) && !(view.below(live[i]) matches Some(b)
                && !view.is_reference(b)) by {
                assert(says_where(view, live[i], refs[i]));
            }
            if head_names(view, checkouts, checkouts.len() as int) is Ok {
                if let Some(id) = ws {
                    lemma_node_of(view.nodes, id, view.nodes.len() as int);
                    if let Some(m) = node_of(view.nodes, id, view.nodes.len() as int) {
                        let parents = view.nodes[m as int].parents;
                        lemma_parent_ids(view, parents, parents.len() as int);
                        if parent_ids(view, parents, parents.len() as int) is Err {
                            let k = choose|k: int|
                                0 <= k < parents.len() && view.commit_id(
                                    #[trigger] parents[k],
                                ) is None;
                            assert(view.commit_id(view.nodes[m as int].parents[k]) is None);
                        }
                    }
                }
            }
        },
        Err(e) => {
            let i = choose|i: int|
                0 <= i < n && placement_of(view, #[trigger] live[i]) == Err::<
                    PlacedView,
                    PlacementError,
                >(e) && forall|j: int| 0 <= j < i ==> placement_of(view, #[trigger] live[j]) is Ok;
            assert(placement_of(view, live[i]) is Err);
        },
    }
}

proof fn lemma_mutable_ids(nodes: Seq<NodeView>, n: int, id: ObjectId)
    requires
        0 <= n <= nodes.len(),
    ensures
        mutable_ids(nodes, n).contains(id) <==> exists|i: int|
            0 <= i < n && (#[trigger] nodes[i].pick matches Some(pick) && pick.mutable && pick.id
                == id),
    decreases n,
{
    if n > 0 {
        lemma_mutable_ids(nodes, n - 1, id);
        if mutable_ids(nodes, n - 1).contains(id) {
            let i = choose|i: int|
                0 <= i < n - 1 && (#[trigger] nodes[i].pick matches Some(pick) && pick.mutable
                    && pick.id == id);
            assert(nodes[i].pick is Some);
        } else if mutable_ids(nodes, n).contains(id) {
            assert(nodes[n - 1].pick is Some);
        }
    }
}

proof fn lemma_heads(view: EditorView, checkouts: Seq<Checkout>, n: int)
    requires
        0 <= n <= checkouts.len(),
    ensures
        match head_names(view, checkouts, n) {
            Ok(names) => names.len() == n && forall|i: int|
                #![trigger names[i]]
                #![trigger checkouts[i]]
                0 <= i < n ==> view.is_reference(checkouts[i]->selector.id) && names[i]
                    == view.refs[checkouts[i]->selector.id->Ref_0 as int].name,
            Err(e) => e == PlacementError::CheckoutNotARef && exists|i: int|
                0 <= i < n && !view.is_reference((#[trigger] checkouts[i])->selector.id),
        },
    decreases n,
{
    if n > 0 {
        lemma_heads(view, checkouts, n - 1);
        if head_names(view, checkouts, n - 1) is Ok {
            if live_name(view, checkouts[n - 1]->selector.id) is None {
                assert(!view.is_reference(checkouts[n - 1]->selector.id));
            }
        } else {
            let i = choose|i: int|
                0 <= i < n - 1 && !view.is_reference((#[trigger] checkouts[i])->selector.id);
            assert(!view.is_reference(checkouts[i]->selector.id));
        }
    }
}

proof fn lemma_node_of(nodes: Seq<NodeView>, id: ObjectId, n: int)
    requires
        0 <= n <= nodes.len() <= usize::MAX,
    ensures
        match node_of(nodes, id, n) {
            Some(m) => m < n && (nodes[m as int].pick matches Some(pick) && pick.id == id)
                && forall|j: int|
                0 <= j < m ==> !(#[trigger] nodes[j].pick matches Some(pick) && pick.id == id),
            None => forall|j: int|
                0 <= j < n ==> !(#[trigger] nodes[j].pick matches Some(pick) && pick.id == id),
        },
    decreases n,
{
    if n > 0 {
        lemma_node_of(nodes, id, n - 1);
    }
}

proof fn lemma_parent_ids(view: EditorView, parents: Seq<EditorGraphIndex>, n: int)
    requires
        0 <= n <= parents.len(),
    ensures
        match parent_ids(view, parents, n) {
            Ok(ids) => ids.len() == n && forall|k: int|
                #![trigger ids[k]]
                #![trigger parents[k]]
                0 <= k < n ==> view.commit_id(parents[k]) == Some(ids[k]),
            Err(e) => e == PlacementError::ParentNotAPick && exists|k: int|
                0 <= k < n && view.commit_id(#[trigger] parents[k]) is None,
        },
    decreases n,
{
    if n > 0 {
        lemma_parent_ids(view, parents, n - 1);
        if parent_ids(view, parents, n - 1) is Ok {
            if view.commit_id(parents[n - 1]) is None {
                assert(0 <= n - 1 < n);
            }
        } else {
            let k = choose|k: int|
                0 <= k < n - 1 && view.commit_id(#[trigger] parents[k]) is None;
            assert(view.commit_id(parents[k]) is None);
        }
    }
}

/// Whether the commit at `i` is this one, with the ids of its parents.
pub open spec fn is_pick_of(view: EditorView, i: int, pick: CanonicalPickView) -> bool {
    &&& view.nodes[i].pick == Some(pick.pick)
    &&& pick.parent_ids.len() == view.nodes[i].parents.len()
    &&& forall|k: int|
        0 <= k < pick.parent_ids.len() ==> view.commit_id(view.nodes[i].parents[k]) == Some(
            #[trigger] pick.parent_ids[k],
        )
}

/// The commits by their ids are all commits of the graph, each with the ids of its parents. They cannot
/// be had where a parent of a commit is no commit, or a commit is there twice.
#[verifier::rlimit(40)]
pub proof fn law_canonical_picks(view: EditorView, n: int)
    requires
        0 <= n <= view.nodes.len(),
    ensures
        match picks_of(view, n) {
            Ok(picks) => {
                &&& forall|i: int|
                    #![trigger view.nodes[i]]
                    0 <= i < n && view.nodes[i].pick is Some ==> {
                        let id = view.nodes[i].pick->0.id;
                        picks.dom().contains(id) && is_pick_of(view, i, picks[id])
                    }
                &&& forall|id: ObjectId| #[trigger]
                    picks.dom().contains(id) ==> exists|i: int|
                        0 <= i < n && (#[trigger] view.nodes[i]).pick is Some
                            && view.nodes[i].pick->0.id == id
                &&& forall|i: int, j: int|
                    0 <= i < j < n && (#[trigger] view.nodes[i]).pick is Some && (
                    #[trigger] view.nodes[j]).pick is Some ==> view.nodes[i].pick->0.id
                        != view.nodes[j].pick->0.id
            },
            Err(PlacementError::DuplicatePick(id)) => exists|i: int, j: int|
                0 <= i < j < n && (#[trigger] view.nodes[i]).pick is Some && (
                #[trigger] view.nodes[j]).pick is Some && view.nodes[i].pick->0.id == id
                    && view.nodes[j].pick->0.id == id,
            Err(e) => e == PlacementError::ParentNotAPick && exists|i: int, k: int|
                0 <= i < n && view.nodes[i].pick is Some && 0 <= k < view.nodes[i].parents.len()
                    && view.commit_id(#[trigger] view.nodes[i].parents[k]) is None,
        },
    decreases n,
{
    if n > 0 {
        law_canonical_picks(view, n - 1);
        let node = view.nodes[n - 1];
        match picks_of(view, n - 1) {
            Ok(before) => {
                if let Some(pick) = node.pick {
                    lemma_parent_ids(view, node.parents, node.parents.len() as int);
                    match parent_ids(view, node.parents, node.parents.len() as int) {
                        Err(_) => {
                            let k = choose|k: int|
                                0 <= k < node.parents.len() && view.commit_id(
                                    #[trigger] node.parents[k],
                                ) is None;
                            assert(view.commit_id(view.nodes[n - 1].parents[k]) is None);
                        },
                        Ok(ids) => {
                            if before.dom().contains(pick.id) {
                                let i = choose|i: int|
                                    0 <= i < n - 1 && (#[trigger] view.nodes[i]).pick is Some
                                        && view.nodes[i].pick->0.id == pick.id;
                                assert(view.nodes[n - 1].pick is Some && view.nodes[i].pick is Some);
                            } else {
                                let picks = picks_of(view, n)->Ok_0;
                                assert forall|i: int|
                                    #![trigger view.nodes[i]]
                                    0 <= i < n && view.nodes[i].pick is Some implies {
                                    let id = view.nodes[i].pick->0.id;
                                    picks.dom().contains(id) && is_pick_of(view, i, picks[id])
                                } by {
                                    if i < n - 1 {
                                        assert(before.dom().contains(view.nodes[i].pick->0.id));
                                    }
                                }
                                assert forall|id: ObjectId| #[trigger]
                                    picks.dom().contains(id) implies exists|i: int|
                                    0 <= i < n && (#[trigger] view.nodes[i]).pick is Some
                                        && view.nodes[i].pick->0.id == id by {
                                    if before.dom().contains(id) {
                                        let i = choose|i: int|
                                            0 <= i < n - 1 && (
                                            #[trigger] view.nodes[i]).pick is Some
                                                && view.nodes[i].pick->0.id == id;
                                        assert(view.nodes[i].pick is Some);
                                    } else {
                                        assert(view.nodes[n - 1].pick is Some);
                                    }
                                }
                            }
                        },
                    }
                } else {
                    assert forall|id: ObjectId| #[trigger]
                        before.dom().contains(id) implies exists|i: int|
                        0 <= i < n && (#[trigger] view.nodes[i]).pick is Some
                            && view.nodes[i].pick->0.id == id by {
                        let i = choose|i: int|
                            0 <= i < n - 1 && (#[trigger] view.nodes[i]).pick is Some
                                && view.nodes[i].pick->0.id == id;
                        assert(view.nodes[i].pick is Some);
                    }
                }
            },
            Err(PlacementError::DuplicatePick(id)) => {
                let (i, j) = choose|i: int, j: int|
                    0 <= i < j < n - 1 && (#[trigger] view.nodes[i]).pick is Some && (
                    #[trigger] view.nodes[j]).pick is Some && view.nodes[i].pick->0.id == id
                        && view.nodes[j].pick->0.id == id;
                assert(view.nodes[i].pick is Some && view.nodes[j].pick is Some);
            },
            Err(_) => {
                let (i, k) = choose|i: int, k: int|
                    0 <= i < n - 1 && view.nodes[i].pick is Some && 0 <= k
                        < view.nodes[i].parents.len() && view.commit_id(
                        #[trigger] view.nodes[i].parents[k],
                    ) is None;
                assert(view.commit_id(view.nodes[i].parents[k]) is None);
            },
        }
    }
}

} // verus!
