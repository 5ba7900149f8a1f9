//! What is read off a graph: the legs into a node, how a reference is approached, who shares its place,
//! and what two readings differ in.

use crate::approach_laws::lemma_leads;
use crate::creation_laws::{lemma_legs_among, parents_fit};
use crate::editor_graph::{
    approach_carry, approach_legs, legs_among, legs_from, EditorGraphIndex, EditorLeg, EditorView,
    NodeView, RefPosition,
};
use crate::lanes::{lane_of, LaneCarry};
use crate::names::ObjectId;
use crate::order::{ascending, lemma_ascending_of_set};
use crate::placements::{
    diverges, not_among, outside, picked_otherwise, placed_view, CanonicalPickView,
    LedgerDivergence, PlacedView, PlacementsView,
};
use crate::seqs::lemma_filter_contains;
use vstd::prelude::*;

verus! {

/// Whether the leg comes before the other: it is from an earlier child, or from an earlier parent slot
/// of the same one.
pub open spec fn comes_before(a: EditorLeg, b: EditorLeg) -> bool {
    a.0 matches EditorGraphIndex::Node(c) && b.0 matches EditorGraphIndex::Node(d) && (c < d || c
        == d && a.1 < b.1)
}

/// The legs into a node are the parent slots that hold it, those of an earlier child first.
pub proof fn law_incoming(v: EditorView, node: EditorGraphIndex, leg: EditorLeg)
    requires
        v.fits(),
        parents_fit(v.nodes),
    ensures
        v.incoming(node).contains(leg) <==> (leg.0 matches EditorGraphIndex::Node(c) && c
            < v.nodes.len() && leg.1 < v.nodes[c as int].parents.len()
            && v.nodes[c as int].parents[leg.1 as int] == node),
        forall|i: int, j: int|
            0 <= i < j < v.incoming(node).len() ==> comes_before(
                #[trigger] v.incoming(node)[i],
                #[trigger] v.incoming(node)[j],
            ),
{
    lemma_legs_among(v.nodes, node, v.nodes.len() as int);
    lemma_in_order(v.nodes, node, v.nodes.len() as int);
}

proof fn lemma_in_order(nodes: Seq<NodeView>, node: EditorGraphIndex, n: int)
    requires
        0 <= n <= nodes.len() <= usize::MAX,
        parents_fit(nodes),
    ensures
        forall|i: int, j: int|
            0 <= i < j < legs_among(nodes, node, n).len() ==> comes_before(
                #[trigger] legs_among(nodes, node, n)[i],
                #[trigger] legs_among(nodes, node, n)[j],
            ),
        forall|i: int|
            0 <= i < legs_among(nodes, node, n).len() ==> ((#[trigger] legs_among(
                nodes,
                node,
                n,
            )[i]).0 matches EditorGraphIndex::Node(c) && c < n),
    decreases n,
{
    if n > 0 {
        lemma_in_order(nodes, node, n - 1);
        assert(nodes[n - 1].parents.len() <= usize::MAX);
        let m = nodes[n - 1].parents.len() as int;
        lemma_slots_in_order(nodes, n - 1, node, m);
        let (before, own) = (legs_among(nodes, node, n - 1), legs_from(nodes, n - 1, node, m));
        let all = before + own;
        assert forall|i: int, j: int| 0 <= i < j < all.len() implies comes_before(
            #[trigger] all[i],
            #[trigger] all[j],
        ) by {
            if j < before.len() {
                assert(all[i] == before[i] && all[j] == before[j]);
            } else if i < before.len() {
                assert(all[i] == before[i] && all[j] == own[j - before.len()]);
            } else {
                assert(all[i] == own[i - before.len()] && all[j] == own[j - before.len()]);
            }
        }
        assert forall|i: int| 0 <= i < all.len() implies ((#[trigger] all[i]).0 matches
            EditorGraphIndex::Node(c) && c < n) by {
            if i < before.len() {
                assert(all[i] == before[i]);
            } else {
                assert(all[i] == own[i - before.len()]);
            }
        }
    }
}

proof fn lemma_slots_in_order(nodes: Seq<NodeView>, child: int, node: EditorGraphIndex, n: int)
    requires
        0 <= child <= usize::MAX,
        0 <= n <= nodes[child].parents.len() <= usize::MAX,
    ensures
        forall|i: int, j: int|
            0 <= i < j < legs_from(nodes, child, node, n).len() ==> comes_before(
                #[trigger] legs_from(nodes, child, node, n)[i],
                #[trigger] legs_from(nodes, child, node, n)[j],
            ),
        forall|i: int|
            0 <= i < legs_from(nodes, child, node, n).len() ==> (#[trigger] legs_from(
                nodes,
                child,
                node,
                n,
            )[i]).0 == EditorGraphIndex::Node(child as usize) && legs_from(
                nodes,
                child,
                node,
                n,
            )[i].1 < n,
    decreases n,
{
    if n > 0 {
        lemma_slots_in_order(nodes, child, node, n - 1);
    }
}

/// The legs into a node that count are those from commits; those onto a place are those into the commit
/// that it stands for.
pub proof fn law_counted_legs(v: EditorView, node: EditorGraphIndex, leg: EditorLeg)
    requires
        v.fits(),
        parents_fit(v.nodes),
    ensures
        v.legs_into(node).contains(leg) <==> v.incoming(node).contains(leg) && (leg.0 matches
            EditorGraphIndex::Node(c) && v.nodes[c as int].pick is Some),
        v.legs_onto(node).contains(leg) <==> (v.resolve(node) matches Some(pick) && v.incoming(
            pick,
        ).contains(leg) && (leg.0 matches EditorGraphIndex::Node(c)
            && v.nodes[c as int].pick is Some)),
{
    law_incoming(v, node, leg);
    lemma_leads(v, node, leg);
    if let Some(pick) = v.resolve(node) {
        law_incoming(v, pick, leg);
        lemma_leads(v, pick, leg);
    }
}

/// A reference is approached through those legs onto its place that its lane carries: none, all of them,
/// or those that it names.
pub proof fn law_approach(v: EditorView, ix: EditorGraphIndex, leg: EditorLeg)
    ensures
        v.approach(ix).contains(leg) <==> (v.position(ix) matches Some(p) && v.legs_onto(
            p.on,
        ).contains(leg) && (lane_of(v.lanes, p.on, ix) matches Some(lane) && match lane.carry {
            LaneCarry::Nothing => false,
            LaneCarry::All => true,
            LaneCarry::Count(_) => lane.legs.contains(leg),
        })),
{
    if let Some(p) = v.position(ix) {
        if let Some(lane) = lane_of(v.lanes, p.on, ix) {
            lemma_filter_contains(v.legs_onto(p.on), |l: EditorLeg| lane.legs.contains(l), leg);
        }
    }
}

/// What a lane is said to carry is what it was made for: the legs of the approach, and no others. It
/// carries all legs only where the approach has them all, and names legs only where it has some.
pub proof fn law_classified(approach: Seq<EditorLeg>, legs: Seq<EditorLeg>, leg: EditorLeg)
    requires
        approach.len() <= usize::MAX,
    ensures
        ({
            let (carry, named) = (approach_carry(approach, legs), approach_legs(approach, legs));
            &&& approach.contains(leg) <==> match carry {
                LaneCarry::Nothing => false,
                LaneCarry::All => legs.contains(leg),
                LaneCarry::Count(_) => named.contains(leg),
            }
            &&& carry is Nothing <==> approach.len() == 0
            &&& carry matches LaneCarry::Count(n) ==> n == approach.len() && named == approach
            &&& !(carry is Count) ==> named.len() == 0
            &&& carry is Count ==> exists|l: EditorLeg|
                approach.contains(l) != #[trigger] legs.contains(l)
        }),
{
    if approach_carry(approach, legs) is Count {
        let l = choose|l: EditorLeg| #[trigger] approach.contains(l) != legs.contains(l);
        assert(approach.contains(l) != legs.contains(l));
    }
}

/// The references that sit somewhere are listed, each once, with where they sit.
pub proof fn law_placed(v: EditorView, ix: EditorGraphIndex, p: RefPosition)
    requires
        v.fits(),
    ensures
        v.placed().contains((ix, p)) <==> (ix matches EditorGraphIndex::Ref(r) && r < v.refs.len()
            && v.refs[r as int].position == Some(p)),
        forall|i: int, j: int|
            0 <= i < j < v.placed().len() ==> (#[trigger] v.placed()[i]).0->Ref_0 < (
            #[trigger] v.placed()[j]).0->Ref_0,
{
    v.lemma_placed();
    crate::editor_graph::lemma_placed_refs(v.refs, v.refs.len() as int);
    if v.placed().contains((ix, p)) {
        let i = choose|i: int| 0 <= i < v.placed().len() && v.placed()[i] == (ix, p);
        assert(v.position(v.placed()[i].0) == Some(v.placed()[i].1));
    }
    if v.position(ix) == Some(p) {
        assert(v.placed().contains((ix, v.position(ix)->0)));
    }
}

/// The references on a commit are those that stand for it; the chain of a reference is those that are on
/// its commit and approached as it is, itself among them.
pub proof fn law_chain(
    v: EditorView,
    node: EditorGraphIndex,
    ix: EditorGraphIndex,
    p: RefPosition,
)
    requires
        v.fits(),
    ensures
        v.seated(node).contains((ix, p)) <==> v.position(ix) == Some(p) && v.resolve(p.on) == Some(
            node,
        ),
        v.chain(node).contains((ix, p)) <==> v.position(ix) == Some(p) && (v.position(
            node,
        ) matches Some(own) && v.resolve(p.on) == v.resolve(own.on) && v.approach(ix) == v.approach(
            node,
        )),
        v.position(node) matches Some(own) ==> v.chain(node).contains((node, own)),
{
    law_placed(v, ix, p);
    lemma_filter_contains(
        v.placed(),
        |m: (EditorGraphIndex, RefPosition)| v.resolve(m.1.on) == Some(node),
        (ix, p),
    );
    if let Some(own) = v.position(node) {
        let keep = |m: (EditorGraphIndex, RefPosition)|
            v.approach(m.0) == v.approach(node) && v.resolve(m.1.on) == v.resolve(own.on);
        lemma_filter_contains(v.placed(), keep, (ix, p));
        law_placed(v, node, own);
        lemma_filter_contains(v.placed(), keep, (node, own));
    }
}

/// What two ledgers are said to differ in is what one has and the other has not: of the references, by all
/// that is said of them, and of the commits that may be rewritten.
pub proof fn law_ledger_divergence(
    d: LedgerDivergence,
    a: PlacementsView,
    b: PlacementsView,
    x: PlacedView,
    id: ObjectId,
)
    requires
        diverges(d, a, b),
        a.mutable_commits.finite(),
        b.mutable_commits.finite(),
    ensures
        placed_view(d.first_only@).contains(x) <==> a.refs.contains(x) && !b.refs.contains(x),
        placed_view(d.second_only@).contains(x) <==> b.refs.contains(x) && !a.refs.contains(x),
        d.first_mutable@.contains(id) <==> a.mutable_commits.contains(id)
            && !b.mutable_commits.contains(id),
        d.second_mutable@.contains(id) <==> b.mutable_commits.contains(id)
            && !a.mutable_commits.contains(id),
{
    lemma_filter_contains(a.refs, not_among(b.refs), x);
    lemma_filter_contains(b.refs, not_among(a.refs), x);
    lemma_ascending_of_set::<ObjectId>(a.mutable_commits);
    lemma_ascending_of_set::<ObjectId>(b.mutable_commits);
    lemma_filter_contains(
        ascending::<ObjectId>(a.mutable_commits),
        outside(b.mutable_commits),
        id,
    );
    lemma_filter_contains(
        ascending::<ObjectId>(b.mutable_commits),
        outside(a.mutable_commits),
        id,
    );
    assert(ascending::<ObjectId>(a.mutable_commits).to_set().contains(id)
        <==> a.mutable_commits.contains(id));
    assert(ascending::<ObjectId>(b.mutable_commits).to_set().contains(id)
        <==> b.mutable_commits.contains(id));
}

/// A commit is said to be picked otherwise if it is picked here and not there, or not alike.
pub proof fn law_picked_otherwise(
    a: Map<ObjectId, CanonicalPickView>,
    b: Map<ObjectId, CanonicalPickView>,
    id: ObjectId,
)
    requires
        a.dom().finite(),
    ensures
        ascending::<ObjectId>(a.dom()).filter(picked_otherwise(a, b)).contains(id)
            <==> a.dom().contains(id) && (b.dom().contains(id) ==> a[id] != b[id]),
{
    lemma_ascending_of_set::<ObjectId>(a.dom());
    lemma_filter_contains(ascending::<ObjectId>(a.dom()), picked_otherwise(a, b), id);
    assert(ascending::<ObjectId>(a.dom()).to_set().contains(id) <==> a.dom().contains(id));
}

} // verus!
