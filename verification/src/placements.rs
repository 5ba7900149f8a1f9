//! The ledger of where references are placed, by the ids of commits and the names of references
//! instead of indices.

use crate::collections::{SortedMap, SortedSet};
use crate::commit::{clone_opt_name, names_view, opt_name, same_ids, same_opt_name};
use crate::editor_graph::{
    live_refs, EditorGraph, EditorGraphIndex, EditorLeg, EditorView, NodeView,
};
use crate::graph_diff::same_id_sets;
use crate::lanes::{clone_legs, same_legs, sort_legs};
use crate::names::{ObjectId, RefName};
use crate::order::{ascending, sorted};
use crate::positions::{ref_approach, resolve_to_pick};
use crate::seqs::{lemma_filter_none, lemma_filter_take, lemma_take_all};
use crate::step::{opt_ids, same_opt_ids, Pick, PickView};
use vstd::prelude::*;
use vstd::string::*;

verus! {

/// A leg into a commit, by the id of the commit that it comes from.
pub type CommitLeg = (ObjectId, usize);

/// A reference, by ids and names.
#[derive(Debug)]
pub struct PlacedRef {
    /// The name of the reference.
    pub name: RefName,
    /// Whether the reference may be moved.
    pub mutable: bool,
    /// The commit that the reference sits on, if it sits somewhere.
    pub anchor: Option<ObjectId>,
    /// The name of the reference directly underneath.
    pub below: Option<RefName>,
    /// Whether more than one thing converged on the position.
    pub ambiguous: bool,
    /// The legs that descend into the position, ascending.
    pub approach: Vec<CommitLeg>,
}

/// What a [`PlacedRef`] stands for.
#[verifier::ext_equal]
pub struct PlacedView {
    /// The name of the reference.
    pub name: Seq<u8>,
    /// Whether the reference may be moved.
    pub mutable: bool,
    /// The commit that the reference sits on, if it sits somewhere.
    pub anchor: Option<ObjectId>,
    /// The name of the reference directly underneath.
    pub below: Option<Seq<u8>>,
    /// Whether more than one thing converged on the position.
    pub ambiguous: bool,
    /// The legs that descend into the position, ascending.
    pub approach: Seq<CommitLeg>,
}

impl View for PlacedRef {
    type V = PlacedView;

    open spec fn view(&self) -> PlacedView {
        PlacedView {
            name: self.name@,
            mutable: self.mutable,
            anchor: self.anchor,
            below: opt_name(self.below),
            ambiguous: self.ambiguous,
            approach: self.approach@,
        }
    }
}

/// What the references stand for.
pub open spec fn placed_view(refs: Seq<PlacedRef>) -> Seq<PlacedView> {
    refs.map_values(|r: PlacedRef| r@)
}

impl Clone for PlacedRef {
    fn clone(&self) -> (r: Self)
        ensures
            r@ == self@,
    {
        PlacedRef {
            name: self.name.clone(),
            mutable: self.mutable,
            anchor: self.anchor,
            below: clone_opt_name(&self.below),
            ambiguous: self.ambiguous,
            approach: clone_legs(&self.approach),
        }
    }
}

impl PlacedRef {
    /// Whether both are the same reference, placed the same way.
    pub fn same(&self, other: &PlacedRef) -> (r: bool)
        ensures
            r == (self@ == other@),
    {
        self.name.same(&other.name) && self.mutable == other.mutable && self.anchor == other.anchor
            && same_opt_name(&self.below, &other.below) && self.ambiguous == other.ambiguous
            && same_legs(&self.approach, &other.approach)
    }
}

/// The ledger: the references in the order in which they are added, and what is known beside them.
pub struct RefPlacements {
    /// The references.
    pub refs: Vec<PlacedRef>,
    /// The commits that may be rewritten.
    pub mutable_commits: SortedSet<ObjectId>,
    /// The names of the references that are checked out.
    pub head_refs: Vec<RefName>,
    /// The parents of the managed workspace commit, one for each lane.
    pub ws_parents: Option<Vec<ObjectId>>,
}

/// What [`RefPlacements`] stand for.
#[verifier::ext_equal]
pub struct PlacementsView {
    /// The references.
    pub refs: Seq<PlacedView>,
    /// The commits that may be rewritten.
    pub mutable_commits: Set<ObjectId>,
    /// The names of the references that are checked out.
    pub head_refs: Seq<Seq<u8>>,
    /// The parents of the managed workspace commit, one for each lane.
    pub ws_parents: Option<Seq<ObjectId>>,
}

impl View for RefPlacements {
    type V = PlacementsView;

    open spec fn view(&self) -> PlacementsView {
        PlacementsView {
            refs: placed_view(self.refs@),
            mutable_commits: self.mutable_commits@,
            head_refs: names_view(self.head_refs@),
            ws_parents: opt_ids(self.ws_parents),
        }
    }
}

/// A step of the graph that is selected.
#[derive(Debug, Clone, Copy, PartialEq, Eq, Structural)]
pub struct Selector {
    /// The index of the step.
    pub id: EditorGraphIndex,
}

/// Something to check out.
#[derive(Debug, Clone, Copy, PartialEq, Eq, Structural)]
pub enum Checkout {
    /// What `HEAD` is to be.
    Head {
        /// The step that `HEAD` is to be at.
        selector: Selector,
        /// The commit to take for the merge base.
        merge_base_override: Option<ObjectId>,
    },
}

/// Why a graph has no ledger.
#[derive(Debug, Clone, Copy, PartialEq, Eq, Structural)]
pub enum PlacementError {
    /// A reference sits on something that stands for no commit.
    Unresolved,
    /// What is underneath a reference is not a reference, or one that was removed.
    DeadBelow,
    /// What is to be checked out is not a reference, or one that was removed.
    CheckoutNotARef,
    /// A parent of a commit is not a commit.
    ParentNotAPick,
    /// A commit is in the graph twice.
    DuplicatePick(ObjectId),
}

/// The name of the reference, which has to be one that was not removed.
pub open spec fn live_name(view: EditorView, ix: EditorGraphIndex) -> Option<Seq<u8>> {
    if view.is_reference(ix) {
        Some(view.refs[ix->Ref_0 as int].name)
    } else {
        None
    }
}

/// The legs by the ids of the commits that they come from.
pub open spec fn commit_legs(view: EditorView, legs: Seq<EditorLeg>) -> Seq<CommitLeg> {
    legs.map_values(|l: EditorLeg| (view.commit_id(l.0)->0, l.1))
}

/// The reference by ids and names.
pub open spec fn placement_of(view: EditorView, ix: EditorGraphIndex) -> Result<
    PlacedView,
    PlacementError,
> {
    let rec = view.refs[ix->Ref_0 as int];
    match view.position(ix) {
        None => Ok(
            PlacedView {
                name: rec.name,
                mutable: rec.mutable,
                anchor: None,
                below: None,
                ambiguous: false,
                approach: Seq::empty(),
            },
        ),
        Some(stored) => match view.resolve(stored.on) {
            None => Err(PlacementError::Unresolved),
            Some(pick) => if stored.below matches Some(b) && live_name(view, b) is None {
                Err(PlacementError::DeadBelow)
            } else {
                Ok(
                    PlacedView {
                        name: rec.name,
                        mutable: rec.mutable,
                        anchor: view.commit_id(pick),
                        below: match stored.below {
                            Some(b) => live_name(view, b),
                            None => None,
                        },
                        ambiguous: stored.ambiguous,
                        approach: sorted::<CommitLeg>(commit_legs(view, view.approach(ix))),
                    },
                )
            },
        },
    }
}

/// The first `n` references of the list by ids and names.
pub open spec fn placements_of(view: EditorView, list: Seq<EditorGraphIndex>, n: int) -> Result<
    Seq<PlacedView>,
    PlacementError,
>
    decreases n,
{
    if n <= 0 {
        Ok(Seq::empty())
    } else {
        match placements_of(view, list, n - 1) {
            Err(e) => Err(e),
            Ok(before) => match placement_of(view, list[n - 1]) {
                Err(e) => Err(e),
                Ok(placed) => Ok(before.push(placed)),
            },
        }
    }
}

/// The ids of those of the first `n` commits that may be rewritten.
pub open spec fn mutable_ids(nodes: Seq<NodeView>, n: int) -> Set<ObjectId>
    decreases n,
{
    if n <= 0 {
        Set::empty()
    } else {
        let before = mutable_ids(nodes, n - 1);
        match nodes[n - 1].pick {
            Some(pick) => if pick.mutable {
                before.insert(pick.id)
            } else {
                before
            },
            None => before,
        }
    }
}

/// The names of the first `n` references that are checked out.
pub open spec fn head_names(view: EditorView, checkouts: Seq<Checkout>, n: int) -> Result<
    Seq<Seq<u8>>,
    PlacementError,
>
    decreases n,
{
    if n <= 0 {
        Ok(Seq::empty())
    } else {
        match head_names(view, checkouts, n - 1) {
            Err(e) => Err(e),
            Ok(before) => {
                let Checkout::Head { selector, .. } = checkouts[n - 1];
                match live_name(view, selector.id) {
                    Some(name) => Ok(before.push(name)),
                    None => Err(PlacementError::CheckoutNotARef),
                }
            },
        }
    }
}

/// The ids of the first `n` parents.
pub open spec fn parent_ids(view: EditorView, parents: Seq<EditorGraphIndex>, n: int) -> Result<
    Seq<ObjectId>,
    PlacementError,
>
    decreases n,
{
    if n <= 0 {
        Ok(Seq::empty())
    } else {
        match parent_ids(view, parents, n - 1) {
            Err(e) => Err(e),
            Ok(before) => match view.commit_id(parents[n - 1]) {
                Some(id) => Ok(before.push(id)),
                None => Err(PlacementError::ParentNotAPick),
            },
        }
    }
}

/// The first of the first `n` nodes that is the commit `id`.
pub open spec fn node_of(nodes: Seq<NodeView>, id: ObjectId, n: int) -> Option<usize>
    decreases n,
{
    if n <= 0 {
        None
    } else {
        match node_of(nodes, id, n - 1) {
            Some(i) => Some(i),
            None => match nodes[n - 1].pick {
                Some(pick) => if pick.id == id {
                    Some((n - 1) as usize)
                } else {
                    None
                },
                None => None,
            },
        }
    }
}

/// The parents of the workspace commit, if the graph has it.
pub open spec fn ws_parent_ids(view: EditorView, ws: Option<ObjectId>) -> Result<
    Option<Seq<ObjectId>>,
    PlacementError,
> {
    match ws {
        None => Ok(None),
        Some(id) => match node_of(view.nodes, id, view.nodes.len() as int) {
            None => Ok(None),
            Some(n) => {
                let parents = view.nodes[n as int].parents;
                match parent_ids(view, parents, parents.len() as int) {
                    Ok(ids) => Ok(Some(ids)),
                    Err(e) => Err(e),
                }
            },
        },
    }
}

/// The ledger of the graph.
pub open spec fn ledger(
    view: EditorView,
    checkouts: Seq<Checkout>,
    ws: Option<ObjectId>,
) -> Result<PlacementsView, PlacementError> {
    let live = live_refs(view.refs, view.refs.len() as int);
    match placements_of(view, live, live.len() as int) {
        Err(e) => Err(e),
        Ok(refs) => match head_names(view, checkouts, checkouts.len() as int) {
            Err(e) => Err(e),
            Ok(head_refs) => match ws_parent_ids(view, ws) {
                Err(e) => Err(e),
                Ok(ws_parents) => Ok(
                    PlacementsView {
                        refs,
                        mutable_commits: mutable_ids(view.nodes, view.nodes.len() as int),
                        head_refs,
                        ws_parents,
                    },
                ),
            },
        },
    }
}

/// A result says what `spec_result` says.
pub open spec fn same_placements(
    r: Result<RefPlacements, PlacementError>,
    expected: Result<PlacementsView, PlacementError>,
) -> bool {
    match (r, expected) {
        (Ok(p), Ok(v)) => p@ == v,
        (Err(e), Err(f)) => e == f,
        _ => false,
    }
}

/// The legs by the ids of the commits that they come from, ascending.
fn find_commit_legs(graph: &EditorGraph, legs: &Vec<EditorLeg>) -> (r: Vec<CommitLeg>)
    requires
        forall|i: int| 0 <= i < legs@.len() ==> graph@.is_pick((#[trigger] legs@[i]).0),
    ensures
        r@ == sorted::<CommitLeg>(commit_legs(graph@, legs@)),
{
    let mut r: Vec<CommitLeg> = Vec::new();
    let mut i: usize = 0;
    while i < legs.len()
        invariant
            i <= legs@.len(),
            forall|j: int| 0 <= j < legs@.len() ==> graph@.is_pick((#[trigger] legs@[j]).0),
            r@ =~= commit_legs(graph@, legs@.take(i as int)),
        decreases legs.len() - i,
    {
        let (source, slot) = legs[i];
        assert(graph@.is_pick(legs@[i as int].0));
        r.push((graph.commit_id(source).unwrap(), slot));
        i += 1;
    }
    proof {
        lemma_take_all(legs@);
    }
    sort_legs(r)
}

/// The legs that approach a reference come from commits.
pub proof fn lemma_approach_from_picks(view: EditorView, ix: EditorGraphIndex)
    ensures
        forall|i: int|
            0 <= i < view.approach(ix).len() ==> view.is_pick((#[trigger] view.approach(ix)[i]).0),
{
    let approach = view.approach(ix);
    assert forall|i: int| 0 <= i < approach.len() implies view.is_pick(
        (#[trigger] approach[i]).0,
    ) by {
        let stored = view.position(ix)->0;
        let legs = view.legs_onto(stored.on);
        let pick = view.resolve(stored.on)->0;
        let from_pick = |l: EditorLeg| view.is_pick(l.0);
        let lane = crate::lanes::lane_of(view.lanes, stored.on, ix)->0;
        let x = approach[i];
        assert(approach.contains(x));
        if lane.carry is Count {
            crate::seqs::lemma_filter_contains(
                legs,
                |l: EditorLeg| lane.legs.contains(l),
                x,
            );
        }
        assert(legs.contains(x));
        crate::seqs::lemma_filter_contains(view.incoming(pick), from_pick, x);
    }
}

/// The reference by ids and names.
fn find_placement(graph: &EditorGraph, ix: EditorGraphIndex) -> (r: Result<
    PlacedRef,
    PlacementError,
>)
    requires
        graph@.is_reference(ix),
    ensures
        match (r, placement_of(graph@, ix)) {
            (Ok(p), Ok(v)) => p@ == v,
            (Err(e), Err(f)) => e == f,
            _ => false,
        },
{
    let (name, mutable) = graph.reference(ix).unwrap();
    let stored = match graph.position_of(ix) {
        None => {
            let placed = PlacedRef {
                name: name.clone(),
                mutable,
                anchor: None,
                below: None,
                ambiguous: false,
                approach: Vec::new(),
            };
            assert(placed@.approach =~= Seq::empty());
            return Ok(placed);
        },
        Some(stored) => stored,
    };
    let pick = match resolve_to_pick(graph, stored.on) {
        None => return Err(PlacementError::Unresolved),
        Some(pick) => pick,
    };
    let below = match stored.below {
        Some(b) => match graph.reference(b) {
            Some((below_name, _)) => Some(below_name.clone()),
            None => return Err(PlacementError::DeadBelow),
        },
        None => None,
    };
    proof {
        lemma_approach_from_picks(graph@, ix);
    }
    let legs = ref_approach(graph, ix);
    Ok(
        PlacedRef {
            name: name.clone(),
            mutable,
            anchor: graph.commit_id(pick),
            below,
            ambiguous: stored.ambiguous,
            approach: find_commit_legs(graph, &legs),
        },
    )
}

/// The references that were not removed are such.
proof fn lemma_live_refs(view: EditorView, n: int)
    requires
        view.fits(),
        0 <= n <= view.refs.len(),
    ensures
        ({
            let live = live_refs(view.refs, n);
            forall|i: int| 0 <= i < live.len() ==> view.is_reference(#[trigger] live[i])
        }),
    decreases n,
{
    if n > 0 {
        lemma_live_refs(view, n - 1);
        let before = live_refs(view.refs, n - 1);
        assert(live_refs(view.refs, n) == before || live_refs(view.refs, n) == before.push(
            EditorGraphIndex::Ref((n - 1) as usize),
        ));
    } else {
        assert(live_refs(view.refs, n).len() == 0);
    }
}

/// A failure stays one.
proof fn lemma_placements_fail(view: EditorView, list: Seq<EditorGraphIndex>, n: int, m: int)
    requires
        n <= m,
        placements_of(view, list, n) is Err,
    ensures
        placements_of(view, list, m) == placements_of(view, list, n),
    decreases m - n,
{
    if n < m {
        lemma_placements_fail(view, list, n, m - 1);
    }
}

proof fn lemma_heads_fail(view: EditorView, checkouts: Seq<Checkout>, n: int, m: int)
    requires
        n <= m,
        head_names(view, checkouts, n) is Err,
    ensures
        head_names(view, checkouts, m) == head_names(view, checkouts, n),
    decreases m - n,
{
    if n < m {
        lemma_heads_fail(view, checkouts, n, m - 1);
    }
}

proof fn lemma_parents_fail(view: EditorView, parents: Seq<EditorGraphIndex>, n: int, m: int)
    requires
        n <= m,
        parent_ids(view, parents, n) is Err,
    ensures
        parent_ids(view, parents, m) == parent_ids(view, parents, n),
    decreases m - n,
{
    if n < m {
        lemma_parents_fail(view, parents, n, m - 1);
    }
}

/// The ids of the parents.
fn find_parent_ids(graph: &EditorGraph, parents: &Vec<EditorGraphIndex>) -> (r: Result<
    Vec<ObjectId>,
    PlacementError,
>)
    ensures
        match (r, parent_ids(graph@, parents@, parents@.len() as int)) {
            (Ok(p), Ok(v)) => p@ == v,
            (Err(e), Err(f)) => e == f,
            _ => false,
        },
{
    let mut ids: Vec<ObjectId> = Vec::new();
    let mut i: usize = 0;
    assert(ids@ =~= Seq::empty());
    while i < parents.len()
        invariant
            i <= parents@.len(),
            parent_ids(graph@, parents@, i as int) == Ok::<Seq<ObjectId>, PlacementError>(ids@),
        decreases parents.len() - i,
    {
        match graph.commit_id(parents[i]) {
            Some(id) => {
                ids.push(id);
            },
            None => {
                proof {
                    lemma_parents_fail(graph@, parents@, i + 1, parents@.len() as int);
                }
                return Err(PlacementError::ParentNotAPick);
            },
        }
        i += 1;
    }
    Ok(ids)
}

/// The parents of the workspace commit, if the graph has it.
fn find_ws_parents(graph: &EditorGraph, ws: Option<ObjectId>) -> (r: Result<
    Option<Vec<ObjectId>>,
    PlacementError,
>)
    ensures
        match (r, ws_parent_ids(graph@, ws)) {
            (Ok(p), Ok(v)) => opt_ids(p) == v,
            (Err(e), Err(f)) => e == f,
            _ => false,
        },
{
    let id = match ws {
        Some(id) => id,
        None => return Ok(None),
    };
    let mut i: usize = 0;
    while i < graph.nodes.len()
        invariant
            i <= graph.nodes@.len(),
            node_of(graph@.nodes, id, i as int) is None,
            ws == Some(id),
        decreases graph.nodes.len() - i,
    {
        assert(graph@.nodes[i as int] == graph.nodes@[i as int]@);
        let found: bool = match &graph.nodes[i].pick {
            Some(pick) => pick.id == id,
            None => false,
        };
        if found {
            proof {
                lemma_node_stays(graph@.nodes, id, i + 1, graph@.nodes.len() as int);
            }
            return match find_parent_ids(graph, &graph.nodes[i].parents) {
                Ok(ids) => Ok(Some(ids)),
                Err(e) => Err(e),
            };
        }
        i += 1;
    }
    Ok(None)
}

proof fn lemma_node_stays(nodes: Seq<NodeView>, id: ObjectId, n: int, m: int)
    requires
        n <= m,
        node_of(nodes, id, n) is Some,
    ensures
        node_of(nodes, id, m) == node_of(nodes, id, n),
    decreases m - n,
{
    if n < m {
        lemma_node_stays(nodes, id, n, m - 1);
    }
}

/// The ids of the commits that may be rewritten.
#[verifier::loop_isolation(false)]
fn find_mutable_ids(graph: &EditorGraph) -> (r: SortedSet<ObjectId>)
    ensures
        r@ == mutable_ids(graph@.nodes, graph@.nodes.len() as int),
{
    let mut r: SortedSet<ObjectId> = SortedSet::new();
    let mut i: usize = 0;
    while i < graph.nodes.len()
        invariant
            i <= graph.nodes@.len(),
            r@ == mutable_ids(graph@.nodes, i as int),
        decreases graph.nodes.len() - i,
    {
        assert(graph@.nodes[i as int] == graph.nodes@[i as int]@);
        if let Some(pick) = &graph.nodes[i].pick {
            if pick.mutable {
                r.insert(pick.id);
            }
        }
        i += 1;
    }
    r
}

/// The names of the references that are checked out.
fn find_head_names(graph: &EditorGraph, checkouts: &Vec<Checkout>) -> (r: Result<
    Vec<RefName>,
    PlacementError,
>)
    ensures
        match (r, head_names(graph@, checkouts@, checkouts@.len() as int)) {
            (Ok(p), Ok(v)) => names_view(p@) == v,
            (Err(e), Err(f)) => e == f,
            _ => false,
        },
{
    let mut names: Vec<RefName> = Vec::new();
    let mut i: usize = 0;
    assert(names_view(names@) =~= Seq::empty());
    while i < checkouts.len()
        invariant
            i <= checkouts@.len(),
            head_names(graph@, checkouts@, i as int) == Ok::<Seq<Seq<u8>>, PlacementError>(
                names_view(names@),
            ),
        decreases checkouts.len() - i,
    {
        let Checkout::Head { selector, .. } = checkouts[i];
        match graph.reference(selector.id) {
            Some((name, _)) => {
                let ghost before = names@;
                names.push(name.clone());
                assert(names_view(names@) =~= names_view(before).push(name@));
            },
            None => {
                proof {
                    lemma_heads_fail(graph@, checkouts@, i + 1, checkouts@.len() as int);
                }
                return Err(PlacementError::CheckoutNotARef);
            },
        }
        i += 1;
    }
    Ok(names)
}

/// The ledger of a graph right after its creation: each reference sits on a commit and on a
/// reference, or nowhere, and what is checked out are references.
pub fn extract(
    graph: &EditorGraph,
    checkouts: &Vec<Checkout>,
    workspace_commit_id: Option<ObjectId>,
) -> (r: Result<RefPlacements, PlacementError>)
    ensures
        same_placements(r, ledger(graph@, checkouts@, workspace_commit_id)),
{
    let n: usize = graph.fits();
    let live = graph.references();
    proof {
        lemma_live_refs(graph@, graph@.refs.len() as int);
    }
    let mut refs: Vec<PlacedRef> = Vec::new();
    let mut i: usize = 0;
    assert(placed_view(refs@) =~= Seq::empty());
    while i < live.len()
        invariant
            i <= live@.len(),
            live@ == live_refs(graph@.refs, graph@.refs.len() as int),
            forall|j: int| 0 <= j < live@.len() ==> graph@.is_reference(#[trigger] live@[j]),
            placements_of(graph@, live@, i as int) == Ok::<Seq<PlacedView>, PlacementError>(
                placed_view(refs@),
            ),
        decreases live.len() - i,
    {
        assert(graph@.is_reference(live@[i as int]));
        match find_placement(graph, live[i]) {
            Ok(placed) => {
                let ghost before = refs@;
                refs.push(placed);
                assert(placed_view(refs@) =~= placed_view(before).push(placed@));
            },
            Err(e) => {
                proof {
                    lemma_placements_fail(graph@, live@, i + 1, live@.len() as int);
                }
                return Err(e);
            },
        }
        i += 1;
    }
    let head_refs = match find_head_names(graph, checkouts) {
        Ok(names) => names,
        Err(e) => return Err(e),
    };
    let ws_parents = match find_ws_parents(graph, workspace_commit_id) {
        Ok(parents) => parents,
        Err(e) => return Err(e),
    };
    Ok(RefPlacements { refs, mutable_commits: find_mutable_ids(graph), head_refs, ws_parents })
}

/// A commit by the ids of its parents.
#[derive(Debug)]
pub struct CanonicalPick {
    /// The ids of the parents.
    pub parent_ids: Vec<ObjectId>,
    /// The commit.
    pub pick: Pick,
}

/// What a [`CanonicalPick`] stands for.
#[verifier::ext_equal]
pub struct CanonicalPickView {
    /// The ids of the parents.
    pub parent_ids: Seq<ObjectId>,
    /// The commit.
    pub pick: PickView,
}

impl View for CanonicalPick {
    type V = CanonicalPickView;

    open spec fn view(&self) -> CanonicalPickView {
        CanonicalPickView { parent_ids: self.parent_ids@, pick: self.pick@ }
    }
}

/// What the commits stand for, by their ids.
pub open spec fn picks_view(picks: Map<ObjectId, CanonicalPick>) -> Map<
    ObjectId,
    CanonicalPickView,
> {
    picks.map_values(|p: CanonicalPick| p@)
}

/// The commits among the first `n` nodes, by their ids.
pub open spec fn picks_of(view: EditorView, n: int) -> Result<
    Map<ObjectId, CanonicalPickView>,
    PlacementError,
>
    decreases n,
{
    if n <= 0 {
        Ok(Map::empty())
    } else {
        match picks_of(view, n - 1) {
            Err(e) => Err(e),
            Ok(before) => {
                let node = view.nodes[n - 1];
                match node.pick {
                    None => Ok(before),
                    Some(pick) => match parent_ids(
                        view,
                        node.parents,
                        node.parents.len() as int,
                    ) {
                        Err(e) => Err(e),
                        Ok(ids) => if before.dom().contains(pick.id) {
                            Err(PlacementError::DuplicatePick(pick.id))
                        } else {
                            Ok(
                                before.insert(
                                    pick.id,
                                    CanonicalPickView { parent_ids: ids, pick },
                                ),
                            )
                        },
                    },
                }
            },
        }
    }
}

proof fn lemma_picks_fail(view: EditorView, n: int, m: int)
    requires
        n <= m,
        picks_of(view, n) is Err,
    ensures
        picks_of(view, m) == picks_of(view, n),
    decreases m - n,
{
    if n < m {
        lemma_picks_fail(view, n, m - 1);
    }
}

/// The commits by their ids, each with the ids of its parents.
pub fn canonical_picks(graph: &EditorGraph) -> (r: Result<
    SortedMap<ObjectId, CanonicalPick>,
    PlacementError,
>)
    ensures
        match (r, picks_of(graph@, graph@.nodes.len() as int)) {
            (Ok(p), Ok(v)) => picks_view(p@) == v,
            (Err(e), Err(f)) => e == f,
            _ => false,
        },
{
    let mut picks: SortedMap<ObjectId, CanonicalPick> = SortedMap::new();
    let mut i: usize = 0;
    assert(picks_view(picks@) =~= Map::empty());
    while i < graph.nodes.len()
        invariant
            i <= graph.nodes@.len(),
            picks_of(graph@, i as int) == Ok::<Map<ObjectId, CanonicalPickView>, PlacementError>(
                picks_view(picks@),
            ),
        decreases graph.nodes.len() - i,
    {
        assert(graph@.nodes[i as int] == graph.nodes@[i as int]@);
        if let Some(pick) = &graph.nodes[i].pick {
            match find_parent_ids(graph, &graph.nodes[i].parents) {
                Err(e) => {
                    proof {
                        lemma_picks_fail(graph@, i + 1, graph@.nodes.len() as int);
                    }
                    return Err(e);
                },
                Ok(ids) => {
                    if picks.contains_key(&pick.id) {
                        proof {
                            lemma_picks_fail(graph@, i + 1, graph@.nodes.len() as int);
                        }
                        return Err(PlacementError::DuplicatePick(pick.id));
                    }
                    let ghost before = picks@;
                    let entry = CanonicalPick { parent_ids: ids, pick: pick.clone() };
                    picks.insert(pick.id, entry);
                    assert(picks_view(picks@) =~= picks_view(before).insert(pick.id, entry@));
                },
            }
        }
        i += 1;
    }
    Ok(picks)
}

/// Whether a reference is not among `others`.
pub open spec fn not_among(others: Seq<PlacedView>) -> spec_fn(PlacedView) -> bool {
    |r: PlacedView| !others.contains(r)
}

/// Whether an id is not in the set.
pub open spec fn outside(set: Set<ObjectId>) -> spec_fn(ObjectId) -> bool {
    |id: ObjectId| !set.contains(id)
}

/// What two ledgers differ in.
pub struct LedgerDivergence {
    /// The references that only the first one has like this.
    pub first_only: Vec<PlacedRef>,
    /// The references that only the second one has like this.
    pub second_only: Vec<PlacedRef>,
    /// The commits that only in the first one may be rewritten.
    pub first_mutable: Vec<ObjectId>,
    /// The commits that only in the second one may be rewritten.
    pub second_mutable: Vec<ObjectId>,
}

/// The divergence is what only one of both ledgers has.
pub open spec fn diverges(d: LedgerDivergence, a: PlacementsView, b: PlacementsView) -> bool {
    &&& placed_view(d.first_only@) == a.refs.filter(not_among(b.refs))
    &&& placed_view(d.second_only@) == b.refs.filter(not_among(a.refs))
    &&& d.first_mutable@ == ascending::<ObjectId>(a.mutable_commits).filter(
        outside(b.mutable_commits),
    )
    &&& d.second_mutable@ == ascending::<ObjectId>(b.mutable_commits).filter(
        outside(a.mutable_commits),
    )
}

/// Whether the list holds the reference.
fn placed_contains(list: &Vec<PlacedRef>, x: &PlacedRef) -> (r: bool)
    ensures
        r == placed_view(list@).contains(x@),
{
    let mut i: usize = 0;
    while i < list.len()
        invariant
            i <= list@.len(),
            forall|j: int| 0 <= j < i ==> #[trigger] placed_view(list@)[j] != x@,
        decreases list.len() - i,
    {
        assert(placed_view(list@)[i as int] == list@[i as int]@);
        if list[i].same(x) {
            return true;
        }
        i += 1;
    }
    false
}

/// The references that `others` do not have like this.
fn placed_not_among(list: &Vec<PlacedRef>, others: &Vec<PlacedRef>) -> (r: Vec<PlacedRef>)
    ensures
        placed_view(r@) == placed_view(list@).filter(not_among(placed_view(others@))),
{
    let ghost keep = not_among(placed_view(others@));
    let ghost all = placed_view(list@);
    let mut r: Vec<PlacedRef> = Vec::new();
    let mut i: usize = 0;
    proof {
        lemma_filter_none(all, keep);
        assert(placed_view(r@) =~= Seq::empty());
    }
    while i < list.len()
        invariant
            i <= list@.len(),
            keep == not_among(placed_view(others@)),
            all == placed_view(list@),
            placed_view(r@) == all.take(i as int).filter(keep),
        decreases list.len() - i,
    {
        proof {
            lemma_filter_take(all, keep, i as int);
        }
        if !placed_contains(others, &list[i]) {
            let ghost before = r@;
            let x = list[i].clone();
            r.push(x);
            assert(placed_view(r@) =~= placed_view(before).push(x@));
        }
        i += 1;
    }
    proof {
        lemma_take_all(all);
    }
    r
}

/// The ids that the other set does not have.
fn ids_outside(set: &SortedSet<ObjectId>, other: &SortedSet<ObjectId>) -> (r: Vec<ObjectId>)
    ensures
        r@ == ascending::<ObjectId>(set@).filter(outside(other@)),
{
    let n: usize = set.len();
    let ghost keep = outside(other@);
    let ghost all = set.seq();
    let mut r: Vec<ObjectId> = Vec::new();
    let mut i: usize = 0;
    proof {
        lemma_filter_none(all, keep);
    }
    while i < n
        invariant
            i <= n,
            n == all.len(),
            all == set.seq(),
            keep == outside(other@),
            r@ == all.take(i as int).filter(keep),
        decreases n - i,
    {
        proof {
            lemma_filter_take(all, keep, i as int);
        }
        let id = *set.at(i);
        if !other.contains(&id) {
            r.push(id);
        }
        i += 1;
    }
    proof {
        lemma_take_all(all);
    }
    r
}

/// Whether both hold the same references in the same order.
fn same_placed(a: &Vec<PlacedRef>, b: &Vec<PlacedRef>) -> (r: bool)
    ensures
        r == (placed_view(a@) == placed_view(b@)),
{
    if a.len() != b.len() {
        assert(placed_view(a@).len() != placed_view(b@).len());
        return false;
    }
    let mut i: usize = 0;
    while i < a.len()
        invariant
            i <= a@.len(),
            a@.len() == b@.len(),
            forall|j: int| 0 <= j < i ==> placed_view(a@)[j] == placed_view(b@)[j],
        decreases a.len() - i,
    {
        if !a[i].same(&b[i]) {
            assert(placed_view(a@)[i as int] != placed_view(b@)[i as int]);
            return false;
        }
        i += 1;
    }
    assert(placed_view(a@) =~= placed_view(b@));
    true
}

/// Whether both hold the same names in the same order.
pub fn same_names(a: &Vec<RefName>, b: &Vec<RefName>) -> (r: bool)
    ensures
        r == (names_view(a@) == names_view(b@)),
{
    if a.len() != b.len() {
        assert(names_view(a@).len() != names_view(b@).len());
        return false;
    }
    let mut i: usize = 0;
    while i < a.len()
        invariant
            i <= a@.len(),
            a@.len() == b@.len(),
            forall|j: int| 0 <= j < i ==> names_view(a@)[j] == names_view(b@)[j],
        decreases a.len() - i,
    {
        if !a[i].same(&b[i]) {
            assert(names_view(a@)[i as int] != names_view(b@)[i as int]);
            return false;
        }
        i += 1;
    }
    assert(names_view(a@) =~= names_view(b@));
    true
}

/// What the ledger that was extracted from a graph and the one that was derived without it differ
/// in, if they do.
pub fn assert_ledger_parity(extracted: &RefPlacements, derived: &RefPlacements) -> (r: Option<
    LedgerDivergence,
>)
    ensures
        r is None <==> extracted@ == derived@,
        r matches Some(d) ==> diverges(d, extracted@, derived@),
{
    let same: bool = same_placed(&extracted.refs, &derived.refs) && same_id_sets(
        &extracted.mutable_commits,
        &derived.mutable_commits,
    ) && same_names(&extracted.head_refs, &derived.head_refs) && same_opt_ids(
        &extracted.ws_parents,
        &derived.ws_parents,
    );
    if same {
        return None;
    }
    Some(
        LedgerDivergence {
            first_only: placed_not_among(&extracted.refs, &derived.refs),
            second_only: placed_not_among(&derived.refs, &extracted.refs),
            first_mutable: ids_outside(&extracted.mutable_commits, &derived.mutable_commits),
            second_mutable: ids_outside(&derived.mutable_commits, &extracted.mutable_commits),
        },
    )
}

/// What two creations of a graph differ in.
pub enum NativeDivergence {
    /// The commits: those that only one of both has like this.
    Picks {
        /// Those of the first one.
        first_only: Vec<ObjectId>,
        /// Those of the second one.
        second_only: Vec<ObjectId>,
    },
    /// The references.
    Refs(LedgerDivergence),
    /// The references that may be moved.
    InitialReferences,
    /// The order of the references.
    RefArenaOrder,
}

/// Whether `others` do not have the commit like this.
pub open spec fn picked_otherwise(
    picks: Map<ObjectId, CanonicalPickView>,
    others: Map<ObjectId, CanonicalPickView>,
) -> spec_fn(ObjectId) -> bool {
    |id: ObjectId| !(others.dom().contains(id) && others[id] == picks[id])
}

/// The commits that `others` do not have like this.
fn picks_otherwise(
    picks: &SortedMap<ObjectId, CanonicalPick>,
    others: &SortedMap<ObjectId, CanonicalPick>,
) -> (r: Vec<ObjectId>)
    ensures
        r@ == ascending::<ObjectId>(picks@.dom()).filter(
            picked_otherwise(picks_view(picks@), picks_view(others@)),
        ),
        ascending::<ObjectId>(picks@.dom()).to_set() == picks@.dom(),
{
    let n: usize = picks.len();
    let ghost keep = picked_otherwise(picks_view(picks@), picks_view(others@));
    let ghost all = picks.keys();
    let mut r: Vec<ObjectId> = Vec::new();
    let mut i: usize = 0;
    assert(all.to_set() =~= picks@.dom());
    proof {
        lemma_filter_none(all, keep);
    }
    while i < n
        invariant
            i <= n,
            n == all.len(),
            all == picks.keys(),
            forall|j: int|
                0 <= j < n ==> picks@.dom().contains(#[trigger] all[j]) && picks@[all[j]]
                    == picks.values()[j],
            keep == picked_otherwise(picks_view(picks@), picks_view(others@)),
            r@ == all.take(i as int).filter(keep),
        decreases n - i,
    {
        proof {
            lemma_filter_take(all, keep, i as int);
        }
        let id = *picks.key_at(i);
        let own = picks.value_at(i);
        assert(picks@.dom().contains(all[i as int]));
        assert(picks_view(picks@)[id] == own@);
        let same: bool = match others.get(&id) {
            Some(other) => {
                assert(picks_view(others@)[id] == other@);
                same_ids(&other.parent_ids, &own.parent_ids) && other.pick.same(&own.pick)
            },
            None => false,
        };
        if !same {
            r.push(id);
        }
        i += 1;
    }
    proof {
        lemma_take_all(all);
    }
    r
}

/// The references that were not removed, by their indices and names.
pub open spec fn ref_order(view: EditorView) -> Seq<(EditorGraphIndex, Seq<u8>)> {
    live_refs(view.refs, view.refs.len() as int).map_values(
        |ix: EditorGraphIndex| (ix, view.refs[ix->Ref_0 as int].name),
    )
}

/// Whether the references that were not removed have the same indices and names.
fn same_ref_order(a: &EditorGraph, b: &EditorGraph) -> (r: bool)
    ensures
        r == (ref_order(a@) == ref_order(b@)),
{
    let (n, m): (usize, usize) = (a.fits(), b.fits());
    let (la, lb) = (a.references(), b.references());
    proof {
        lemma_live_refs(a@, a@.refs.len() as int);
        lemma_live_refs(b@, b@.refs.len() as int);
    }
    if la.len() != lb.len() {
        assert(ref_order(a@).len() != ref_order(b@).len());
        return false;
    }
    let mut i: usize = 0;
    while i < la.len()
        invariant
            i <= la@.len(),
            la@.len() == lb@.len(),
            la@ == live_refs(a@.refs, a@.refs.len() as int),
            lb@ == live_refs(b@.refs, b@.refs.len() as int),
            forall|j: int| 0 <= j < la@.len() ==> a@.is_reference(#[trigger] la@[j]),
            forall|j: int| 0 <= j < lb@.len() ==> b@.is_reference(#[trigger] lb@[j]),
            forall|j: int| 0 <= j < i ==> ref_order(a@)[j] == ref_order(b@)[j],
        decreases la.len() - i,
    {
        assert(a@.is_reference(la@[i as int]));
        assert(b@.is_reference(lb@[i as int]));
        let (na, _) = a.reference(la[i]).unwrap();
        let (nb, _) = b.reference(lb[i]).unwrap();
        if la[i] != lb[i] || !na.same(nb) {
            assert(ref_order(a@)[i as int] != ref_order(b@)[i as int]);
            return false;
        }
        i += 1;
    }
    assert(ref_order(a@) =~= ref_order(b@));
    true
}

/// What a creation of a graph gave.
pub struct Creation {
    /// The graph.
    pub graph: EditorGraph,
    /// The names of the references that may be moved.
    pub initial_references: Vec<RefName>,
    /// What is checked out.
    pub checkouts: Vec<Checkout>,
}

/// What is compared of the commits of both creations.
pub open spec fn same_picks(a: Creation, b: Creation) -> bool {
    picks_of(a.graph@, a.graph@.nodes.len() as int) == picks_of(
        b.graph@,
        b.graph@.nodes.len() as int,
    )
}

/// The ledger of a creation.
pub open spec fn creation_ledger(c: Creation, ws: Option<ObjectId>) -> Result<
    PlacementsView,
    PlacementError,
> {
    ledger(c.graph@, c.checkouts@, ws)
}

/// Both creations gave the same, by ids and names, and with the same indices of references.
pub open spec fn same_creation(a: Creation, b: Creation, ws: Option<ObjectId>) -> bool {
    &&& same_picks(a, b)
    &&& creation_ledger(a, ws) == creation_ledger(b, ws)
    &&& names_view(a.initial_references@) == names_view(b.initial_references@)
    &&& ref_order(a.graph@) == ref_order(b.graph@)
}

/// Why two creations cannot be compared: the first failure of their commits, and then of their
/// ledgers.
pub open spec fn comparison_failure(a: Creation, b: Creation, ws: Option<ObjectId>) -> Option<
    PlacementError,
> {
    match (
        picks_of(a.graph@, a.graph@.nodes.len() as int),
        picks_of(b.graph@, b.graph@.nodes.len() as int),
    ) {
        (Err(e), _) => Some(e),
        (Ok(_), Err(e)) => Some(e),
        (Ok(pa), Ok(pb)) => if pa != pb {
            None
        } else {
            match (creation_ledger(a, ws), creation_ledger(b, ws)) {
                (Err(e), _) => Some(e),
                (Ok(_), Err(e)) => Some(e),
                (Ok(_), Ok(_)) => None,
            }
        },
    }
}

/// The divergence is the first one that there is: of the commits, of the references, of those that
/// may be moved, of the order.
pub open spec fn first_divergence(
    d: NativeDivergence,
    a: Creation,
    b: Creation,
    ws: Option<ObjectId>,
) -> bool {
    match d {
        NativeDivergence::Picks { first_only, second_only } => {
            let pa = picks_of(a.graph@, a.graph@.nodes.len() as int)->Ok_0;
            let pb = picks_of(b.graph@, b.graph@.nodes.len() as int)->Ok_0;
            &&& !same_picks(a, b)
            &&& first_only@ == ascending::<ObjectId>(pa.dom()).filter(picked_otherwise(pa, pb))
            &&& second_only@ == ascending::<ObjectId>(pb.dom()).filter(picked_otherwise(pb, pa))
        },
        NativeDivergence::Refs(l) => {
            &&& same_picks(a, b)
            &&& creation_ledger(a, ws) != creation_ledger(b, ws)
            &&& diverges(l, creation_ledger(a, ws)->Ok_0, creation_ledger(b, ws)->Ok_0)
        },
        NativeDivergence::InitialReferences => {
            &&& same_picks(a, b)
            &&& creation_ledger(a, ws) == creation_ledger(b, ws)
            &&& names_view(a.initial_references@) != names_view(b.initial_references@)
        },
        NativeDivergence::RefArenaOrder => {
            &&& same_picks(a, b)
            &&& creation_ledger(a, ws) == creation_ledger(b, ws)
            &&& names_view(a.initial_references@) == names_view(b.initial_references@)
            &&& ref_order(a.graph@) != ref_order(b.graph@)
        },
    }
}

/// Commits that both have like the other are the same commits.
proof fn lemma_no_picks_otherwise(
    pa: Map<ObjectId, CanonicalPickView>,
    pb: Map<ObjectId, CanonicalPickView>,
    la: Seq<ObjectId>,
    lb: Seq<ObjectId>,
)
    requires
        la.to_set() == pa.dom(),
        lb.to_set() == pb.dom(),
    ensures
        la.filter(picked_otherwise(pa, pb)).len() == 0 && lb.filter(
            picked_otherwise(pb, pa),
        ).len() == 0 <==> pa == pb,
{
    let (fa, fb) = (picked_otherwise(pa, pb), picked_otherwise(pb, pa));
    if la.filter(fa).len() == 0 && lb.filter(fb).len() == 0 {
        assert forall|id: ObjectId| #[trigger] pa.dom().contains(id) implies pb.dom().contains(id)
            && pa[id] == pb[id] by {
            assert(la.to_set().contains(id));
            crate::seqs::lemma_filter_contains(la, fa, id);
        }
        assert forall|id: ObjectId| #[trigger] pb.dom().contains(id) implies pa.dom().contains(
            id,
        ) by {
            assert(lb.to_set().contains(id));
            crate::seqs::lemma_filter_contains(lb, fb, id);
        }
        assert(pa.dom() =~= pb.dom());
        assert(pa =~= pb);
    }
    if pa == pb {
        if la.filter(fa).len() > 0 {
            let id = la.filter(fa)[0];
            assert(la.filter(fa).contains(id));
            crate::seqs::lemma_filter_contains(la, fa, id);
            assert(la.to_set().contains(id));
        }
        if lb.filter(fb).len() > 0 {
            let id = lb.filter(fb)[0];
            assert(lb.filter(fb).contains(id));
            crate::seqs::lemma_filter_contains(lb, fb, id);
            assert(lb.to_set().contains(id));
        }
    }
}

/// What two creations of a graph differ in, by ids and names, if they do.
pub fn assert_native_parity(
    old_creation: &Creation,
    native: &Creation,
    workspace_commit_id: Option<ObjectId>,
) -> (r: Result<Option<NativeDivergence>, PlacementError>)
    ensures
        match r {
            Err(e) => comparison_failure(*old_creation, *native, workspace_commit_id) == Some(e),
            Ok(None) => same_creation(*old_creation, *native, workspace_commit_id)
                && comparison_failure(*old_creation, *native, workspace_commit_id) is None,
            Ok(Some(d)) => first_divergence(d, *old_creation, *native, workspace_commit_id)
                && comparison_failure(*old_creation, *native, workspace_commit_id) is None,
        },
{
    let old_picks = match canonical_picks(&old_creation.graph) {
        Ok(picks) => picks,
        Err(e) => return Err(e),
    };
    let native_picks = match canonical_picks(&native.graph) {
        Ok(picks) => picks,
        Err(e) => return Err(e),
    };
    let first_only = picks_otherwise(&old_picks, &native_picks);
    let second_only = picks_otherwise(&native_picks, &old_picks);
    proof {
        assert(picks_view(old_picks@).dom() =~= old_picks@.dom());
        assert(picks_view(native_picks@).dom() =~= native_picks@.dom());
        lemma_no_picks_otherwise(
            picks_view(old_picks@),
            picks_view(native_picks@),
            ascending::<ObjectId>(old_picks@.dom()),
            ascending::<ObjectId>(native_picks@.dom()),
        );
    }
    if first_only.len() > 0 || second_only.len() > 0 {
        return Ok(Some(NativeDivergence::Picks { first_only, second_only }));
    }
    let old_ledger = match extract(
        &old_creation.graph,
        &old_creation.checkouts,
        workspace_commit_id,
    ) {
        Ok(ledger) => ledger,
        Err(e) => return Err(e),
    };
    let native_ledger = match extract(&native.graph, &native.checkouts, workspace_commit_id) {
        Ok(ledger) => ledger,
        Err(e) => return Err(e),
    };
    if let Some(divergence) = assert_ledger_parity(&old_ledger, &native_ledger) {
        return Ok(Some(NativeDivergence::Refs(divergence)));
    }
    if !same_names(&old_creation.initial_references, &native.initial_references) {
        return Ok(Some(NativeDivergence::InitialReferences));
    }
    if !same_ref_order(&old_creation.graph, &native.graph) {
        return Ok(Some(NativeDivergence::RefArenaOrder));
    }
    Ok(None)
}

} // verus!
