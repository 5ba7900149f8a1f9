//! The graph that an editor works on: commits with ordered parents, and references that carry a
//! position instead of edges.

use crate::lanes::{
    clone_legs, edited_lanes, entered_lanes, joined_lanes, lane_of, left_lanes, legs_contain,
    DropLeg, LaneCarry, LaneTable, LaneView, Place,
};
use crate::names::{ObjectId, RefName};
use crate::order::Key;
use crate::positions::legs_onto;
use crate::step::{opt_ids, Pick, PickView, Step, StepView};
use vstd::prelude::*;

verus! {

/// The stable index of a commit or of a reference.
#[derive(Debug, Clone, Copy, PartialEq, Eq, Structural)]
pub enum EditorGraphIndex {
    /// A commit, or what is left of one.
    Node(usize),
    /// A reference.
    Ref(usize),
}

impl Key for EditorGraphIndex {
    type Model = EditorGraphIndex;

    open spec fn model(&self) -> EditorGraphIndex {
        *self
    }

    open spec fn lt(a: EditorGraphIndex, b: EditorGraphIndex) -> bool {
        match (a, b) {
            (EditorGraphIndex::Node(i), EditorGraphIndex::Node(j)) => i < j,
            (EditorGraphIndex::Ref(i), EditorGraphIndex::Ref(j)) => i < j,
            (EditorGraphIndex::Node(_), EditorGraphIndex::Ref(_)) => true,
            (EditorGraphIndex::Ref(_), EditorGraphIndex::Node(_)) => false,
        }
    }

    proof fn lt_irreflexive(a: EditorGraphIndex) {
    }

    proof fn lt_transitive(a: EditorGraphIndex, b: EditorGraphIndex, c: EditorGraphIndex) {
    }

    proof fn lt_connected(a: EditorGraphIndex, b: EditorGraphIndex) {
    }

    fn is_less(&self, other: &EditorGraphIndex) -> (r: bool) {
        match (self, other) {
            (EditorGraphIndex::Node(i), EditorGraphIndex::Node(j)) => *i < *j,
            (EditorGraphIndex::Ref(i), EditorGraphIndex::Ref(j)) => *i < *j,
            (EditorGraphIndex::Node(_), EditorGraphIndex::Ref(_)) => true,
            (EditorGraphIndex::Ref(_), EditorGraphIndex::Node(_)) => false,
        }
    }
}

impl Place for EditorGraphIndex {
    proof fn lemma_model(&self) {
    }

    fn same(&self, other: &EditorGraphIndex) -> (r: bool) {
        *self == *other
    }
}

/// Where a reference sits.
#[derive(Debug, Clone, Copy, PartialEq, Eq, Structural)]
pub struct RefPosition {
    /// The node that the reference points at.
    pub on: EditorGraphIndex,
    /// The reference directly underneath, if there is one.
    pub below: Option<EditorGraphIndex>,
    /// Whether more than one thing converged on the position.
    pub ambiguous: bool,
}

/// A commit, or what is left of one, with its ordered parents.
#[derive(Debug)]
pub struct NodeRec {
    /// The commit, unless it was removed.
    pub pick: Option<Pick>,
    /// The parents.
    pub parents: Vec<EditorGraphIndex>,
}

/// A reference.
#[derive(Debug)]
pub struct RefRec {
    /// The name of the reference.
    pub name: RefName,
    /// Whether the reference may be moved.
    pub mutable: bool,
    /// Whether the reference was not removed.
    pub live: bool,
    /// Where the reference sits; one that was removed keeps its position.
    pub position: Option<RefPosition>,
}

/// The graph.
pub struct EditorGraph {
    /// The commits.
    pub nodes: Vec<NodeRec>,
    /// The references.
    pub refs: Vec<RefRec>,
    /// The lanes that the references are in, by the node that they point at.
    pub lanes: LaneTable<EditorGraphIndex>,
}

/// What a [`NodeRec`] stands for.
#[verifier::ext_equal]
pub struct NodeView {
    /// The commit, unless it was removed.
    pub pick: Option<PickView>,
    /// The parents.
    pub parents: Seq<EditorGraphIndex>,
}

/// What a [`RefRec`] stands for.
#[verifier::ext_equal]
pub struct RefView {
    /// The name of the reference.
    pub name: Seq<u8>,
    /// Whether the reference may be moved.
    pub mutable: bool,
    /// Whether the reference was not removed.
    pub live: bool,
    /// Where the reference sits.
    pub position: Option<RefPosition>,
}

/// A leg into a commit: the commit that it comes from, and which of that commit's parents it is.
pub type EditorLeg = (EditorGraphIndex, usize);

/// What an [`EditorGraph`] stands for.
#[verifier::ext_equal]
pub struct EditorView {
    /// The commits.
    pub nodes: Seq<NodeView>,
    /// The references.
    pub refs: Seq<RefView>,
    /// The lanes, by the node that they are above.
    pub lanes: Map<EditorGraphIndex, Seq<LaneView<EditorGraphIndex>>>,
}

/// What an optional pick stands for.
pub open spec fn opt_pick(pick: Option<Pick>) -> Option<PickView> {
    match pick {
        Some(pick) => Some(pick@),
        None => None,
    }
}

impl View for NodeRec {
    type V = NodeView;

    open spec fn view(&self) -> NodeView {
        NodeView { pick: opt_pick(self.pick), parents: self.parents@ }
    }
}

impl View for RefRec {
    type V = RefView;

    open spec fn view(&self) -> RefView {
        RefView {
            name: self.name@,
            mutable: self.mutable,
            live: self.live,
            position: self.position,
        }
    }
}

/// What the nodes stand for.
pub open spec fn nodes_view(nodes: Seq<NodeRec>) -> Seq<NodeView> {
    nodes.map_values(|n: NodeRec| n@)
}

/// What the references stand for.
pub open spec fn refs_view(refs: Seq<RefRec>) -> Seq<RefView> {
    refs.map_values(|r: RefRec| r@)
}

impl View for EditorGraph {
    type V = EditorView;

    open spec fn view(&self) -> EditorView {
        EditorView {
            nodes: nodes_view(self.nodes@),
            refs: refs_view(self.refs@),
            lanes: self.lanes@,
        }
    }
}

/// How many steps a walk takes before it is taken for one that goes around.
pub const WALK_LIMIT: usize = 10_000;

/// The first `n` of the parents of the node at `child` that are `node`, as legs.
pub open spec fn legs_from(
    nodes: Seq<NodeView>,
    child: int,
    node: EditorGraphIndex,
    n: int,
) -> Seq<EditorLeg>
    decreases n,
{
    if n <= 0 {
        Seq::empty()
    } else {
        let before = legs_from(nodes, child, node, n - 1);
        if nodes[child].parents[n - 1] == node {
            before.push((EditorGraphIndex::Node(child as usize), (n - 1) as usize))
        } else {
            before
        }
    }
}

/// The legs into `node` from the first `n` nodes.
pub open spec fn legs_among(nodes: Seq<NodeView>, node: EditorGraphIndex, n: int) -> Seq<EditorLeg>
    decreases n,
{
    if n <= 0 {
        Seq::empty()
    } else {
        legs_among(nodes, node, n - 1) + legs_from(
            nodes,
            n - 1,
            node,
            nodes[n - 1].parents.len() as int,
        )
    }
}

/// Whether both hold the same legs, in whatever order.
pub open spec fn same_leg_set(a: Seq<EditorLeg>, b: Seq<EditorLeg>) -> bool {
    forall|l: EditorLeg| #[trigger] a.contains(l) <==> b.contains(l)
}

/// How much of `legs` an approach through these legs carries.
pub open spec fn approach_carry(approach: Seq<EditorLeg>, legs: Seq<EditorLeg>) -> LaneCarry {
    if approach.len() == 0 {
        LaneCarry::Nothing
    } else if same_leg_set(approach, legs) {
        LaneCarry::All
    } else {
        LaneCarry::Count(approach.len() as usize)
    }
}

/// The legs that a lane with this approach names: none where it carries all legs.
pub open spec fn approach_legs(approach: Seq<EditorLeg>, legs: Seq<EditorLeg>) -> Seq<EditorLeg> {
    if approach_carry(approach, legs) is Count {
        approach
    } else {
        Seq::empty()
    }
}

impl EditorView {
    /// Where the reference sits, if `ix` is one that sits somewhere.
    pub open spec fn position(self, ix: EditorGraphIndex) -> Option<RefPosition> {
        match ix {
            EditorGraphIndex::Ref(r) => if r < self.refs.len() {
                self.refs[r as int].position
            } else {
                None
            },
            EditorGraphIndex::Node(_) => None,
        }
    }

    /// The node that the reference points at.
    pub open spec fn place(self, ix: EditorGraphIndex) -> Option<EditorGraphIndex> {
        match self.position(ix) {
            Some(p) => Some(p.on),
            None => None,
        }
    }

    /// The reference directly underneath.
    pub open spec fn below(self, ix: EditorGraphIndex) -> Option<EditorGraphIndex> {
        match self.position(ix) {
            Some(p) => p.below,
            None => None,
        }
    }

    /// The parents of the commit.
    pub open spec fn parents(self, ix: EditorGraphIndex) -> Seq<EditorGraphIndex> {
        match ix {
            EditorGraphIndex::Node(n) => if n < self.nodes.len() {
                self.nodes[n as int].parents
            } else {
                Seq::empty()
            },
            EditorGraphIndex::Ref(_) => Seq::empty(),
        }
    }

    /// The commit at `ix`.
    pub open spec fn pick(self, ix: EditorGraphIndex) -> Option<PickView> {
        match ix {
            EditorGraphIndex::Node(n) => if n < self.nodes.len() {
                self.nodes[n as int].pick
            } else {
                None
            },
            EditorGraphIndex::Ref(_) => None,
        }
    }

    /// Whether `ix` is a commit.
    pub open spec fn is_pick(self, ix: EditorGraphIndex) -> bool {
        self.pick(ix) is Some
    }

    /// Whether `ix` is a reference of the graph, removed or not.
    pub open spec fn has_ref(self, ix: EditorGraphIndex) -> bool {
        ix matches EditorGraphIndex::Ref(r) && r < self.refs.len()
    }

    /// Whether `ix` is a reference that was not removed.
    pub open spec fn is_reference(self, ix: EditorGraphIndex) -> bool {
        ix matches EditorGraphIndex::Ref(r) && r < self.refs.len() && self.refs[r as int].live
    }

    /// The id of the commit at `ix`.
    pub open spec fn commit_id(self, ix: EditorGraphIndex) -> Option<ObjectId> {
        match self.pick(ix) {
            Some(pick) => Some(pick.id),
            None => None,
        }
    }

    /// The step at `ix`.
    pub open spec fn step(self, ix: EditorGraphIndex) -> StepView {
        match ix {
            EditorGraphIndex::Node(_) => match self.pick(ix) {
                Some(pick) => StepView::Pick(pick),
                None => StepView::Blank,
            },
            EditorGraphIndex::Ref(r) => if self.is_reference(ix) {
                StepView::Reference(self.refs[r as int].name)
            } else {
                StepView::Blank
            },
        }
    }

    /// The commit that `ix` stands for, looked for in `fuel` steps: a commit stands for itself, a
    /// reference for what it points at, and what is left of a commit for its first parent.
    pub open spec fn resolve_in(self, ix: EditorGraphIndex, fuel: nat) -> Option<EditorGraphIndex>
        decreases fuel,
    {
        if fuel == 0 {
            None
        } else if self.is_pick(ix) {
            Some(ix)
        } else {
            match self.position(ix) {
                Some(p) => self.resolve_in(p.on, (fuel - 1) as nat),
                None => if self.parents(ix).len() > 0 {
                    self.resolve_in(self.parents(ix)[0], (fuel - 1) as nat)
                } else {
                    None
                },
            }
        }
    }

    /// The commit that `ix` stands for.
    pub open spec fn resolve(self, ix: EditorGraphIndex) -> Option<EditorGraphIndex> {
        self.resolve_in(ix, WALK_LIMIT as nat)
    }

    /// The legs into `node`, ascending.
    pub open spec fn incoming(self, node: EditorGraphIndex) -> Seq<EditorLeg> {
        legs_among(self.nodes, node, self.nodes.len() as int)
    }

    /// The legs into `node` that come from commits, ascending.
    pub open spec fn legs_into(self, node: EditorGraphIndex) -> Seq<EditorLeg> {
        self.incoming(node).filter(|l: EditorLeg| self.is_pick(l.0))
    }

    /// The legs into the commit that `on` stands for.
    pub open spec fn legs_onto(self, on: EditorGraphIndex) -> Seq<EditorLeg> {
        match self.resolve(on) {
            Some(pick) => self.legs_into(pick),
            None => Seq::empty(),
        }
    }

    /// The graph with this position of the reference `r`.
    pub open spec fn with_position(self, r: int, position: RefPosition) -> EditorView {
        EditorView {
            refs: self.refs.update(
                r,
                RefView { position: Some(position), ..self.refs[r] },
            ),
            ..self
        }
    }

    /// The lanes after the reference has left its lane.
    pub open spec fn lanes_left(self, ix: EditorGraphIndex) -> Map<
        EditorGraphIndex,
        Seq<LaneView<EditorGraphIndex>>,
    > {
        match self.position(ix) {
            Some(p) => left_lanes(self.lanes, ix, p.on),
            None => self.lanes,
        }
    }

    /// The graph after the reference was put on `on`, to be approached through these legs.
    pub open spec fn set_position(
        self,
        ix: EditorGraphIndex,
        on: EditorGraphIndex,
        approach: Seq<EditorLeg>,
        ambiguous: bool,
        below: Option<EditorGraphIndex>,
    ) -> EditorView {
        let legs = self.legs_onto(on);
        EditorView {
            lanes: entered_lanes(
                self.lanes_left(ix),
                ix,
                on,
                approach_carry(approach, legs),
                approach_legs(approach, legs),
            ),
            ..self.with_position(ix->Ref_0 as int, RefPosition { on, below, ambiguous })
        }
    }

    /// What the lane of the reference carries.
    pub open spec fn carry_of(self, ix: EditorGraphIndex) -> (LaneCarry, Seq<EditorLeg>) {
        match lane_of(self.lanes, self.position(ix)->0.on, ix) {
            Some(lane) => (lane.carry, lane.legs),
            None => (LaneCarry::Nothing, Seq::empty()),
        }
    }

    /// The graph after the reference points at `on`, with all else of its position as it was.
    pub open spec fn rekey_position(self, ix: EditorGraphIndex, on: EditorGraphIndex) -> EditorView {
        match self.position(ix) {
            Some(p) => if p.on == on {
                self
            } else {
                let (carry, legs) = self.carry_of(ix);
                EditorView {
                    lanes: entered_lanes(left_lanes(self.lanes, ix, p.on), ix, on, carry, legs),
                    ..self.with_position(ix->Ref_0 as int, RefPosition { on, ..p })
                }
            },
            None => self,
        }
    }

    /// The graph after the reference has `below` underneath.
    pub open spec fn set_below(
        self,
        ix: EditorGraphIndex,
        below: Option<EditorGraphIndex>,
    ) -> EditorView {
        match self.position(ix) {
            Some(p) => self.with_position(ix->Ref_0 as int, RefPosition { below, ..p }),
            None => self,
        }
    }

    /// The graph after the reference has joined the lane of `mate`, above `below`.
    pub open spec fn join_lane_of(
        self,
        ix: EditorGraphIndex,
        mate: EditorGraphIndex,
        below: Option<EditorGraphIndex>,
    ) -> EditorView {
        match self.position(mate) {
            Some(m) => {
                let lanes = self.lanes_left(ix);
                EditorView {
                    lanes: if lane_of(lanes, m.on, mate) is Some {
                        joined_lanes(lanes, ix, mate, m.on)
                    } else {
                        entered_lanes(lanes, ix, m.on, LaneCarry::Nothing, Seq::empty())
                    },
                    ..self.with_position(ix->Ref_0 as int, RefPosition { below, ..m })
                }
            },
            None => self,
        }
    }

    /// The graph with these parents of the node `n`.
    pub open spec fn with_parents(self, n: int, parents: Seq<EditorGraphIndex>) -> EditorView {
        EditorView {
            nodes: self.nodes.update(n, NodeView { parents, ..self.nodes[n] }),
            ..self
        }
    }

    /// The graph after the parent at `slot` has become `parent`.
    pub open spec fn replace_parent(
        self,
        ix: EditorGraphIndex,
        slot: usize,
        parent: EditorGraphIndex,
    ) -> EditorView {
        self.with_parents(ix->Node_0 as int, self.parents(ix).update(slot as int, parent))
    }

    /// The graph after the parent at `slot` is gone, and lanes no longer name its leg.
    pub open spec fn remove_parent(self, ix: EditorGraphIndex, slot: usize) -> EditorView {
        EditorView {
            lanes: edited_lanes(self.lanes, DropLeg { node: ix, slot }),
            ..self.with_parents(ix->Node_0 as int, self.parents(ix).remove(slot as int))
        }
    }
}

impl EditorGraph {
    /// An empty graph.
    pub fn new() -> (r: EditorGraph)
        ensures
            r@ == (EditorView {
                nodes: Seq::empty(),
                refs: Seq::empty(),
                lanes: Map::empty(),
            }),
    {
        let r = EditorGraph { nodes: Vec::new(), refs: Vec::new(), lanes: LaneTable::new() };
        assert(nodes_view(r.nodes@) =~= Seq::empty());
        assert(refs_view(r.refs@) =~= Seq::empty());
        r
    }

    /// Adds a commit without parents.
    pub fn add_node(&mut self, pick: Pick) -> (ix: EditorGraphIndex)
        ensures
            ix == EditorGraphIndex::Node(old(self)@.nodes.len() as usize),
            old(self)@.nodes.len() <= usize::MAX,
            final(self)@ == (EditorView {
                nodes: old(self)@.nodes.push(
                    NodeView { pick: Some(pick@), parents: Seq::empty() },
                ),
                ..old(self)@
            }),
    {
        let ghost before = self@;
        let n: usize = self.nodes.len();
        let node = NodeRec { pick: Some(pick), parents: Vec::new() };
        assert(node@ =~= NodeView { pick: Some(pick@), parents: Seq::empty() });
        self.nodes.push(node);
        assert(nodes_view(self.nodes@) =~= before.nodes.push(node@));
        EditorGraphIndex::Node(n)
    }

    /// Adds a reference without a position.
    pub fn add_reference(&mut self, name: RefName, mutable: bool) -> (ix: EditorGraphIndex)
        ensures
            ix == EditorGraphIndex::Ref(old(self)@.refs.len() as usize),
            old(self)@.refs.len() <= usize::MAX,
            final(self)@ == (EditorView {
                refs: old(self)@.refs.push(
                    RefView { name: name@, mutable, live: true, position: None },
                ),
                ..old(self)@
            }),
    {
        let ghost before = self@;
        let r: usize = self.refs.len();
        let rec = RefRec { name, mutable, live: true, position: None };
        self.refs.push(rec);
        assert(refs_view(self.refs@) =~= before.refs.push(rec@));
        EditorGraphIndex::Ref(r)
    }

    /// Where the reference sits, if `ix` is one that sits somewhere.
    pub fn position_of(&self, ix: EditorGraphIndex) -> (r: Option<RefPosition>)
        ensures
            r == self@.position(ix),
    {
        match ix {
            EditorGraphIndex::Ref(r) => {
                if r < self.refs.len() {
                    assert(self@.refs[r as int] == self.refs@[r as int]@);
                    self.refs[r].position
                } else {
                    None
                }
            },
            EditorGraphIndex::Node(_) => None,
        }
    }

    /// The parents of the commit.
    pub fn parents(&self, ix: EditorGraphIndex) -> (r: Vec<EditorGraphIndex>)
        ensures
            r@ == self@.parents(ix),
    {
        match ix {
            EditorGraphIndex::Node(n) => {
                if n < self.nodes.len() {
                    assert(self@.nodes[n as int] == self.nodes@[n as int]@);
                    crate::lanes::clone_list(&self.nodes[n].parents)
                } else {
                    Vec::new()
                }
            },
            EditorGraphIndex::Ref(_) => Vec::new(),
        }
    }

    /// The parent at `slot`, if there is one.
    pub fn parent_at(&self, ix: EditorGraphIndex, slot: usize) -> (r: Option<EditorGraphIndex>)
        ensures
            r == (if slot < self@.parents(ix).len() {
                Some(self@.parents(ix)[slot as int])
            } else {
                None
            }),
    {
        match ix {
            EditorGraphIndex::Node(n) => {
                if n < self.nodes.len() {
                    assert(self@.nodes[n as int] == self.nodes@[n as int]@);
                    if slot < self.nodes[n].parents.len() {
                        Some(self.nodes[n].parents[slot])
                    } else {
                        None
                    }
                } else {
                    None
                }
            },
            EditorGraphIndex::Ref(_) => None,
        }
    }

    /// How many parents the commit has.
    pub fn parent_count(&self, ix: EditorGraphIndex) -> (r: usize)
        ensures
            r == self@.parents(ix).len(),
    {
        match ix {
            EditorGraphIndex::Node(n) => {
                if n < self.nodes.len() {
                    assert(self@.nodes[n as int] == self.nodes@[n as int]@);
                    self.nodes[n].parents.len()
                } else {
                    0
                }
            },
            EditorGraphIndex::Ref(_) => 0,
        }
    }

    /// The commit at `ix`.
    pub fn pick_at(&self, ix: EditorGraphIndex) -> (r: Option<&Pick>)
        ensures
            r is Some <==> self@.pick(ix) is Some,
            r matches Some(pick) ==> self@.pick(ix) == Some(pick@),
    {
        match ix {
            EditorGraphIndex::Node(n) => {
                if n < self.nodes.len() {
                    assert(self@.nodes[n as int] == self.nodes@[n as int]@);
                    match &self.nodes[n].pick {
                        Some(pick) => Some(pick),
                        None => None,
                    }
                } else {
                    None
                }
            },
            EditorGraphIndex::Ref(_) => None,
        }
    }

    /// Whether `ix` is a commit.
    pub fn is_pick(&self, ix: EditorGraphIndex) -> (r: bool)
        ensures
            r == self@.is_pick(ix),
    {
        self.pick_at(ix).is_some()
    }

    /// The id of the commit at `ix`.
    pub fn commit_id(&self, ix: EditorGraphIndex) -> (r: Option<ObjectId>)
        ensures
            r == self@.commit_id(ix),
    {
        match self.pick_at(ix) {
            Some(pick) => Some(pick.id),
            None => None,
        }
    }

    /// Whether `ix` is a reference that was not removed.
    pub fn is_reference(&self, ix: EditorGraphIndex) -> (r: bool)
        ensures
            r == self@.is_reference(ix),
    {
        match ix {
            EditorGraphIndex::Ref(r) => {
                if r < self.refs.len() {
                    assert(self@.refs[r as int] == self.refs@[r as int]@);
                    self.refs[r].live
                } else {
                    false
                }
            },
            EditorGraphIndex::Node(_) => false,
        }
    }

    /// The reference at `ix`, unless it was removed, and whether it may be moved.
    pub fn reference(&self, ix: EditorGraphIndex) -> (r: Option<(&RefName, bool)>)
        ensures
            r is Some <==> self@.is_reference(ix),
            r matches Some((name, mutable)) ==> {
                &&& name@ == self@.refs[ix->Ref_0 as int].name
                &&& mutable == self@.refs[ix->Ref_0 as int].mutable
            },
    {
        match ix {
            EditorGraphIndex::Ref(r) => {
                if r < self.refs.len() {
                    assert(self@.refs[r as int] == self.refs@[r as int]@);
                    if self.refs[r].live {
                        Some((&self.refs[r].name, self.refs[r].mutable))
                    } else {
                        None
                    }
                } else {
                    None
                }
            },
            EditorGraphIndex::Node(_) => None,
        }
    }

    /// The step at `ix`.
    pub fn step_view(&self, ix: EditorGraphIndex) -> (r: Step)
        ensures
            r@ == self@.step(ix),
    {
        match self.reference(ix) {
            Some((name, _)) => Step::Reference { refname: name.clone() },
            None => match self.pick_at(ix) {
                Some(pick) => Step::Pick(pick.clone()),
                None => Step::Blank,
            },
        }
    }

    /// The legs into `node`, ascending.
    #[verifier::loop_isolation(false)]
    pub fn incoming_legs(&self, node: EditorGraphIndex) -> (r: Vec<EditorLeg>)
        ensures
            r@ == self@.incoming(node),
    {
        let ghost nodes = self@.nodes;
        let mut r: Vec<EditorLeg> = Vec::new();
        let mut child: usize = 0;
        while child < self.nodes.len()
            invariant
                child <= self.nodes@.len(),
                r@ == legs_among(nodes, node, child as int),
            decreases self.nodes.len() - child,
        {
            let ghost before = r@;
            let parents = &self.nodes[child].parents;
            assert(nodes[child as int] == self.nodes@[child as int]@);
            let mut slot: usize = 0;
            assert(before + legs_from(nodes, child as int, node, 0) =~= before);
            while slot < parents.len()
                invariant
                    slot <= parents@.len(),
                    r@ == before + legs_from(nodes, child as int, node, slot as int),
                decreases parents.len() - slot,
            {
                if parents[slot] == node {
                    let ghost so_far = legs_from(nodes, child as int, node, slot as int);
                    r.push((EditorGraphIndex::Node(child), slot));
                    assert(r@ =~= before + so_far.push((EditorGraphIndex::Node(child), slot)));
                }
                slot += 1;
            }
            child += 1;
        }
        r
    }

    /// The references that were not removed, ascending.
    #[verifier::loop_isolation(false)]
    pub fn references(&self) -> (r: Vec<EditorGraphIndex>)
        ensures
            r@ == live_refs(self@.refs, self@.refs.len() as int),
    {
        let mut r: Vec<EditorGraphIndex> = Vec::new();
        let mut i: usize = 0;
        while i < self.refs.len()
            invariant
                i <= self.refs@.len(),
                r@ == live_refs(self@.refs, i as int),
            decreases self.refs.len() - i,
        {
            assert(self@.refs[i as int] == self.refs@[i as int]@);
            if self.refs[i].live {
                r.push(EditorGraphIndex::Ref(i));
            }
            i += 1;
        }
        r
    }

    /// The references that sit somewhere, ascending, with where they sit; those that were removed
    /// among them.
    #[verifier::loop_isolation(false)]
    pub fn positioned_refs(&self) -> (r: Vec<(EditorGraphIndex, RefPosition)>)
        ensures
            r@ == placed_refs(self@.refs, self@.refs.len() as int),
    {
        let mut r: Vec<(EditorGraphIndex, RefPosition)> = Vec::new();
        let mut i: usize = 0;
        while i < self.refs.len()
            invariant
                i <= self.refs@.len(),
                r@ == placed_refs(self@.refs, i as int),
            decreases self.refs.len() - i,
        {
            assert(self@.refs[i as int] == self.refs@[i as int]@);
            if let Some(position) = self.refs[i].position {
                r.push((EditorGraphIndex::Ref(i), position));
            }
            i += 1;
        }
        r
    }

    /// All commits and what is left of removed ones, ascending.
    pub fn node_indices(&self) -> (r: Vec<EditorGraphIndex>)
        ensures
            r@ == Seq::new(
                self@.nodes.len(),
                |i: int| EditorGraphIndex::Node(i as usize),
            ),
    {
        let mut r: Vec<EditorGraphIndex> = Vec::new();
        let mut i: usize = 0;
        while i < self.nodes.len()
            invariant
                i <= self.nodes@.len(),
                r@ =~= Seq::new(i as nat, |i: int| EditorGraphIndex::Node(i as usize)),
            decreases self.nodes.len() - i,
        {
            r.push(EditorGraphIndex::Node(i));
            i += 1;
        }
        r
    }
}

/// Those of the first `n` references that were not removed.
pub open spec fn live_refs(refs: Seq<RefView>, n: int) -> Seq<EditorGraphIndex>
    decreases n,
{
    if n <= 0 {
        Seq::empty()
    } else {
        let before = live_refs(refs, n - 1);
        if refs[n - 1].live {
            before.push(EditorGraphIndex::Ref((n - 1) as usize))
        } else {
            before
        }
    }
}

/// Those of the first `n` references that sit somewhere, with where they sit.
pub open spec fn placed_refs(refs: Seq<RefView>, n: int) -> Seq<(EditorGraphIndex, RefPosition)>
    decreases n,
{
    if n <= 0 {
        Seq::empty()
    } else {
        let before = placed_refs(refs, n - 1);
        match refs[n - 1].position {
            Some(position) => before.push((EditorGraphIndex::Ref((n - 1) as usize), position)),
            None => before,
        }
    }
}

impl EditorView {
    /// The references that sit somewhere, ascending, with where they sit.
    pub open spec fn placed(self) -> Seq<(EditorGraphIndex, RefPosition)> {
        placed_refs(self.refs, self.refs.len() as int)
    }
}

/// Whether both hold the same legs, in whatever order.
fn leg_sets_agree(a: &Vec<EditorLeg>, b: &Vec<EditorLeg>) -> (r: bool)
    ensures
        r == same_leg_set(a@, b@),
{
    let ahead = all_contained(a, b);
    let back = all_contained(b, a);
    proof {
        if ahead && back {
            assert forall|l: EditorLeg| #[trigger] a@.contains(l) <==> b@.contains(l) by {
                if a@.contains(l) {
                    let i = choose|i: int| 0 <= i < a@.len() && a@[i] == l;
                    assert(b@.contains(a@[i]));
                }
                if b@.contains(l) {
                    let i = choose|i: int| 0 <= i < b@.len() && b@[i] == l;
                    assert(a@.contains(b@[i]));
                }
            }
        }
        if same_leg_set(a@, b@) {
            assert forall|i: int| 0 <= i < a@.len() implies b@.contains(#[trigger] a@[i]) by {
                assert(a@.contains(a@[i]));
            }
            assert forall|i: int| 0 <= i < b@.len() implies a@.contains(#[trigger] b@[i]) by {
                assert(b@.contains(b@[i]));
            }
        }
    }
    ahead && back
}

/// Whether `b` holds all of `a`.
fn all_contained(a: &Vec<EditorLeg>, b: &Vec<EditorLeg>) -> (r: bool)
    ensures
        r == forall|i: int| 0 <= i < a@.len() ==> b@.contains(#[trigger] a@[i]),
{
    let mut i: usize = 0;
    while i < a.len()
        invariant
            i <= a@.len(),
            forall|j: int| 0 <= j < i ==> b@.contains(#[trigger] a@[j]),
        decreases a.len() - i,
    {
        if !legs_contain(b, &a[i]) {
            return false;
        }
        i += 1;
    }
    true
}

/// How much of `legs` an approach through these legs carries, and the legs that its lane names.
pub fn classify_approach(approach: &Vec<EditorLeg>, legs: &Vec<EditorLeg>) -> (r: (
    LaneCarry,
    Vec<EditorLeg>,
))
    ensures
        r.0 == approach_carry(approach@, legs@),
        r.1@ == approach_legs(approach@, legs@),
{
    if approach.len() == 0 {
        (LaneCarry::Nothing, Vec::new())
    } else if leg_sets_agree(approach, legs) {
        (LaneCarry::All, Vec::new())
    } else {
        (LaneCarry::Count(approach.len()), clone_legs(approach))
    }
}

impl EditorGraph {
    /// Stores the position of the reference `r`.
    fn put_position(&mut self, r: usize, position: RefPosition)
        requires
            r < old(self).refs@.len(),
        ensures
            final(self)@ == old(self)@.with_position(r as int, position),
    {
        let ghost before = self@;
        self.refs[r].position = Some(position);
        assert(self@ =~= before.with_position(r as int, position)) by {
            assert(self@.refs =~= before.with_position(r as int, position).refs);
        }
    }

    /// Puts the reference on `on`, to be approached through these legs.
    pub fn set_position(
        &mut self,
        ix: EditorGraphIndex,
        on: EditorGraphIndex,
        approach: &Vec<EditorLeg>,
        ambiguous: bool,
        below: Option<EditorGraphIndex>,
    )
        requires
            old(self)@.has_ref(ix),
        ensures
            final(self)@ == old(self)@.set_position(ix, on, approach@, ambiguous, below),
    {
        let ghost before = self@;
        let legs = legs_onto(self, on);
        let (carry, named) = classify_approach(approach, &legs);
        if let Some(stored) = self.position_of(ix) {
            self.lanes.remove_member(ix, stored.on);
        }
        self.lanes.insert_member(ix, on, carry, named);
        if let EditorGraphIndex::Ref(r) = ix {
            self.put_position(r, RefPosition { on, below, ambiguous });
        }
    }

    /// Points the reference at `on`, with all else of its position as it was.
    pub fn rekey_position(&mut self, ix: EditorGraphIndex, on: EditorGraphIndex)
        ensures
            final(self)@ == old(self)@.rekey_position(ix, on),
    {
        let stored = match self.position_of(ix) {
            Some(stored) => stored,
            None => return,
        };
        if stored.on == on {
            return;
        }
        let (carry, legs) = match self.lanes.find(stored.on, ix) {
            Some(lane) => (lane.carry, clone_legs(&lane.legs)),
            None => (LaneCarry::Nothing, Vec::new()),
        };
        self.lanes.remove_member(ix, stored.on);
        self.lanes.insert_member(ix, on, carry, legs);
        if let EditorGraphIndex::Ref(r) = ix {
            self.put_position(
                r,
                RefPosition { on, below: stored.below, ambiguous: stored.ambiguous },
            );
        }
    }

    /// Puts the reference above `below`.
    pub fn set_below(&mut self, ix: EditorGraphIndex, below: Option<EditorGraphIndex>)
        ensures
            final(self)@ == old(self)@.set_below(ix, below),
    {
        if let Some(stored) = self.position_of(ix) {
            if let EditorGraphIndex::Ref(r) = ix {
                self.put_position(
                    r,
                    RefPosition { on: stored.on, below, ambiguous: stored.ambiguous },
                );
            }
        }
    }

    /// The reference joins the lane of `mate`, above `below`.
    pub fn join_lane_of(
        &mut self,
        ix: EditorGraphIndex,
        mate: EditorGraphIndex,
        below: Option<EditorGraphIndex>,
    )
        requires
            old(self)@.has_ref(ix),
        ensures
            final(self)@ == old(self)@.join_lane_of(ix, mate, below),
    {
        let m = match self.position_of(mate) {
            Some(m) => m,
            None => return,
        };
        if let Some(stored) = self.position_of(ix) {
            self.lanes.remove_member(ix, stored.on);
        }
        if !self.lanes.join_member(ix, mate, m.on) {
            self.lanes.insert_member(ix, m.on, LaneCarry::Nothing, Vec::new());
        }
        if let EditorGraphIndex::Ref(r) = ix {
            self.put_position(r, RefPosition { on: m.on, below, ambiguous: m.ambiguous });
        }
    }

    /// Adds a parent behind the others.
    pub fn push_parent(&mut self, ix: EditorGraphIndex, parent: EditorGraphIndex)
        requires
            ix matches EditorGraphIndex::Node(n) && n < old(self)@.nodes.len(),
        ensures
            final(self)@ == old(self)@.with_parents(
                ix->Node_0 as int,
                old(self)@.parents(ix).push(parent),
            ),
    {
        let ghost before = self@;
        if let EditorGraphIndex::Node(n) = ix {
            assert(before.nodes[n as int] == self.nodes@[n as int]@);
            self.nodes[n].parents.push(parent);
            assert(self@.nodes =~= before.with_parents(
                n as int,
                before.parents(ix).push(parent),
            ).nodes);
        }
    }

    /// The parent at `slot` becomes `parent`.
    pub fn replace_parent(&mut self, ix: EditorGraphIndex, slot: usize, parent: EditorGraphIndex)
        requires
            slot < old(self)@.parents(ix).len(),
        ensures
            final(self)@ == old(self)@.replace_parent(ix, slot, parent),
    {
        let ghost before = self@;
        if let EditorGraphIndex::Node(n) = ix {
            assert(before.nodes[n as int] == self.nodes@[n as int]@);
            self.nodes[n].parents.set(slot, parent);
            assert(self@.nodes =~= before.replace_parent(ix, slot, parent).nodes);
        }
    }

    /// The parent at `slot` goes; lanes no longer name its leg, and name those behind it anew.
    pub fn remove_parent(&mut self, ix: EditorGraphIndex, slot: usize)
        requires
            slot < old(self)@.parents(ix).len(),
        ensures
            final(self)@ == old(self)@.remove_parent(ix, slot),
    {
        let ghost before = self@;
        if let EditorGraphIndex::Node(n) = ix {
            assert(before.nodes[n as int] == self.nodes@[n as int]@);
            self.nodes[n].parents.remove(slot);
            self.lanes.edit_all(&DropLeg { node: ix, slot });
            assert(self@.nodes =~= before.remove_parent(ix, slot).nodes);
        }
    }

    /// Stores the parents that the commit keeps.
    pub fn set_preserved_parents(&mut self, ix: EditorGraphIndex, parents: Option<Vec<ObjectId>>)
        requires
            old(self)@.is_pick(ix),
        ensures
            final(self)@ == (EditorView {
                nodes: old(self)@.nodes.update(
                    ix->Node_0 as int,
                    NodeView {
                        pick: Some(
                            PickView {
                                preserved_parents: opt_ids(parents),
                                ..old(self)@.pick(ix)->0
                            },
                        ),
                        ..old(self)@.nodes[ix->Node_0 as int]
                    },
                ),
                ..old(self)@
            }),
    {
        let ghost before = self@;
        if let EditorGraphIndex::Node(n) = ix {
            assert(before.nodes[n as int] == self.nodes@[n as int]@);
            if let Some(old_pick) = &self.nodes[n].pick {
                let mut pick = old_pick.clone();
                pick.preserved_parents = parents;
                self.nodes[n].pick = Some(pick);
                assert(self@.nodes =~= before.nodes.update(n as int, self.nodes@[n as int]@));
            }
        }
    }
}

/// The listed references are those that sit somewhere, ascending, each with where it sits.
pub proof fn lemma_placed_refs(refs: Seq<RefView>, n: int)
    requires
        0 <= n <= refs.len(),
        refs.len() <= usize::MAX,
    ensures
        ({
            let list = placed_refs(refs, n);
            &&& forall|i: int|
                0 <= i < list.len() ==> {
                    &&& (#[trigger] list[i]).0 is Ref
                    &&& list[i].0->Ref_0 < n
                    &&& refs[list[i].0->Ref_0 as int].position == Some(list[i].1)
                }
            &&& forall|i: int, j: int|
                0 <= i < j < list.len() ==> (#[trigger] list[i]).0->Ref_0 < (
                #[trigger] list[j]).0->Ref_0
            &&& forall|r: int|
                0 <= r < n && (#[trigger] refs[r]).position is Some ==> list.contains(
                    (EditorGraphIndex::Ref(r as usize), refs[r].position->0),
                )
        }),
    decreases n,
{
    if n > 0 {
        lemma_placed_refs(refs, n - 1);
        let before = placed_refs(refs, n - 1);
        let list = placed_refs(refs, n);
        assert forall|r: int|
            0 <= r < n && (#[trigger] refs[r]).position is Some implies list.contains(
            (EditorGraphIndex::Ref(r as usize), refs[r].position->0),
        ) by {
            let entry = (EditorGraphIndex::Ref(r as usize), refs[r].position->0);
            if r < n - 1 {
                assert(before.contains(entry));
                let i = choose|i: int| 0 <= i < before.len() && before[i] == entry;
                assert(list[i] == entry);
            } else {
                assert(list[list.len() - 1] == entry);
            }
        }
    } else {
        assert(placed_refs(refs, n).len() == 0);
    }
}

impl EditorView {
    /// The number of references and of commits is one that memory can hold.
    pub open spec fn fits(self) -> bool {
        self.refs.len() <= usize::MAX && self.nodes.len() <= usize::MAX
    }

    /// The references that sit somewhere are references of the graph, and sit there.
    pub proof fn lemma_placed(self)
        requires
            self.fits(),
        ensures
            forall|i: int|
                0 <= i < self.placed().len() ==> self.has_ref((#[trigger] self.placed()[i]).0)
                    && self.position(self.placed()[i].0) == Some(self.placed()[i].1),
            forall|i: int, j: int|
                0 <= i < self.placed().len() && 0 <= j < self.placed().len() && (
                #[trigger] self.placed()[i]).0 == (#[trigger] self.placed()[j]).0 ==> i == j,
            forall|ix: EditorGraphIndex| #[trigger]
                self.position(ix) is Some ==> self.placed().contains((ix, self.position(ix)->0)),
    {
        lemma_placed_refs(self.refs, self.refs.len() as int);
        assert forall|ix: EditorGraphIndex| #[trigger]
            self.position(ix) is Some implies self.placed().contains((ix, self.position(ix)->0)) by {
            assert(self.refs[ix->Ref_0 as int].position is Some);
        }
        assert forall|i: int, j: int|
            0 <= i < self.placed().len() && 0 <= j < self.placed().len() && (
            #[trigger] self.placed()[i]).0 == (#[trigger] self.placed()[j]).0 implies i == j by {
            if i < j {
                assert(self.placed()[i].0->Ref_0 < self.placed()[j].0->Ref_0);
            } else if j < i {
                assert(self.placed()[j].0->Ref_0 < self.placed()[i].0->Ref_0);
            }
        }
    }
}

impl EditorGraph {
    /// What memory holds fits.
    pub fn fits(&self) -> (r: usize)
        ensures
            self@.fits(),
            r == self@.refs.len(),
    {
        let n: usize = self.nodes.len();
        self.refs.len()
    }
}

} // verus!
