//! A graph of rebase steps. Nodes are never removed, so that their indices stay; edges live in
//! slots, so that theirs stay too. Commits have ordered edges to their parents, references have
//! explicit positions instead.

use crate::editor_graph::WALK_LIMIT;
use crate::lanes::{
    clone_legs, edited_lanes, entered_lanes, joined_lanes, lane_of, left_lanes, lanes_view,
    legs_contain, recount, recounted, rename_in_legs, renamed_legs, sort_legs, LaneCarry, LaneRec,
    LaneTable, LaneView, RenameLeg,
};
use crate::order::{ascending, sorted};
use crate::seqs::{
    lemma_filter_contains, lemma_filter_none, lemma_filter_take, lemma_push_contains,
    lemma_take_all,
};
use crate::step::{Step, StepView};
use std::collections::HashMap;
use vstd::prelude::*;

verus! {

/// The stable index of a step.
pub type StepGraphIndex = usize;

/// The stable index of an edge.
pub type StepEdgeIndex = usize;

/// A leg into a step: the step that it comes from, and the order of the edge.
pub type StepLeg = (StepGraphIndex, usize);

/// Which edges of a step to look at.
#[derive(Debug, Clone, Copy, PartialEq, Eq, Structural)]
pub enum Direction {
    /// Those towards its parents.
    Outgoing,
    /// Those from its children.
    Incoming,
}

/// What an edge carries: which of the parents it leads to.
#[derive(Debug, Clone, Copy, PartialEq, Eq, Structural)]
pub struct Edge {
    /// The place among the parents.
    pub order: usize,
}

/// An edge.
#[derive(Debug, Clone, Copy, PartialEq, Eq, Structural)]
pub struct EdgeRecord {
    /// The step that the edge leaves, on the side of the child.
    pub source: StepGraphIndex,
    /// The step that the edge reaches, on the side of the parent.
    pub target: StepGraphIndex,
    /// What the edge carries.
    pub weight: Edge,
}

/// An edge with its index.
#[derive(Debug, Clone, Copy, PartialEq, Eq, Structural)]
pub struct StepEdgeRef {
    /// The index of the edge.
    pub id: StepEdgeIndex,
    /// The edge.
    pub record: EdgeRecord,
}

impl StepEdgeRef {
    /// The index of the edge.
    pub fn id(&self) -> (r: StepEdgeIndex)
        ensures
            r == self.id,
    {
        self.id
    }

    /// The step that the edge leaves.
    pub fn source(&self) -> (r: StepGraphIndex)
        ensures
            r == self.record.source,
    {
        self.record.source
    }

    /// The step that the edge reaches.
    pub fn target(&self) -> (r: StepGraphIndex)
        ensures
            r == self.record.target,
    {
        self.record.target
    }

    /// What the edge carries.
    pub fn weight(&self) -> (r: Edge)
        ensures
            r == self.record.weight,
    {
        self.record.weight
    }
}

/// How the legs that approach a reference relate to the legs into what it is anchored at.
#[derive(Debug)]
pub enum ApproachKind {
    /// Nothing descends into the position.
    Root,
    /// Every leg feeds the position.
    AllLegs,
    /// Only these legs feed the position.
    Lane(Vec<StepLeg>),
}

/// Where a reference sits.
#[derive(Debug)]
pub struct StoredAnchor {
    /// The step that the reference points at.
    pub anchor: StepGraphIndex,
    /// The place among the references on one anchor, the closest one first.
    pub rank: usize,
    /// How the legs that approach the reference relate to the legs into its anchor.
    pub kind: ApproachKind,
    /// Whether more than one thing converged on the position.
    pub ambiguous: bool,
}

/// What an [`ApproachKind`] stands for.
#[verifier::ext_equal]
pub enum KindView {
    /// Nothing descends into the position.
    Root,
    /// Every leg feeds the position.
    AllLegs,
    /// Only these legs feed the position.
    Lane(Seq<StepLeg>),
}

/// What a [`StoredAnchor`] stands for.
#[verifier::ext_equal]
pub struct AnchorView {
    /// The step that the reference points at.
    pub anchor: StepGraphIndex,
    /// The place among the references on one anchor.
    pub rank: usize,
    /// How the legs that approach the reference relate to the legs into its anchor.
    pub kind: KindView,
    /// Whether more than one thing converged on the position.
    pub ambiguous: bool,
}

impl View for ApproachKind {
    type V = KindView;

    open spec fn view(&self) -> KindView {
        match self {
            ApproachKind::Root => KindView::Root,
            ApproachKind::AllLegs => KindView::AllLegs,
            ApproachKind::Lane(legs) => KindView::Lane(legs@),
        }
    }
}

impl View for StoredAnchor {
    type V = AnchorView;

    open spec fn view(&self) -> AnchorView {
        AnchorView {
            anchor: self.anchor,
            rank: self.rank,
            kind: self.kind@,
            ambiguous: self.ambiguous,
        }
    }
}

impl Clone for ApproachKind {
    fn clone(&self) -> (r: Self)
        ensures
            r@ == self@,
    {
        match self {
            ApproachKind::Root => ApproachKind::Root,
            ApproachKind::AllLegs => ApproachKind::AllLegs,
            ApproachKind::Lane(legs) => ApproachKind::Lane(clone_legs(legs)),
        }
    }
}

impl Default for ApproachKind {
    fn default() -> (r: Self)
        ensures
            r@ == KindView::Root,
    {
        ApproachKind::Root
    }
}

impl Clone for StoredAnchor {
    fn clone(&self) -> (r: Self)
        ensures
            r@ == self@,
    {
        StoredAnchor {
            anchor: self.anchor,
            rank: self.rank,
            kind: self.kind.clone(),
            ambiguous: self.ambiguous,
        }
    }
}

/// The graph.
pub struct StepGraph {
    /// The steps.
    pub nodes: Vec<Step>,
    /// The edges; those that were removed leave their slot empty.
    pub edges: Vec<Option<EdgeRecord>>,
    /// The edges that leave each step, in the order in which they came.
    pub outgoing: Vec<Vec<StepEdgeIndex>>,
    /// The edges that reach each step, in the order in which they came.
    pub incoming: Vec<Vec<StepEdgeIndex>>,
    /// Where the references sit.
    pub anchors: Vec<Option<StoredAnchor>>,
    /// The lanes that the references are in, by what they are anchored at.
    pub lanes: LaneTable<StepGraphIndex>,
}

/// What a [`StepGraph`] stands for.
#[verifier::ext_equal]
pub struct StepGraphView {
    /// The steps.
    pub nodes: Seq<StepView>,
    /// The edges.
    pub edges: Seq<Option<EdgeRecord>>,
    /// The edges that leave each step.
    pub outgoing: Seq<Seq<StepEdgeIndex>>,
    /// The edges that reach each step.
    pub incoming: Seq<Seq<StepEdgeIndex>>,
    /// Where the references sit.
    pub anchors: Seq<Option<AnchorView>>,
    /// The lanes.
    pub lanes: Map<StepGraphIndex, Seq<LaneView<StepGraphIndex>>>,
}

/// What the steps stand for.
pub open spec fn steps_view(steps: Seq<Step>) -> Seq<StepView> {
    steps.map_values(|s: Step| s@)
}

/// What an optional anchor stands for.
pub open spec fn opt_anchor(anchor: Option<StoredAnchor>) -> Option<AnchorView> {
    match anchor {
        Some(anchor) => Some(anchor@),
        None => None,
    }
}

/// What the anchors stand for.
pub open spec fn anchors_view(anchors: Seq<Option<StoredAnchor>>) -> Seq<Option<AnchorView>> {
    anchors.map_values(|a: Option<StoredAnchor>| opt_anchor(a))
}

/// The lists themselves.
pub open spec fn id_lists(lists: Seq<Vec<StepEdgeIndex>>) -> Seq<Seq<StepEdgeIndex>> {
    lists.map_values(|l: Vec<StepEdgeIndex>| l@)
}

impl View for StepGraph {
    type V = StepGraphView;

    open spec fn view(&self) -> StepGraphView {
        StepGraphView {
            nodes: steps_view(self.nodes@),
            edges: self.edges@,
            outgoing: id_lists(self.outgoing@),
            incoming: id_lists(self.incoming@),
            anchors: anchors_view(self.anchors@),
            lanes: self.lanes@,
        }
    }
}

/// The lists hold, for each step, the edges that have it at this end, each once.
pub open spec fn adjacent(
    lists: Seq<Seq<StepEdgeIndex>>,
    edges: Seq<Option<EdgeRecord>>,
    end: spec_fn(EdgeRecord) -> StepGraphIndex,
) -> bool {
    &&& forall|n: int, id: StepEdgeIndex|
        0 <= n < lists.len() ==> (#[trigger] lists[n].contains(id) <==> id < edges.len()
            && edges[id as int] is Some && end(edges[id as int]->0) == n)
    &&& forall|n: int| 0 <= n < lists.len() ==> (#[trigger] lists[n]).no_duplicates()
}

/// The step that an edge leaves.
pub open spec fn source_end() -> spec_fn(EdgeRecord) -> StepGraphIndex {
    |e: EdgeRecord| e.source
}

/// The step that an edge reaches.
pub open spec fn target_end() -> spec_fn(EdgeRecord) -> StepGraphIndex {
    |e: EdgeRecord| e.target
}

/// How much a lane of this kind carries.
pub open spec fn kind_carry(kind: KindView) -> LaneCarry {
    match kind {
        KindView::Root => LaneCarry::Nothing,
        KindView::AllLegs => LaneCarry::All,
        KindView::Lane(legs) => LaneCarry::Count(legs.len() as usize),
    }
}

/// The legs that a lane of this kind names.
pub open spec fn kind_legs(kind: KindView) -> Seq<StepLeg> {
    match kind {
        KindView::Lane(legs) => legs,
        _ => Seq::empty(),
    }
}

/// Whether an edge is another one.
pub open spec fn other_than(id: StepEdgeIndex) -> spec_fn(StepEdgeIndex) -> bool {
    |e: StepEdgeIndex| e != id
}

impl StepGraphView {
    /// Each step has its lists and its place for an anchor, edges are between steps of the graph,
    /// and the lists hold exactly the edges that are there.
    pub open spec fn wf(self) -> bool {
        &&& self.outgoing.len() == self.nodes.len()
        &&& self.incoming.len() == self.nodes.len()
        &&& self.anchors.len() == self.nodes.len()
        &&& forall|id: int|
            0 <= id < self.edges.len() && (#[trigger] self.edges[id]) is Some
                ==> self.edges[id]->0.source < self.nodes.len() && self.edges[id]->0.target
                < self.nodes.len()
        &&& adjacent(self.outgoing, self.edges, source_end())
        &&& adjacent(self.incoming, self.edges, target_end())
    }

    /// Where the reference sits, if `node` is one that sits somewhere.
    pub open spec fn anchor(self, node: StepGraphIndex) -> Option<AnchorView> {
        if node < self.anchors.len() {
            self.anchors[node as int]
        } else {
            None
        }
    }

    /// The lanes after the reference has left its lane.
    pub open spec fn lanes_left(self, node: StepGraphIndex) -> Map<
        StepGraphIndex,
        Seq<LaneView<StepGraphIndex>>,
    > {
        match self.anchor(node) {
            Some(previous) => left_lanes(self.lanes, node, previous.anchor),
            None => self.lanes,
        }
    }

    /// The graph after the reference was put somewhere, or nowhere.
    pub open spec fn set_anchor(
        self,
        node: StepGraphIndex,
        anchor: Option<AnchorView>,
    ) -> StepGraphView {
        StepGraphView {
            anchors: self.anchors.update(node as int, anchor),
            lanes: match anchor {
                Some(stored) => entered_lanes(
                    self.lanes_left(node),
                    node,
                    stored.anchor,
                    kind_carry(stored.kind),
                    kind_legs(stored.kind),
                ),
                None => self.lanes_left(node),
            },
            ..self
        }
    }

    /// The graph after the reference has joined the lane of `mate`.
    pub open spec fn join_lane_of(
        self,
        node: StepGraphIndex,
        mate: StepGraphIndex,
        rank: usize,
    ) -> StepGraphView {
        match self.anchor(mate) {
            Some(m) => {
                let lanes = self.lanes_left(node);
                StepGraphView {
                    anchors: self.anchors.update(node as int, Some(AnchorView { rank, ..m })),
                    lanes: if lane_of(lanes, m.anchor, mate) is Some {
                        joined_lanes(lanes, node, mate, m.anchor)
                    } else {
                        entered_lanes(
                            lanes,
                            node,
                            m.anchor,
                            kind_carry(m.kind),
                            kind_legs(m.kind),
                        )
                    },
                    ..self
                }
            },
            None => self,
        }
    }

    /// The graph after the reference is anchored elsewhere, with what its lane carries.
    pub open spec fn rekey_anchor(
        self,
        node: StepGraphIndex,
        new_anchor: StepGraphIndex,
    ) -> StepGraphView {
        match self.anchor(node) {
            Some(stored) => if stored.anchor == new_anchor {
                self
            } else {
                let (carry, legs) = match lane_of(self.lanes, stored.anchor, node) {
                    Some(lane) => (lane.carry, lane.legs),
                    None => (kind_carry(stored.kind), kind_legs(stored.kind)),
                };
                StepGraphView {
                    anchors: self.anchors.update(
                        node as int,
                        Some(AnchorView { anchor: new_anchor, ..stored }),
                    ),
                    lanes: entered_lanes(
                        left_lanes(self.lanes, node, stored.anchor),
                        node,
                        new_anchor,
                        carry,
                        legs,
                    ),
                    ..self
                }
            },
            None => self,
        }
    }

    /// The graph after the rank of the reference has changed.
    pub open spec fn set_rank(self, node: StepGraphIndex, rank: usize) -> StepGraphView {
        match self.anchors[node as int] {
            Some(stored) => StepGraphView {
                anchors: self.anchors.update(node as int, Some(AnchorView { rank, ..stored })),
                ..self
            },
            None => self,
        }
    }

    /// The edge with its index.
    pub open spec fn edge_at(self, id: StepEdgeIndex) -> StepEdgeRef {
        StepEdgeRef { id, record: self.edges[id as int]->0 }
    }

    /// The edges of the step in this direction, the newest one first.
    pub open spec fn directed(self, node: StepGraphIndex, direction: Direction) -> Seq<StepEdgeRef> {
        let list = match direction {
            Direction::Outgoing => self.outgoing[node as int],
            Direction::Incoming => self.incoming[node as int],
        };
        list.reverse().map_values(|id: StepEdgeIndex| self.edge_at(id))
    }

    /// Those of the first `n` edges that are there, with their indices.
    pub open spec fn live_edges(self, n: int) -> Seq<StepEdgeRef>
        decreases n,
    {
        if n <= 0 {
            Seq::empty()
        } else {
            let before = self.live_edges(n - 1);
            if self.edges[n - 1] is Some {
                before.push(self.edge_at((n - 1) as usize))
            } else {
                before
            }
        }
    }

    /// The graph with one more edge.
    pub open spec fn add_edge(
        self,
        source: StepGraphIndex,
        target: StepGraphIndex,
        weight: Edge,
    ) -> StepGraphView {
        let id = self.edges.len() as usize;
        StepGraphView {
            edges: self.edges.push(Some(EdgeRecord { source, target, weight })),
            outgoing: self.outgoing.update(source as int, self.outgoing[source as int].push(id)),
            incoming: self.incoming.update(target as int, self.incoming[target as int].push(id)),
            ..self
        }
    }

    /// The graph without the edge.
    pub open spec fn remove_edge(self, id: StepEdgeIndex) -> StepGraphView {
        if id < self.edges.len() && self.edges[id as int] is Some {
            let e = self.edges[id as int]->0;
            StepGraphView {
                edges: self.edges.update(id as int, None),
                outgoing: self.outgoing.update(
                    e.source as int,
                    self.outgoing[e.source as int].filter(other_than(id)),
                ),
                incoming: self.incoming.update(
                    e.target as int,
                    self.incoming[e.target as int].filter(other_than(id)),
                ),
                ..self
            }
        } else {
            self
        }
    }

    /// The graph after the edge leads elsewhere; it is the newest one of both steps then.
    pub open spec fn move_edge(
        self,
        id: StepEdgeIndex,
        new_target: StepGraphIndex,
        new_weight: Edge,
    ) -> StepGraphView {
        if id < self.edges.len() && self.edges[id as int] is Some {
            let e = self.edges[id as int]->0;
            let left = self.incoming.update(
                e.target as int,
                self.incoming[e.target as int].filter(other_than(id)),
            );
            StepGraphView {
                edges: self.edges.update(
                    id as int,
                    Some(EdgeRecord { source: e.source, target: new_target, weight: new_weight }),
                ),
                outgoing: self.outgoing.update(
                    e.source as int,
                    self.outgoing[e.source as int].filter(other_than(id)).push(id),
                ),
                incoming: left.update(new_target as int, left[new_target as int].push(id)),
                ..self
            }
        } else {
            self
        }
    }

    /// The graph after the leg has got a new name.
    pub open spec fn rename_leg(self, old_leg: StepLeg, new_leg: StepLeg) -> StepGraphView {
        StepGraphView {
            lanes: edited_lanes(self.lanes, RenameLeg { old_leg, new_leg }),
            anchors: self.anchors.map_values(
                |a: Option<AnchorView>| renamed_anchor(a, old_leg, new_leg),
            ),
            ..self
        }
    }
}

/// The anchor after the leg has got a new name.
pub open spec fn renamed_anchor(
    anchor: Option<AnchorView>,
    old_leg: StepLeg,
    new_leg: StepLeg,
) -> Option<AnchorView> {
    match anchor {
        Some(stored) => match stored.kind {
            KindView::Lane(legs) => Some(
                AnchorView { kind: KindView::Lane(renamed_legs(legs, old_leg, new_leg)), ..stored },
            ),
            _ => Some(stored),
        },
        None => None,
    }
}

/// The list without the edge.
fn ids_without(list: &Vec<StepEdgeIndex>, id: StepEdgeIndex) -> (r: Vec<StepEdgeIndex>)
    ensures
        r@ == list@.filter(other_than(id)),
{
    let ghost keep = other_than(id);
    let mut r: Vec<StepEdgeIndex> = Vec::new();
    let mut i: usize = 0;
    proof {
        lemma_filter_none(list@, keep);
    }
    while i < list.len()
        invariant
            i <= list@.len(),
            keep == other_than(id),
            r@ == list@.take(i as int).filter(keep),
        decreases list.len() - i,
    {
        proof {
            lemma_filter_take(list@, keep, i as int);
        }
        if list[i] != id {
            r.push(list[i]);
        }
        i += 1;
    }
    proof {
        lemma_take_all(list@);
    }
    r
}

proof fn lemma_filter_distinct(list: Seq<StepEdgeIndex>, id: StepEdgeIndex)
    requires
        list.no_duplicates(),
    ensures
        list.filter(other_than(id)).no_duplicates(),
        forall|x: StepEdgeIndex| #[trigger]
            list.filter(other_than(id)).contains(x) <==> list.contains(x) && x != id,
    decreases list.len(),
{
    reveal(Seq::filter);
    let keep = other_than(id);
    assert forall|x: StepEdgeIndex| #[trigger] list.filter(keep).contains(x) <==> list.contains(x)
        && x != id by {
        lemma_filter_contains(list, keep, x);
    }
    if list.len() > 0 {
        let d = list.drop_last();
        assert(d.no_duplicates());
        lemma_filter_distinct(d, id);
        if keep(list.last()) {
            let kept = d.filter(keep);
            assert(!d.contains(list.last()));
            assert(!kept.contains(list.last()));
            assert(list.filter(keep) == kept.push(list.last()));
            let now = kept.push(list.last());
            assert forall|i: int, j: int| 0 <= i < now.len() && 0 <= j < now.len() && i
                != j implies now[i] != now[j] by {
                if i < kept.len() && j == kept.len() {
                    assert(kept.contains(kept[i]));
                } else if j < kept.len() && i == kept.len() {
                    assert(kept.contains(kept[j]));
                }
            }
        }
    }
}

proof fn lemma_adjacent_added(
    lists: Seq<Seq<StepEdgeIndex>>,
    edges: Seq<Option<EdgeRecord>>,
    end: spec_fn(EdgeRecord) -> StepGraphIndex,
    e: EdgeRecord,
)
    requires
        adjacent(lists, edges, end),
        end(e) < lists.len(),
        edges.len() < usize::MAX,
    ensures
        adjacent(
            lists.update(end(e) as int, lists[end(e) as int].push(edges.len() as usize)),
            edges.push(Some(e)),
            end,
        ),
{
    let id = edges.len() as usize;
    let at = end(e) as int;
    let now = lists.update(at, lists[at].push(id));
    let all = edges.push(Some(e));
    assert forall|n: int, x: StepEdgeIndex| 0 <= n < now.len() implies (#[trigger] now[n].contains(x)
        <==> x < all.len() && all[x as int] is Some && end(all[x as int]->0) == n) by {
        assert(lists[n].contains(x) <==> x < edges.len() && edges[x as int] is Some && end(
            edges[x as int]->0,
        ) == n);
        if n == at {
            lemma_push_contains(lists[at], id, x);
        }
    }
    assert forall|n: int| 0 <= n < now.len() implies (#[trigger] now[n]).no_duplicates() by {
        assert(lists[n].no_duplicates());
        if n == at {
            assert(!lists[at].contains(id));
            let l = lists[at];
            let u = l.push(id);
            assert forall|i: int, j: int| 0 <= i < u.len() && 0 <= j < u.len() && i != j implies u[i]
                != u[j] by {
                if i < l.len() && j == l.len() {
                    assert(l.contains(l[i]));
                } else if j < l.len() && i == l.len() {
                    assert(l.contains(l[j]));
                }
            }
        }
    }
}

/// The lists hold the edges that are there when one of them is gone.
pub proof fn lemma_adjacent_removed(
    lists: Seq<Seq<StepEdgeIndex>>,
    edges: Seq<Option<EdgeRecord>>,
    end: spec_fn(EdgeRecord) -> StepGraphIndex,
    id: StepEdgeIndex,
)
    requires
        adjacent(lists, edges, end),
        id < edges.len(),
        edges[id as int] is Some,
        end(edges[id as int]->0) < lists.len(),
    ensures
        ({
            let at = end(edges[id as int]->0) as int;
            adjacent(
                lists.update(at, lists[at].filter(other_than(id))),
                edges.update(id as int, None),
                end,
            )
        }),
{
    let at = end(edges[id as int]->0) as int;
    let now = lists.update(at, lists[at].filter(other_than(id)));
    let all = edges.update(id as int, None);
    assert(lists[at].no_duplicates());
    lemma_filter_distinct(lists[at], id);
    assert forall|n: int, x: StepEdgeIndex| 0 <= n < now.len() implies (#[trigger] now[n].contains(x)
        <==> x < all.len() && all[x as int] is Some && end(all[x as int]->0) == n) by {
        assert(lists[n].contains(x) <==> x < edges.len() && edges[x as int] is Some && end(
            edges[x as int]->0,
        ) == n);
    }
    assert forall|n: int| 0 <= n < now.len() implies (#[trigger] now[n]).no_duplicates() by {
        assert(lists[n].no_duplicates());
    }
}

proof fn lemma_adjacent_put_back(
    lists: Seq<Seq<StepEdgeIndex>>,
    edges: Seq<Option<EdgeRecord>>,
    end: spec_fn(EdgeRecord) -> StepGraphIndex,
    id: StepEdgeIndex,
    e: EdgeRecord,
)
    requires
        adjacent(lists, edges, end),
        id < edges.len(),
        edges[id as int] is None,
        end(e) < lists.len(),
    ensures
        adjacent(
            lists.update(end(e) as int, lists[end(e) as int].push(id)),
            edges.update(id as int, Some(e)),
            end,
        ),
{
    let at = end(e) as int;
    let now = lists.update(at, lists[at].push(id));
    let all = edges.update(id as int, Some(e));
    assert forall|n: int, x: StepEdgeIndex| 0 <= n < now.len() implies (#[trigger] now[n].contains(x)
        <==> x < all.len() && all[x as int] is Some && end(all[x as int]->0) == n) by {
        assert(lists[n].contains(x) <==> x < edges.len() && edges[x as int] is Some && end(
            edges[x as int]->0,
        ) == n);
        if n == at {
            lemma_push_contains(lists[at], id, x);
        }
    }
    assert forall|n: int| 0 <= n < now.len() implies (#[trigger] now[n]).no_duplicates() by {
        assert(lists[n].no_duplicates());
        if n == at {
            assert(!lists[at].contains(id));
            let l = lists[at];
            let u = l.push(id);
            assert forall|i: int, j: int| 0 <= i < u.len() && 0 <= j < u.len() && i != j implies u[i]
                != u[j] by {
                if i < l.len() && j == l.len() {
                    assert(l.contains(l[i]));
                } else if j < l.len() && i == l.len() {
                    assert(l.contains(l[j]));
                }
            }
        }
    }
}

impl StepGraph {
    /// An empty graph.
    pub fn new() -> (r: StepGraph)
        ensures
            r@ == (StepGraphView {
                nodes: Seq::empty(),
                edges: Seq::empty(),
                outgoing: Seq::empty(),
                incoming: Seq::empty(),
                anchors: Seq::empty(),
                lanes: Map::empty(),
            }),
            r@.wf(),
    {
        let r = StepGraph {
            nodes: Vec::new(),
            edges: Vec::new(),
            outgoing: Vec::new(),
            incoming: Vec::new(),
            anchors: Vec::new(),
            lanes: LaneTable::new(),
        };
        assert(steps_view(r.nodes@) =~= Seq::empty());
        assert(r.edges@ =~= Seq::empty());
        assert(id_lists(r.outgoing@) =~= Seq::empty());
        assert(id_lists(r.incoming@) =~= Seq::empty());
        assert(anchors_view(r.anchors@) =~= Seq::empty());
        r
    }

    /// Adds a step without edges and position.
    pub fn add_node(&mut self, step: Step) -> (ix: StepGraphIndex)
        requires
            old(self)@.wf(),
        ensures
            ix == old(self)@.nodes.len(),
            final(self)@ == (StepGraphView {
                nodes: old(self)@.nodes.push(step@),
                outgoing: old(self)@.outgoing.push(Seq::empty()),
                incoming: old(self)@.incoming.push(Seq::empty()),
                anchors: old(self)@.anchors.push(None),
                ..old(self)@
            }),
            final(self)@.wf(),
    {
        let ghost before = self@;
        let ix: usize = self.nodes.len();
        self.nodes.push(step);
        self.outgoing.push(Vec::new());
        self.incoming.push(Vec::new());
        self.anchors.push(None);
        proof {
            assert(self@.nodes =~= before.nodes.push(step@));
            assert(self@.outgoing =~= before.outgoing.push(Seq::empty()));
            assert(self@.incoming =~= before.incoming.push(Seq::empty()));
            assert(self@.anchors =~= before.anchors.push(None));
            assert forall|n: int, id: StepEdgeIndex| 0 <= n < self@.outgoing.len() implies (
            #[trigger] self@.outgoing[n].contains(id) <==> id < self@.edges.len()
                && self@.edges[id as int] is Some && source_end()(self@.edges[id as int]->0)
                == n) by {
                if n < before.outgoing.len() {
                    assert(before.outgoing[n].contains(id) <==> id < before.edges.len()
                        && before.edges[id as int] is Some && source_end()(
                        before.edges[id as int]->0,
                    ) == n);
                }
            }
            assert forall|n: int, id: StepEdgeIndex| 0 <= n < self@.incoming.len() implies (
            #[trigger] self@.incoming[n].contains(id) <==> id < self@.edges.len()
                && self@.edges[id as int] is Some && target_end()(self@.edges[id as int]->0)
                == n) by {
                if n < before.incoming.len() {
                    assert(before.incoming[n].contains(id) <==> id < before.edges.len()
                        && before.edges[id as int] is Some && target_end()(
                        before.edges[id as int]->0,
                    ) == n);
                }
            }
            assert forall|n: int| 0 <= n < self@.outgoing.len() implies (
            #[trigger] self@.outgoing[n]).no_duplicates() by {
                if n < before.outgoing.len() {
                    assert(before.outgoing[n].no_duplicates());
                }
            }
            assert forall|n: int| 0 <= n < self@.incoming.len() implies (
            #[trigger] self@.incoming[n]).no_duplicates() by {
                if n < before.incoming.len() {
                    assert(before.incoming[n].no_duplicates());
                }
            }
        }
        ix
    }

    /// The step at `ix`.
    pub fn step(&self, ix: StepGraphIndex) -> (r: &Step)
        requires
            ix < self@.nodes.len(),
        ensures
            r@ == self@.nodes[ix as int],
    {
        &self.nodes[ix]
    }

    /// Puts another step at `ix`.
    pub fn set_step(&mut self, ix: StepGraphIndex, step: Step)
        requires
            ix < old(self)@.nodes.len(),
        ensures
            final(self)@ == (StepGraphView {
                nodes: old(self)@.nodes.update(ix as int, step@),
                ..old(self)@
            }),
            old(self)@.wf() ==> final(self)@.wf(),
    {
        let ghost before = self@;
        self.nodes.set(ix, step);
        assert(self@.nodes =~= before.nodes.update(ix as int, step@));
    }

    /// Adds an edge.
    pub fn add_edge(&mut self, source: StepGraphIndex, target: StepGraphIndex, weight: Edge) -> (id:
        StepEdgeIndex)
        requires
            old(self)@.wf(),
            source < old(self)@.nodes.len(),
            target < old(self)@.nodes.len(),
        ensures
            id == old(self)@.edges.len(),
            final(self)@ == old(self)@.add_edge(source, target, weight),
            final(self)@.wf(),
    {
        let ghost before = self@;
        let id: usize = self.edges.len();
        let record = EdgeRecord { source, target, weight };
        self.edges.push(Some(record));
        let n: usize = self.edges.len();
        assert(self.outgoing@[source as int]@ == before.outgoing[source as int]);
        assert(self.incoming@[target as int]@ == before.incoming[target as int]);
        self.outgoing[source].push(id);
        self.incoming[target].push(id);
        proof {
            assert(self@.outgoing =~= before.outgoing.update(
                source as int,
                before.outgoing[source as int].push(id),
            ));
            assert(self@.incoming =~= before.incoming.update(
                target as int,
                before.incoming[target as int].push(id),
            ));
            lemma_adjacent_added(before.outgoing, before.edges, source_end(), record);
            lemma_adjacent_added(before.incoming, before.edges, target_end(), record);
        }
        id
    }

    /// Removes the edge; the result is what it carried, if it was still there. Lanes that name the
    /// leg keep naming it.
    pub fn remove_edge(&mut self, id: StepEdgeIndex) -> (r: Option<Edge>)
        requires
            old(self)@.wf(),
        ensures
            r == (if id < old(self)@.edges.len() {
                match old(self)@.edges[id as int] {
                    Some(e) => Some(e.weight),
                    None => None,
                }
            } else {
                None
            }),
            final(self)@ == old(self)@.remove_edge(id),
            final(self)@.wf(),
    {
        if id >= self.edges.len() {
            return None;
        }
        let record = match self.edges[id] {
            Some(record) => record,
            None => return None,
        };
        let ghost before = self@;
        assert(before.edges[id as int] is Some);
        self.edges.set(id, None);
        assert(self.outgoing@[record.source as int]@ == before.outgoing[record.source as int]);
        let outgoing = ids_without(&self.outgoing[record.source], id);
        self.outgoing.set(record.source, outgoing);
        assert(self.incoming@[record.target as int]@ == before.incoming[record.target as int]);
        let incoming = ids_without(&self.incoming[record.target], id);
        self.incoming.set(record.target, incoming);
        proof {
            assert(self@.outgoing =~= before.remove_edge(id).outgoing);
            assert(self@.incoming =~= before.remove_edge(id).incoming);
            lemma_adjacent_removed(before.outgoing, before.edges, source_end(), id);
            lemma_adjacent_removed(before.incoming, before.edges, target_end(), id);
        }
        Some(record.weight)
    }

    /// Leads the edge elsewhere; it is the newest one of both steps then.
    pub fn move_edge(&mut self, id: StepEdgeIndex, new_target: StepGraphIndex, new_weight: Edge)
        requires
            old(self)@.wf(),
            id < old(self)@.edges.len() && old(self)@.edges[id as int] is Some ==> new_target
                < old(self)@.nodes.len(),
        ensures
            final(self)@ == old(self)@.move_edge(id, new_target, new_weight),
            final(self)@.wf(),
    {
        if id >= self.edges.len() {
            return;
        }
        let record = match self.edges[id] {
            Some(record) => record,
            None => return,
        };
        let ghost before = self@;
        assert(before.edges[id as int] is Some);
        let moved = EdgeRecord { source: record.source, target: new_target, weight: new_weight };
        self.edges.set(id, Some(moved));
        assert(self.outgoing@[record.source as int]@ == before.outgoing[record.source as int]);
        let mut outgoing = ids_without(&self.outgoing[record.source], id);
        outgoing.push(id);
        self.outgoing.set(record.source, outgoing);
        assert(self.incoming@[record.target as int]@ == before.incoming[record.target as int]);
        let incoming = ids_without(&self.incoming[record.target], id);
        self.incoming.set(record.target, incoming);
        let ghost left = before.incoming.update(
            record.target as int,
            before.incoming[record.target as int].filter(other_than(id)),
        );
        assert(id_lists(self.incoming@) =~= left);
        assert(self.incoming@[new_target as int]@ == left[new_target as int]);
        self.incoming[new_target].push(id);
        proof {
            let after = before.move_edge(id, new_target, new_weight);
            assert(self@.outgoing =~= after.outgoing);
            assert(self@.incoming =~= after.incoming);
            let gone = before.edges.update(id as int, None);
            lemma_adjacent_removed(before.outgoing, before.edges, source_end(), id);
            lemma_adjacent_removed(before.incoming, before.edges, target_end(), id);
            let out_left = before.outgoing.update(
                record.source as int,
                before.outgoing[record.source as int].filter(other_than(id)),
            );
            lemma_adjacent_put_back(out_left, gone, source_end(), id, moved);
            lemma_adjacent_put_back(left, gone, target_end(), id, moved);
            assert(gone.update(id as int, Some(moved)) =~= self@.edges);
            assert(out_left.update(
                record.source as int,
                out_left[record.source as int].push(id),
            ) =~= self@.outgoing);
        }
    }
}

/// The one of the first `n` edges with the lowest order, the first such.
pub open spec fn lowest(edges: Seq<StepEdgeRef>, n: int) -> Option<StepEdgeRef>
    decreases n,
{
    if n <= 0 {
        None
    } else {
        match lowest(edges, n - 1) {
            Some(best) => if edges[n - 1].record.weight.order < best.record.weight.order {
                Some(edges[n - 1])
            } else {
                Some(best)
            },
            None => Some(edges[n - 1]),
        }
    }
}

/// Whether both hold the same legs, in whatever order.
pub open spec fn same_step_legs(a: Seq<StepLeg>, b: Seq<StepLeg>) -> bool {
    forall|l: StepLeg| #[trigger] a.contains(l) <==> b.contains(l)
}

/// How an approach through these legs relates to `legs`.
pub open spec fn approach_kind(approach: Seq<StepLeg>, legs: Seq<StepLeg>) -> KindView {
    if approach.len() == 0 {
        KindView::Root
    } else if same_step_legs(approach, legs) {
        KindView::AllLegs
    } else {
        KindView::Lane(approach)
    }
}

/// The leg that an edge is.
pub open spec fn leg_of(e: StepEdgeRef) -> StepLeg {
    (e.record.source, e.record.weight.order)
}

impl StepGraphView {
    /// Whether the step is a commit to pick.
    pub open spec fn is_pick(self, node: StepGraphIndex) -> bool {
        node < self.nodes.len() && self.nodes[node as int] is Pick
    }

    /// Whether an edge comes from a commit.
    pub open spec fn from_pick(self) -> spec_fn(StepEdgeRef) -> bool {
        |e: StepEdgeRef| self.is_pick(e.record.source)
    }

    /// The commit that the step stands for, looked for in `fuel` steps: a commit stands for itself,
    /// a reference for what it is anchored at, and any other step for its first parent.
    pub open spec fn resolve_in(self, node: StepGraphIndex, fuel: nat) -> Option<StepGraphIndex>
        decreases fuel,
    {
        if fuel == 0 || node >= self.nodes.len() {
            None
        } else if self.is_pick(node) {
            Some(node)
        } else {
            match self.anchor(node) {
                Some(stored) => self.resolve_in(stored.anchor, (fuel - 1) as nat),
                None => {
                    let edges = self.directed(node, Direction::Outgoing);
                    match lowest(edges, edges.len() as int) {
                        Some(e) => self.resolve_in(e.record.target, (fuel - 1) as nat),
                        None => None,
                    }
                },
            }
        }
    }

    /// The commit that the step stands for.
    pub open spec fn resolve(self, node: StepGraphIndex) -> Option<StepGraphIndex> {
        self.resolve_in(node, WALK_LIMIT as nat)
    }

    /// The legs into the step that come from commits, ascending.
    pub open spec fn legs_into(self, node: StepGraphIndex) -> Seq<StepLeg> {
        sorted::<StepLeg>(
            self.directed(node, Direction::Incoming).filter(self.from_pick()).map_values(
                |e: StepEdgeRef| leg_of(e),
            ),
        )
    }

    /// The legs into the commit that the step stands for.
    pub open spec fn legs_onto(self, node: StepGraphIndex) -> Seq<StepLeg> {
        match self.resolve(node) {
            Some(pick) => self.legs_into(pick),
            None => Seq::empty(),
        }
    }

    /// Those of the first `n` steps that sit somewhere, with where they sit.
    pub open spec fn anchored(self, n: int) -> Seq<(StepGraphIndex, AnchorView)>
        decreases n,
    {
        if n <= 0 {
            Seq::empty()
        } else {
            let before = self.anchored(n - 1);
            match self.anchors[n - 1] {
                Some(stored) => before.push(((n - 1) as usize, stored)),
                None => before,
            }
        }
    }
}

/// The steps with no edges among the first `n`.
pub open spec fn without_edges(lists: Seq<Seq<StepEdgeIndex>>, n: int) -> Seq<StepGraphIndex>
    decreases n,
{
    if n <= 0 {
        Seq::empty()
    } else {
        let before = without_edges(lists, n - 1);
        if lists[n - 1].len() == 0 {
            before.push((n - 1) as usize)
        } else {
            before
        }
    }
}

/// What the anchors stand for, with the references that they belong to.
pub open spec fn anchored_view(list: Seq<(StepGraphIndex, StoredAnchor)>) -> Seq<
    (StepGraphIndex, AnchorView),
> {
    list.map_values(|a: (StepGraphIndex, StoredAnchor)| (a.0, a.1@))
}

/// Whether `b` holds all of `a`.
fn all_legs_contained(a: &Vec<StepLeg>, b: &Vec<StepLeg>) -> (r: bool)
    ensures
        r == forall|i: int| 0 <= i < a@.len() ==> b@.contains(#[trigger] a@[i]),
{
    let mut i: usize = 0;
    while i < a.len()
        invariant
            i <= a@.len(),
            forall|j: int| 0 <= j < i ==> b@.contains(#[trigger] a@[j]),
        decreases a.len() - i,
    {
        if !legs_contain(b, &a[i]) {
            return false;
        }
        i += 1;
    }
    true
}

/// How an approach through these legs relates to `legs`.
pub fn classify_approach(approach: &Vec<StepLeg>, legs: &Vec<StepLeg>) -> (r: ApproachKind)
    ensures
        r@ == approach_kind(approach@, legs@),
{
    if approach.len() == 0 {
        return ApproachKind::Root;
    }
    let ahead = all_legs_contained(approach, legs);
    let back = all_legs_contained(legs, approach);
    proof {
        if ahead && back {
            assert forall|l: StepLeg| #[trigger] approach@.contains(l) <==> legs@.contains(l) by {
                if approach@.contains(l) {
                    let i = choose|i: int| 0 <= i < approach@.len() && approach@[i] == l;
                    assert(legs@.contains(approach@[i]));
                }
                if legs@.contains(l) {
                    let i = choose|i: int| 0 <= i < legs@.len() && legs@[i] == l;
                    assert(approach@.contains(legs@[i]));
                }
            }
        }
        if same_step_legs(approach@, legs@) {
            assert forall|i: int| 0 <= i < approach@.len() implies legs@.contains(
                #[trigger] approach@[i],
            ) by {
                assert(approach@.contains(approach@[i]));
            }
            assert forall|i: int| 0 <= i < legs@.len() implies approach@.contains(
                #[trigger] legs@[i],
            ) by {
                assert(legs@.contains(legs@[i]));
            }
        }
    }
    if ahead && back {
        ApproachKind::AllLegs
    } else {
        ApproachKind::Lane(clone_legs(approach))
    }
}

impl StoredAnchor {
    /// A new position, held against the legs that there are into the anchor.
    pub fn place(
        graph: &StepGraph,
        anchor: StepGraphIndex,
        rank: usize,
        approach: &Vec<StepLeg>,
    ) -> (r: StoredAnchor)
        requires
            graph@.wf(),
        ensures
            r@ == (AnchorView {
                anchor,
                rank,
                kind: approach_kind(approach@, graph@.legs_onto(anchor)),
                ambiguous: approach@.len() > 1,
            }),
    {
        let legs = match graph.resolve_to_pick(anchor) {
            Some(pick) => graph.legs_into_pick(pick),
            None => Vec::new(),
        };
        StoredAnchor {
            anchor,
            rank,
            kind: classify_approach(approach, &legs),
            ambiguous: approach.len() > 1,
        }
    }
}

impl StepGraph {
    /// The edge with its index.
    fn edge_ref(&self, id: StepEdgeIndex) -> (r: StepEdgeRef)
        requires
            id < self@.edges.len(),
            self@.edges[id as int] is Some,
        ensures
            r == self@.edge_at(id),
    {
        StepEdgeRef { id, record: self.edges[id].unwrap() }
    }

    /// The edges of the step in this direction, the newest one first.
    #[verifier::loop_isolation(false)]
    pub fn edges_directed(&self, node: StepGraphIndex, direction: Direction) -> (r: Vec<StepEdgeRef>)
        requires
            self@.wf(),
            node < self@.nodes.len(),
        ensures
            r@ == self@.directed(node, direction),
    {
        let list = match direction {
            Direction::Outgoing => {
                assert(self@.outgoing[node as int] == self.outgoing@[node as int]@);
                &self.outgoing[node]
            },
            Direction::Incoming => {
                assert(self@.incoming[node as int] == self.incoming@[node as int]@);
                &self.incoming[node]
            },
        };
        let ghost f = |id: StepEdgeIndex| self@.edge_at(id);
        let ghost back = list@.reverse();
        let mut r: Vec<StepEdgeRef> = Vec::new();
        let mut left: usize = list.len();
        while left > 0
            invariant
                left <= list@.len(),
                r@ =~= back.take(list@.len() - left).map_values(f),
            decreases left,
        {
            left -= 1;
            let id = list[left];
            assert(list@.contains(id));
            assert(back[list@.len() - 1 - left] == id);
            r.push(self.edge_ref(id));
        }
        proof {
            lemma_take_all(back);
        }
        r
    }

    /// The edges towards the parents of the step, the newest one first.
    pub fn edges(&self, node: StepGraphIndex) -> (r: Vec<StepEdgeRef>)
        requires
            self@.wf(),
            node < self@.nodes.len(),
        ensures
            r@ == self@.directed(node, Direction::Outgoing),
    {
        self.edges_directed(node, Direction::Outgoing)
    }

    /// All edges that are there, in the order of their indices.
    #[verifier::loop_isolation(false)]
    pub fn edge_references(&self) -> (r: Vec<StepEdgeRef>)
        ensures
            r@ == self@.live_edges(self@.edges.len() as int),
    {
        let mut r: Vec<StepEdgeRef> = Vec::new();
        let mut id: usize = 0;
        while id < self.edges.len()
            invariant
                id <= self.edges@.len(),
                r@ == self@.live_edges(id as int),
            decreases self.edges.len() - id,
        {
            if self.edges[id].is_some() {
                r.push(self.edge_ref(id));
            }
            id += 1;
        }
        r
    }

    /// The steps with no edges in this direction, ascending.
    #[verifier::loop_isolation(false)]
    pub fn externals(&self, direction: Direction) -> (r: Vec<StepGraphIndex>)
        ensures
            r@ == (match direction {
                Direction::Outgoing => without_edges(
                    self@.outgoing,
                    self@.outgoing.len() as int,
                ),
                Direction::Incoming => without_edges(
                    self@.incoming,
                    self@.incoming.len() as int,
                ),
            }),
    {
        let lists = match direction {
            Direction::Outgoing => &self.outgoing,
            Direction::Incoming => &self.incoming,
        };
        let mut r: Vec<StepGraphIndex> = Vec::new();
        let mut i: usize = 0;
        while i < lists.len()
            invariant
                i <= lists@.len(),
                r@ == without_edges(id_lists(lists@), i as int),
            decreases lists.len() - i,
        {
            assert(id_lists(lists@)[i as int] == lists@[i as int]@);
            if lists[i].len() == 0 {
                r.push(i);
            }
            i += 1;
        }
        r
    }

    /// All steps, ascending.
    pub fn node_indices(&self) -> (r: Vec<StepGraphIndex>)
        ensures
            r@ == Seq::new(self@.nodes.len(), |i: int| i as usize),
    {
        let mut r: Vec<StepGraphIndex> = Vec::new();
        let mut i: usize = 0;
        while i < self.nodes.len()
            invariant
                i <= self.nodes@.len(),
                r@ =~= Seq::new(i as nat, |i: int| i as usize),
            decreases self.nodes.len() - i,
        {
            r.push(i);
            i += 1;
        }
        r
    }

    /// Whether the step is a commit to pick.
    pub fn is_pick(&self, node: StepGraphIndex) -> (r: bool)
        ensures
            r == self@.is_pick(node),
    {
        if node < self.nodes.len() {
            assert(self@.nodes[node as int] == self.nodes@[node as int]@);
            match &self.nodes[node] {
                Step::Pick(_) => true,
                _ => false,
            }
        } else {
            false
        }
    }

    /// The commit that the step stands for.
    pub fn resolve_to_pick(&self, node: StepGraphIndex) -> (r: Option<StepGraphIndex>)
        requires
            self@.wf(),
        ensures
            r == self@.resolve(node),
            r matches Some(pick) ==> self@.is_pick(pick),
    {
        let mut cursor: usize = node;
        let mut left: usize = WALK_LIMIT;
        while left > 0
            invariant
                self@.wf(),
                self@.resolve(node) == self@.resolve_in(cursor, left as nat),
            decreases left,
        {
            if cursor >= self.nodes.len() {
                return None;
            }
            if self.is_pick(cursor) {
                return Some(cursor);
            }
            assert(self@.anchors[cursor as int] == opt_anchor(self.anchors@[cursor as int]));
            cursor = match &self.anchors[cursor] {
                Some(stored) => stored.anchor,
                None => {
                    let edges = self.edges(cursor);
                    match lowest_edge(&edges) {
                        Some(e) => e.record.target,
                        None => return None,
                    }
                },
            };
            left -= 1;
        }
        None
    }

    /// The legs into the step that come from commits, ascending.
    #[verifier::loop_isolation(false)]
    pub fn legs_into_pick(&self, node: StepGraphIndex) -> (r: Vec<StepLeg>)
        requires
            self@.wf(),
            node < self@.nodes.len(),
        ensures
            r@ == self@.legs_into(node),
    {
        let edges = self.edges_directed(node, Direction::Incoming);
        let ghost keep = self@.from_pick();
        let ghost f = |e: StepEdgeRef| leg_of(e);
        let mut legs: Vec<StepLeg> = Vec::new();
        let mut i: usize = 0;
        proof {
            lemma_filter_none(edges@, keep);
        }
        while i < edges.len()
            invariant
                i <= edges@.len(),
                legs@ =~= edges@.take(i as int).filter(keep).map_values(f),
            decreases edges.len() - i,
        {
            proof {
                lemma_filter_take(edges@, keep, i as int);
            }
            let e = edges[i];
            if self.is_pick(e.record.source) {
                legs.push((e.record.source, e.record.weight.order));
            }
            i += 1;
        }
        proof {
            lemma_take_all(edges@);
        }
        sort_legs(legs)
    }

    /// Where the reference sits, if `node` is one that sits somewhere.
    pub fn anchor_of(&self, node: StepGraphIndex) -> (r: Option<StoredAnchor>)
        ensures
            opt_anchor(r) == self@.anchor(node),
    {
        if node < self.anchors.len() {
            assert(self@.anchors[node as int] == opt_anchor(self.anchors@[node as int]));
            match &self.anchors[node] {
                Some(stored) => Some(stored.clone()),
                None => None,
            }
        } else {
            None
        }
    }

    /// The reference leaves the lanes above `key`.
    fn lane_remove(&mut self, node: StepGraphIndex, key: StepGraphIndex)
        ensures
            final(self)@ == (StepGraphView {
                lanes: left_lanes(old(self)@.lanes, node, key),
                ..old(self)@
            }),
    {
        self.lanes.remove_member(node, key);
    }

    /// The reference enters the lane of this kind above `key`.
    fn lane_insert(&mut self, node: StepGraphIndex, key: StepGraphIndex, kind: &ApproachKind)
        ensures
            final(self)@ == (StepGraphView {
                lanes: entered_lanes(
                    old(self)@.lanes,
                    node,
                    key,
                    kind_carry(kind@),
                    kind_legs(kind@),
                ),
                ..old(self)@
            }),
    {
        let (carry, legs) = match kind {
            ApproachKind::Root => (LaneCarry::Nothing, Vec::new()),
            ApproachKind::AllLegs => (LaneCarry::All, Vec::new()),
            ApproachKind::Lane(legs) => (LaneCarry::Count(legs.len()), clone_legs(legs)),
        };
        assert(legs@ =~= kind_legs(kind@));
        self.lanes.insert_member(node, key, carry, legs);
    }

    /// Stores where the reference sits.
    fn put_anchor(&mut self, node: StepGraphIndex, anchor: Option<StoredAnchor>)
        requires
            node < old(self)@.anchors.len(),
        ensures
            final(self)@ == (StepGraphView {
                anchors: old(self)@.anchors.update(node as int, opt_anchor(anchor)),
                ..old(self)@
            }),
    {
        let ghost before = self@;
        self.anchors.set(node, anchor);
        assert(self@.anchors =~= before.anchors.update(node as int, opt_anchor(anchor)));
    }

    /// Puts the reference somewhere, or nowhere.
    pub fn set_anchor(&mut self, node: StepGraphIndex, anchor: Option<StoredAnchor>)
        requires
            node < old(self)@.anchors.len(),
        ensures
            final(self)@ == old(self)@.set_anchor(node, opt_anchor(anchor)),
            old(self)@.wf() ==> final(self)@.wf(),
    {
        if let Some(previous) = self.anchor_of(node) {
            self.lane_remove(node, previous.anchor);
        }
        if let Some(stored) = &anchor {
            self.lane_insert(node, stored.anchor, &stored.kind);
        }
        self.put_anchor(node, anchor);
    }

    /// Puts the reference somewhere new: the approach is held against the legs that there are into
    /// the anchor.
    pub fn place_anchor(
        &mut self,
        node: StepGraphIndex,
        anchor: StepGraphIndex,
        rank: usize,
        approach: &Vec<StepLeg>,
        ambiguous: bool,
    )
        requires
            old(self)@.wf(),
            node < old(self)@.nodes.len(),
        ensures
            final(self)@ == old(self)@.set_anchor(
                node,
                Some(
                    AnchorView {
                        anchor,
                        rank,
                        kind: approach_kind(approach@, old(self)@.legs_onto(anchor)),
                        ambiguous,
                    },
                ),
            ),
            final(self)@.wf(),
    {
        let mut stored = StoredAnchor::place(self, anchor, rank, approach);
        stored.ambiguous = ambiguous;
        self.set_anchor(node, Some(stored));
    }

    /// The reference joins the lane that `mate` is in, with this rank.
    pub fn join_lane_of(&mut self, node: StepGraphIndex, mate: StepGraphIndex, rank: usize)
        requires
            node < old(self)@.anchors.len(),
        ensures
            final(self)@ == old(self)@.join_lane_of(node, mate, rank),
            old(self)@.wf() ==> final(self)@.wf(),
    {
        let m = match self.anchor_of(mate) {
            Some(m) => m,
            None => return,
        };
        if let Some(previous) = self.anchor_of(node) {
            self.lane_remove(node, previous.anchor);
        }
        if !self.lanes.join_member(node, mate, m.anchor) {
            self.lane_insert(node, m.anchor, &m.kind);
        }
        let stored = StoredAnchor { anchor: m.anchor, rank, kind: m.kind, ambiguous: m.ambiguous };
        self.put_anchor(node, Some(stored));
    }

    /// Anchors the reference elsewhere, with what its lane carries; rank, kind and ambiguity stay.
    pub fn rekey_anchor(&mut self, node: StepGraphIndex, new_anchor: StepGraphIndex)
        ensures
            final(self)@ == old(self)@.rekey_anchor(node, new_anchor),
            old(self)@.wf() ==> final(self)@.wf(),
    {
        let stored = match self.anchor_of(node) {
            Some(stored) => stored,
            None => return,
        };
        if stored.anchor == new_anchor {
            return;
        }
        let lane_data = match self.lanes.find(stored.anchor, node) {
            Some(lane) => Some((lane.carry, clone_legs(&lane.legs))),
            None => None,
        };
        self.lane_remove(node, stored.anchor);
        match lane_data {
            Some((carry, legs)) => {
                self.lanes.insert_member(node, new_anchor, carry, legs);
            },
            None => {
                self.lane_insert(node, new_anchor, &stored.kind);
            },
        }
        let moved = StoredAnchor {
            anchor: new_anchor,
            rank: stored.rank,
            kind: stored.kind,
            ambiguous: stored.ambiguous,
        };
        self.put_anchor(node, Some(moved));
    }

    /// Changes the rank of the reference, and nothing else.
    pub fn set_rank(&mut self, node: StepGraphIndex, rank: usize)
        requires
            node < old(self)@.anchors.len(),
        ensures
            final(self)@ == old(self)@.set_rank(node, rank),
            old(self)@.wf() ==> final(self)@.wf(),
    {
        let stored = match self.anchor_of(node) {
            Some(stored) => stored,
            None => return,
        };
        let ranked = StoredAnchor {
            anchor: stored.anchor,
            rank,
            kind: stored.kind,
            ambiguous: stored.ambiguous,
        };
        self.put_anchor(node, Some(ranked));
    }

    /// The lanes above each step.
    pub fn lane_table(&self) -> (r: &LaneTable<StepGraphIndex>)
        ensures
            r@ == self@.lanes,
    {
        &self.lanes
    }

    /// The lane of the reference, if it sits somewhere.
    pub fn lane_of(&self, node: StepGraphIndex) -> (r: Option<&LaneRec<StepGraphIndex>>)
        ensures
            ({
                let lane = match self@.anchor(node) {
                    Some(stored) => lane_of(self@.lanes, stored.anchor, node),
                    None => None,
                };
                &&& r is Some <==> lane is Some
                &&& r matches Some(found) ==> lane == Some(found@)
            }),
    {
        if node >= self.anchors.len() {
            return None;
        }
        assert(self@.anchors[node as int] == opt_anchor(self.anchors@[node as int]));
        match &self.anchors[node] {
            Some(stored) => self.lanes.find(stored.anchor, node),
            None => None,
        }
    }

    /// How the legs that approach the reference relate to the legs into its anchor.
    pub fn ref_kind(&self, node: StepGraphIndex) -> (r: Option<ApproachKind>)
        ensures
            r is Some <==> self@.anchor(node) is Some,
            r matches Some(kind) ==> kind@ == self@.anchor(node)->0.kind,
    {
        match self.anchor_of(node) {
            Some(stored) => Some(stored.kind),
            None => None,
        }
    }

    /// The references that sit somewhere, ascending, with where they sit.
    #[verifier::loop_isolation(false)]
    pub fn anchored_refs(&self) -> (r: Vec<(StepGraphIndex, StoredAnchor)>)
        ensures
            anchored_view(r@) == self@.anchored(self@.anchors.len() as int),
    {
        let mut r: Vec<(StepGraphIndex, StoredAnchor)> = Vec::new();
        let mut i: usize = 0;
        assert(anchored_view(r@) =~= self@.anchored(0));
        while i < self.anchors.len()
            invariant
                i <= self.anchors@.len(),
                anchored_view(r@) == self@.anchored(i as int),
            decreases self.anchors.len() - i,
        {
            assert(self@.anchors[i as int] == opt_anchor(self.anchors@[i as int]));
            if let Some(stored) = &self.anchors[i] {
                let ghost before = r@;
                let entry = (i, stored.clone());
                r.push(entry);
                assert(anchored_view(r@) =~= anchored_view(before).push((i, stored@)));
            }
            i += 1;
        }
        r
    }

    /// The leg `old_leg` is called `new_leg` now: each lane and each kind that named the one names
    /// the other.
    pub fn rename_leg(&mut self, old_leg: StepLeg, new_leg: StepLeg)
        ensures
            final(self)@ == old(self)@.rename_leg(old_leg, new_leg),
            old(self)@.wf() ==> final(self)@.wf(),
    {
        let ghost before = self@;
        self.lanes.edit_all(&RenameLeg { old_leg, new_leg });
        let mut anchors: Vec<Option<StoredAnchor>> = Vec::new();
        let ghost f = |a: Option<AnchorView>| renamed_anchor(a, old_leg, new_leg);
        let ghost goal = before.anchors.map_values(f);
        let mut i: usize = 0;
        while i < self.anchors.len()
            invariant
                i <= self.anchors@.len(),
                before.anchors == anchors_view(self.anchors@),
                f == (|a: Option<AnchorView>| renamed_anchor(a, old_leg, new_leg)),
                goal == before.anchors.map_values(f),
                anchors_view(anchors@) =~= goal.take(i as int),
            decreases self.anchors.len() - i,
        {
            let ghost so_far = anchors@;
            assert(before.anchors[i as int] == opt_anchor(self.anchors@[i as int]));
            let renamed = rename_in_anchor(&self.anchors[i], old_leg, new_leg);
            assert(opt_anchor(renamed) == goal[i as int]);
            anchors.push(renamed);
            assert(anchors_view(anchors@) =~= anchors_view(so_far).push(opt_anchor(renamed)));
            i += 1;
        }
        self.anchors = anchors;
        assert(self@.anchors =~= goal);
    }
}

/// The edge with the lowest order, the first such.
fn lowest_edge(edges: &Vec<StepEdgeRef>) -> (r: Option<StepEdgeRef>)
    ensures
        r == lowest(edges@, edges@.len() as int),
{
    let mut best: Option<StepEdgeRef> = None;
    let mut i: usize = 0;
    while i < edges.len()
        invariant
            i <= edges@.len(),
            best == lowest(edges@, i as int),
        decreases edges.len() - i,
    {
        let e = edges[i];
        best = match best {
            Some(b) => if e.record.weight.order < b.record.weight.order {
                Some(e)
            } else {
                Some(b)
            },
            None => Some(e),
        };
        i += 1;
    }
    best
}

/// The anchor after the leg has got a new name.
fn rename_in_anchor(anchor: &Option<StoredAnchor>, old_leg: StepLeg, new_leg: StepLeg) -> (r: Option<
    StoredAnchor,
>)
    ensures
        opt_anchor(r) == renamed_anchor(opt_anchor(*anchor), old_leg, new_leg),
{
    match anchor {
        None => None,
        Some(stored) => {
            let kind = match &stored.kind {
                ApproachKind::Lane(legs) => match rename_in_legs(legs, old_leg, new_leg) {
                    Some(renamed) => ApproachKind::Lane(renamed),
                    None => ApproachKind::Lane(clone_legs(legs)),
                },
                other => other.clone(),
            };
            Some(
                StoredAnchor {
                    anchor: stored.anchor,
                    rank: stored.rank,
                    kind,
                    ambiguous: stored.ambiguous,
                },
            )
        },
    }
}

/// Whether the step survives the rebuild.
pub open spec fn survives(mapping: Map<StepGraphIndex, StepGraphIndex>) -> spec_fn(
    StepGraphIndex,
) -> bool {
    |n: StepGraphIndex| mapping.dom().contains(n)
}

/// Whether the step that a leg comes from survives the rebuild.
pub open spec fn leg_survives(mapping: Map<StepGraphIndex, StepGraphIndex>) -> spec_fn(
    StepLeg,
) -> bool {
    |l: StepLeg| mapping.dom().contains(l.0)
}

/// The steps that survive the rebuild, by their new indices.
pub open spec fn mapped_steps(
    list: Seq<StepGraphIndex>,
    mapping: Map<StepGraphIndex, StepGraphIndex>,
) -> Seq<StepGraphIndex> {
    list.filter(survives(mapping)).map_values(|n: StepGraphIndex| mapping[n])
}

/// The legs that survive the rebuild, by their new indices.
pub open spec fn mapped_legs(
    legs: Seq<StepLeg>,
    mapping: Map<StepGraphIndex, StepGraphIndex>,
) -> Seq<StepLeg> {
    legs.filter(leg_survives(mapping)).map_values(|l: StepLeg| (mapping[l.0], l.1))
}

/// The lane by the new indices.
pub open spec fn mapped_lane(
    lane: LaneView<StepGraphIndex>,
    mapping: Map<StepGraphIndex, StepGraphIndex>,
) -> LaneView<StepGraphIndex> {
    let legs = mapped_legs(lane.legs, mapping);
    LaneView {
        members: mapped_steps(lane.members, mapping),
        carry: recounted(lane.carry, legs),
        legs,
    }
}

/// The lanes by the new indices, without those that nobody is left in.
pub open spec fn mapped_lanes(
    list: Seq<LaneView<StepGraphIndex>>,
    mapping: Map<StepGraphIndex, StepGraphIndex>,
) -> Seq<LaneView<StepGraphIndex>> {
    list.map_values(|l: LaneView<StepGraphIndex>| mapped_lane(l, mapping)).filter(
        |l: LaneView<StepGraphIndex>| l.members.len() > 0,
    )
}

/// The table with the lanes of the first `n` of `keys` put into it.
pub open spec fn carried_lanes(
    table: Map<StepGraphIndex, Seq<LaneView<StepGraphIndex>>>,
    source: Map<StepGraphIndex, Seq<LaneView<StepGraphIndex>>>,
    mapping: Map<StepGraphIndex, StepGraphIndex>,
    keys: Seq<StepGraphIndex>,
    n: int,
) -> Map<StepGraphIndex, Seq<LaneView<StepGraphIndex>>>
    decreases n,
{
    if n <= 0 {
        table
    } else {
        let before = carried_lanes(table, source, mapping, keys, n - 1);
        let key = keys[n - 1];
        let list = mapped_lanes(source[key], mapping);
        if mapping.dom().contains(key) && list.len() > 0 {
            before.insert(mapping[key], list)
        } else {
            before
        }
    }
}

/// The kind by the new indices.
pub open spec fn mapped_kind(
    kind: KindView,
    mapping: Map<StepGraphIndex, StepGraphIndex>,
) -> KindView {
    match kind {
        KindView::Lane(legs) => KindView::Lane(mapped_legs(legs, mapping)),
        other => other,
    }
}

/// The anchors with the first `n` of those of `list` put among them.
pub open spec fn carried_anchors(
    anchors: Seq<Option<AnchorView>>,
    list: Seq<(StepGraphIndex, AnchorView)>,
    mapping: Map<StepGraphIndex, StepGraphIndex>,
    n: int,
) -> Seq<Option<AnchorView>>
    decreases n,
{
    if n <= 0 {
        anchors
    } else {
        let before = carried_anchors(anchors, list, mapping, n - 1);
        let (node, stored) = list[n - 1];
        if mapping.dom().contains(node) && mapping.dom().contains(stored.anchor) {
            before.update(
                mapping[node] as int,
                Some(
                    AnchorView {
                        anchor: mapping[stored.anchor],
                        rank: stored.rank,
                        kind: mapped_kind(stored.kind, mapping),
                        ambiguous: stored.ambiguous,
                    },
                ),
            )
        } else {
            before
        }
    }
}

impl StepGraphView {
    /// The graph with all positions of `source`, by the new indices.
    pub open spec fn carry_positions(
        self,
        source: StepGraphView,
        mapping: Map<StepGraphIndex, StepGraphIndex>,
    ) -> StepGraphView {
        let keys = ascending::<StepGraphIndex>(source.lanes.dom());
        let list = source.anchored(source.anchors.len() as int);
        StepGraphView {
            lanes: carried_lanes(self.lanes, source.lanes, mapping, keys, keys.len() as int),
            anchors: carried_anchors(self.anchors, list, mapping, list.len() as int),
            ..self
        }
    }
}

/// The legs that survive the rebuild, by their new indices.
fn map_legs(legs: &Vec<StepLeg>, mapping: &HashMap<StepGraphIndex, StepGraphIndex>) -> (r: Vec<
    StepLeg,
>)
    ensures
        r@ == mapped_legs(legs@, mapping@),
{
    broadcast use vstd::std_specs::hash::group_hash_axioms;

    let ghost keep = leg_survives(mapping@);
    let ghost f = |l: StepLeg| (mapping@[l.0], l.1);
    let mut r: Vec<StepLeg> = Vec::new();
    let mut i: usize = 0;
    proof {
        lemma_filter_none(legs@, keep);
    }
    while i < legs.len()
        invariant
            i <= legs@.len(),
            keep == leg_survives(mapping@),
            f == (|l: StepLeg| (mapping@[l.0], l.1)),
            r@ =~= legs@.take(i as int).filter(keep).map_values(f),
        decreases legs.len() - i,
    {
        proof {
            lemma_filter_take(legs@, keep, i as int);
        }
        let (source, slot) = legs[i];
        if let Some(new_source) = mapping.get(&source) {
            r.push((*new_source, slot));
        }
        i += 1;
    }
    proof {
        lemma_take_all(legs@);
    }
    r
}

/// The steps that survive the rebuild, by their new indices.
fn map_steps(list: &Vec<StepGraphIndex>, mapping: &HashMap<StepGraphIndex, StepGraphIndex>) -> (r:
    Vec<StepGraphIndex>)
    ensures
        r@ == mapped_steps(list@, mapping@),
{
    broadcast use vstd::std_specs::hash::group_hash_axioms;

    let ghost keep = survives(mapping@);
    let ghost f = |n: StepGraphIndex| mapping@[n];
    let mut r: Vec<StepGraphIndex> = Vec::new();
    let mut i: usize = 0;
    proof {
        lemma_filter_none(list@, keep);
    }
    while i < list.len()
        invariant
            i <= list@.len(),
            keep == survives(mapping@),
            f == (|n: StepGraphIndex| mapping@[n]),
            r@ =~= list@.take(i as int).filter(keep).map_values(f),
        decreases list.len() - i,
    {
        proof {
            lemma_filter_take(list@, keep, i as int);
        }
        if let Some(new_node) = mapping.get(&list[i]) {
            r.push(*new_node);
        }
        i += 1;
    }
    proof {
        lemma_take_all(list@);
    }
    r
}

/// The lanes by the new indices, without those that nobody is left in.
fn map_lanes(
    lanes: &Vec<LaneRec<StepGraphIndex>>,
    mapping: &HashMap<StepGraphIndex, StepGraphIndex>,
) -> (r: Vec<LaneRec<StepGraphIndex>>)
    ensures
        lanes_view(r@) == mapped_lanes(lanes_view(lanes@), mapping@),
{
    let ghost f = |l: LaneView<StepGraphIndex>| mapped_lane(l, mapping@);
    let ghost keep = |l: LaneView<StepGraphIndex>| l.members.len() > 0;
    let ghost mapped = lanes_view(lanes@).map_values(f);
    let mut r: Vec<LaneRec<StepGraphIndex>> = Vec::new();
    let mut i: usize = 0;
    proof {
        lemma_filter_none(mapped, keep);
        assert(lanes_view(r@) =~= mapped.take(0).filter(keep));
    }
    while i < lanes.len()
        invariant
            i <= lanes@.len(),
            f == (|l: LaneView<StepGraphIndex>| mapped_lane(l, mapping@)),
            keep == (|l: LaneView<StepGraphIndex>| l.members.len() > 0),
            mapped == lanes_view(lanes@).map_values(f),
            lanes_view(r@) == mapped.take(i as int).filter(keep),
        decreases lanes.len() - i,
    {
        proof {
            lemma_filter_take(mapped, keep, i as int);
        }
        let lane = &lanes[i];
        let members = map_steps(&lane.members, mapping);
        if members.len() > 0 {
            let legs = map_legs(&lane.legs, mapping);
            let carry = recount(lane.carry, legs.len());
            let carried = LaneRec { members, carry, legs };
            assert(carried@ == mapped[i as int]);
            let ghost before = r@;
            r.push(carried);
            assert(lanes_view(r@) =~= lanes_view(before).push(carried@));
        } else {
            assert(mapped[i as int].members.len() == 0);
        }
        i += 1;
    }
    proof {
        lemma_take_all(mapped);
    }
    r
}

/// The references that survive the rebuild along with what they are anchored at are among the first
/// `n` steps then.
pub open spec fn carried_within(
    list: Seq<(StepGraphIndex, AnchorView)>,
    mapping: Map<StepGraphIndex, StepGraphIndex>,
    n: int,
) -> bool {
    forall|i: int|
        0 <= i < list.len() && mapping.dom().contains((#[trigger] list[i]).0)
            && mapping.dom().contains(list[i].1.anchor) ==> mapping[list[i].0] < n
}

impl StepGraph {
    /// Carries each position of `source` over into this graph, a rebuild of it: the lanes as they
    /// are, and where each reference sits, by the new indices. What does not survive the rebuild is
    /// dropped. Where two steps have become one, what comes later prevails.
    pub fn carry_positions_mapped(
        &mut self,
        source: &StepGraph,
        mapping: &HashMap<StepGraphIndex, StepGraphIndex>,
    )
        requires
            carried_within(
                source@.anchored(source@.anchors.len() as int),
                mapping@,
                old(self)@.anchors.len() as int,
            ),
        ensures
            final(self)@ == old(self)@.carry_positions(source@, mapping@),
            old(self)@.wf() ==> final(self)@.wf(),
    {
        broadcast use vstd::std_specs::hash::group_hash_axioms;

        let ghost start = self@;
        let n: usize = source.lanes.table.len();
        let ghost keys = source.lanes.table.keys();
        assert(source@.lanes.dom() =~= source.lanes.table@.dom());
        let mut k: usize = 0;
        while k < n
            invariant
                k <= n,
                n == keys.len(),
                keys == source.lanes.table.keys(),
                forall|i: int|
                    0 <= i < n ==> source.lanes.table@.dom().contains(#[trigger] keys[i])
                        && source.lanes.table@[keys[i]] == source.lanes.table.values()[i],
                self@ == (StepGraphView {
                    lanes: carried_lanes(
                        start.lanes,
                        source@.lanes,
                        mapping@,
                        keys,
                        k as int,
                    ),
                    ..start
                }),
            decreases n - k,
        {
            let key = *source.lanes.table.key_at(k);
            assert(source.lanes.table@.dom().contains(keys[k as int]));
            let lanes = source.lanes.table.value_at(k);
            assert(source@.lanes[key] == lanes_view(lanes@));
            if let Some(new_key) = mapping.get(&key) {
                let carried = map_lanes(lanes, mapping);
                assert(lanes_view(carried@).len() == carried@.len());
                if carried.len() > 0 {
                    self.lanes.replace(*new_key, carried);
                }
            }
            k += 1;
        }
        let list = source.anchored_refs();
        let ghost views = anchored_view(list@);
        let mut i: usize = 0;
        while i < list.len()
            invariant
                i <= list@.len(),
                views == anchored_view(list@),
                carried_within(views, mapping@, start.anchors.len() as int),
                self@.anchors.len() == start.anchors.len(),
                self@ == (StepGraphView {
                    lanes: carried_lanes(
                        start.lanes,
                        source@.lanes,
                        mapping@,
                        keys,
                        n as int,
                    ),
                    anchors: carried_anchors(start.anchors, views, mapping@, i as int),
                    ..start
                }),
            decreases list.len() - i,
        {
            let entry = &list[i];
            assert(views[i as int] == (entry.0, entry.1@));
            match (mapping.get(&entry.0), mapping.get(&entry.1.anchor)) {
                (Some(new_node), Some(new_anchor)) => {
                    assert(mapping@[views[i as int].0] < start.anchors.len());
                    let kind = match &entry.1.kind {
                        ApproachKind::Lane(legs) => ApproachKind::Lane(map_legs(legs, mapping)),
                        other => other.clone(),
                    };
                    assert(kind@ == mapped_kind(entry.1@.kind, mapping@));
                    let stored = StoredAnchor {
                        anchor: *new_anchor,
                        rank: entry.1.rank,
                        kind,
                        ambiguous: entry.1.ambiguous,
                    };
                    self.put_anchor(*new_node, Some(stored));
                },
                _ => {},
            }
            i += 1;
        }
    }
}

} // verus!
