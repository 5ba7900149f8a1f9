//! Step graphs that are only added to.

use crate::step::{Step, StepView};
use crate::step_graph::{
    source_end, target_end, Edge, EdgeRecord, StepEdgeIndex, StepGraph, StepGraphIndex,
    StepGraphView,
};
use vstd::prelude::*;

verus! {

/// Those of the first `k` edges that have the step `n` at this end.
pub open spec fn edges_at(
    edges: Seq<EdgeRecord>,
    end: spec_fn(EdgeRecord) -> StepGraphIndex,
    n: int,
    k: int,
) -> Seq<StepEdgeIndex>
    decreases k,
{
    if k <= 0 {
        Seq::empty()
    } else {
        let before = edges_at(edges, end, n, k - 1);
        if end(edges[k - 1]) == n {
            before.push((k - 1) as StepEdgeIndex)
        } else {
            before
        }
    }
}

/// The graph of these steps and edges, without positions.
pub open spec fn built(nodes: Seq<StepView>, edges: Seq<EdgeRecord>) -> StepGraphView {
    StepGraphView {
        nodes,
        edges: edges.map_values(|e: EdgeRecord| Some(e)),
        outgoing: Seq::new(
            nodes.len(),
            |n: int| edges_at(edges, source_end(), n, edges.len() as int),
        ),
        incoming: Seq::new(
            nodes.len(),
            |n: int| edges_at(edges, target_end(), n, edges.len() as int),
        ),
        anchors: Seq::new(nodes.len(), |n: int| None),
        lanes: Map::empty(),
    }
}

/// The edges are between the first `n` steps.
pub open spec fn edges_within(edges: Seq<EdgeRecord>, n: int) -> bool {
    forall|i: int|
        0 <= i < edges.len() ==> (#[trigger] edges[i]).source < n && edges[i].target < n
}

proof fn lemma_edges_at_frame(
    a: Seq<EdgeRecord>,
    b: Seq<EdgeRecord>,
    end: spec_fn(EdgeRecord) -> StepGraphIndex,
    n: int,
    k: int,
)
    requires
        0 <= k <= a.len(),
        k <= b.len(),
        forall|i: int| 0 <= i < k ==> a[i] == b[i],
    ensures
        edges_at(a, end, n, k) == edges_at(b, end, n, k),
    decreases k,
{
    if k > 0 {
        lemma_edges_at_frame(a, b, end, n, k - 1);
    }
}

proof fn lemma_edges_at_none(
    edges: Seq<EdgeRecord>,
    end: spec_fn(EdgeRecord) -> StepGraphIndex,
    n: int,
    k: int,
)
    requires
        k <= edges.len(),
        forall|i: int| 0 <= i < k ==> end(#[trigger] edges[i]) != n,
    ensures
        edges_at(edges, end, n, k) == Seq::<StepEdgeIndex>::empty(),
    decreases k,
{
    if k > 0 {
        lemma_edges_at_none(edges, end, n, k - 1);
    }
}

/// An empty graph.
pub fn start_graph() -> (r: StepGraph)
    ensures
        r@ == built(Seq::empty(), Seq::empty()),
        r@.wf(),
{
    let r = StepGraph::new();
    assert(r@ =~= built(Seq::empty(), Seq::empty())) by {
        let b = built(Seq::empty(), Seq::empty());
        assert(r@.edges =~= b.edges);
        assert(r@.outgoing =~= b.outgoing);
        assert(r@.incoming =~= b.incoming);
        assert(r@.anchors =~= b.anchors);
    }
    r
}

/// Add a step.
pub fn put_step(
    graph: &mut StepGraph,
    step: Step,
    Ghost(nodes): Ghost<Seq<StepView>>,
    Ghost(edges): Ghost<Seq<EdgeRecord>>,
) -> (ix: StepGraphIndex)
    requires
        old(graph)@ == built(nodes, edges),
        old(graph)@.wf(),
        edges_within(edges, nodes.len() as int),
    ensures
        ix == nodes.len(),
        final(graph)@ == built(nodes.push(step@), edges),
        final(graph)@.wf(),
        edges_within(edges, (nodes.len() + 1) as int),
{
    let ix: usize = graph.add_node(step);
    proof {
        let b = built(nodes.push(step@), edges);
        let n = nodes.len() as int;
        let k = edges.len() as int;
        assert forall|i: int| 0 <= i < k implies source_end()(#[trigger] edges[i]) != n by {}
        assert forall|i: int| 0 <= i < k implies target_end()(#[trigger] edges[i]) != n by {}
        lemma_edges_at_none(edges, source_end(), n, k);
        lemma_edges_at_none(edges, target_end(), n, k);
        assert(graph@.outgoing =~= b.outgoing);
        assert(graph@.incoming =~= b.incoming);
        assert(graph@.anchors =~= b.anchors);
        assert(graph@ =~= b);
    }
    ix
}

/// Add an edge.
pub fn put_edge(
    graph: &mut StepGraph,
    source: StepGraphIndex,
    target: StepGraphIndex,
    order: usize,
    Ghost(nodes): Ghost<Seq<StepView>>,
    Ghost(edges): Ghost<Seq<EdgeRecord>>,
)
    requires
        old(graph)@ == built(nodes, edges),
        old(graph)@.wf(),
        source < nodes.len(),
        target < nodes.len(),
        edges_within(edges, nodes.len() as int),
    ensures
        final(graph)@ == built(
            nodes,
            edges.push(EdgeRecord { source, target, weight: (Edge { order }) }),
        ),
        final(graph)@.wf(),
        edges_within(
            edges.push(EdgeRecord { source, target, weight: (Edge { order }) }),
            nodes.len() as int,
        ),
{
    let ghost record = EdgeRecord { source, target, weight: Edge { order } };
    let ghost more = edges.push(record);
    let id: usize = graph.add_edge(source, target, Edge { order });
    proof {
        let b = built(nodes, more);
        let k = edges.len() as int;
        assert forall|n: int| 0 <= n < nodes.len() implies #[trigger] graph@.outgoing[n]
            == b.outgoing[n] by {
            lemma_edges_at_frame(edges, more, source_end(), n, k);
        }
        assert forall|n: int| 0 <= n < nodes.len() implies #[trigger] graph@.incoming[n]
            == b.incoming[n] by {
            lemma_edges_at_frame(edges, more, target_end(), n, k);
        }
        assert(graph@.edges =~= b.edges);
        assert(graph@.outgoing =~= b.outgoing);
        assert(graph@.incoming =~= b.incoming);
        assert(graph@ =~= b);
    }
}

} // verus!
