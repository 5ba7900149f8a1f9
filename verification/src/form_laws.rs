//! What the form of a step graph holds, and what is reported where two forms differ.

use crate::canonical::{
    between_refs, blanks, canonical, canonical_lines, chain_of, chains_among, edges_among,
    groups_after, info_text, label_of, lemma_live_edges, other_pick_lines, pick_infos, pick_lines,
    CanonicalView, EdgeView, InfoView, Label, LabelView,
};
use crate::names::{id_hex, ObjectId};
use crate::order::{ascending, lemma_ascending_of_set};
use crate::reach::lemma_add_contains;
use crate::reports::one_sided_lines;
use crate::step::{flavor, StepView};
use crate::step_graph::{StepEdgeRef, StepGraphView};
use crate::step_walk_laws::law_live_edges;
use crate::text::line_if;
use vstd::prelude::*;

verus! {

/// The form has each commit of the graph, as it is the last time that it is there: how it is picked, and
/// the parents that it keeps. It has no other.
pub proof fn law_form_picks(steps: Seq<StepView>, n: int, id: ObjectId)
    requires
        0 <= n <= steps.len(),
    ensures
        pick_infos(steps, n).dom().contains(id) <==> exists|i: int|
            0 <= i < n && (#[trigger] steps[i] matches StepView::Pick(pick) && pick.id == id),
        forall|i: int|
            0 <= i < n && (#[trigger] steps[i] matches StepView::Pick(pick) && pick.id == id) && (
            forall|j: int|
                i < j < n ==> !(#[trigger] steps[j] matches StepView::Pick(pick) && pick.id == id))
                ==> pick_infos(steps, n)[id] == (InfoView {
                flavor: flavor(steps[i]->Pick_0.settings),
                preserved_parents: steps[i]->Pick_0.preserved_parents,
            }),
    decreases n,
{
    if n > 0 {
        law_form_picks(steps, n - 1, id);
        let own = steps[n - 1] matches StepView::Pick(pick) && pick.id == id;
        if own {
            assert(steps[n - 1] is Pick);
        }
        if pick_infos(steps, n - 1).dom().contains(id) {
            let i = choose|i: int|
                0 <= i < n - 1 && (#[trigger] steps[i] matches StepView::Pick(pick) && pick.id
                    == id);
            assert(steps[i] is Pick);
        }
        assert forall|i: int|
            0 <= i < n && (#[trigger] steps[i] matches StepView::Pick(pick) && pick.id == id) && (
            forall|j: int|
                i < j < n ==> !(#[trigger] steps[j] matches StepView::Pick(pick) && pick.id
                    == id)) implies pick_infos(steps, n)[id] == (InfoView {
            flavor: flavor(steps[i]->Pick_0.settings),
            preserved_parents: steps[i]->Pick_0.preserved_parents,
        }) by {
            if i < n - 1 {
                assert(!own);
            }
        }
    }
}

/// Whether the label stands for the step: a commit for its id, a reference for a chain that has its
/// name, and any other step for how many such steps there are before it.
pub open spec fn stands_for_step(graph: StepGraphView, label: LabelView, i: int) -> bool {
    match graph.nodes[i] {
        StepView::Pick(pick) => label == LabelView::Pick(pick.id),
        StepView::Reference(name) => label matches LabelView::Refs(chain) && canonical(
            graph,
        ).chains.contains(chain) && chain.contains(crate::names::ref_text(name)),
        StepView::Blank => label == LabelView::Blank(blanks(graph.nodes, i) as usize),
    }
}

proof fn lemma_label(graph: StepGraphView, i: int)
    requires
        0 <= i < graph.nodes.len(),
    ensures
        ({
            let edges = graph.live_edges(graph.edges.len() as int);
            let groups = groups_after(graph.nodes, edges, edges.len() as int);
            stands_for_step(graph, label_of(graph.nodes, groups, i), i)
        }),
{
    let steps = graph.nodes;
    let edges = graph.live_edges(graph.edges.len() as int);
    let groups = groups_after(steps, edges, edges.len() as int);
    if let StepView::Reference(name) = steps[i] {
        let group = groups[i];
        let names = crate::canonical::group_names(steps, groups, group, steps.len() as int);
        lemma_group_has(steps, groups, i, steps.len() as int);
        lemma_ascending_of_set::<String>(names);
        lemma_chain_there(steps, groups, i, steps.len() as int);
    }
}

proof fn lemma_group_has(steps: Seq<StepView>, groups: Seq<usize>, i: int, n: int)
    requires
        0 <= i < steps.len(),
        steps[i] is Reference,
        0 <= n <= steps.len(),
    ensures
        crate::canonical::group_names(steps, groups, groups[i], n).finite(),
        i < n ==> crate::canonical::group_names(steps, groups, groups[i], n).contains(
            crate::names::ref_text(steps[i]->Reference_0),
        ),
    decreases n,
{
    if n > 0 {
        lemma_group_has(steps, groups, i, n - 1);
    }
}

proof fn lemma_chain_there(steps: Seq<StepView>, groups: Seq<usize>, i: int, n: int)
    requires
        0 <= i < n <= steps.len(),
        steps[i] is Reference,
    ensures
        chains_among(steps, groups, n).contains(chain_of(steps, groups, groups[i])),
    decreases n,
{
    if i < n - 1 {
        lemma_chain_there(steps, groups, i, n - 1);
    }
}

/// An edge that is not between references is in the form, with what its ends stand for and its order.
pub proof fn law_edge_in_form(graph: StepGraphView, id: int)
    requires
        graph.wf(),
        0 <= id < graph.edges.len() <= usize::MAX,
        graph.edges[id] matches Some(e) && !(graph.nodes[e.source as int] is Reference
            && graph.nodes[e.target as int] is Reference),
    ensures
        ({
            let e = graph.edges[id]->0;
            exists|a: LabelView, b: LabelView|
                {
                    &&& #[trigger] canonical(graph).edges.contains((a, (b, e.weight.order)))
                    &&& stands_for_step(graph, a, e.source as int)
                    &&& stands_for_step(graph, b, e.target as int)
                }
        }),
{
    let steps = graph.nodes;
    let edges = graph.live_edges(graph.edges.len() as int);
    let groups = groups_after(steps, edges, edges.len() as int);
    let e = graph.edges[id]->0;
    let own = StepEdgeRef { id: id as usize, record: e };
    law_live_edges(graph, graph.edges.len() as int, own);
    let k = choose|k: int| 0 <= k < edges.len() && edges[k] == own;
    lemma_edge_there(steps, groups, edges, edges.len() as int, k);
    lemma_label(graph, e.source as int);
    lemma_label(graph, e.target as int);
    let (a, b) = (
        label_of(steps, groups, e.source as int),
        label_of(steps, groups, e.target as int),
    );
    assert(canonical(graph).edges.contains((a, (b, e.weight.order))));
}

proof fn lemma_edge_there(
    steps: Seq<StepView>,
    groups: Seq<usize>,
    edges: Seq<StepEdgeRef>,
    n: int,
    k: int,
)
    requires
        0 <= k < n <= edges.len(),
        !between_refs(steps, edges[k]),
    ensures
        edges_among(steps, groups, edges, n).contains(
            (
                label_of(steps, groups, edges[k].record.source as int),
                (
                    label_of(steps, groups, edges[k].record.target as int),
                    edges[k].record.weight.order,
                ),
            ),
        ),
    decreases n,
{
    if k < n - 1 {
        lemma_edge_there(steps, groups, edges, n - 1, k);
    }
}

/// Each edge of the form is one of the graph.
pub proof fn law_form_edges(graph: StepGraphView, x: EdgeView)
    requires
        graph.wf(),
        graph.edges.len() <= usize::MAX,
        canonical(graph).edges.contains(x),
    ensures
        exists|id: int|
            0 <= id < graph.edges.len() && (#[trigger] graph.edges[id] matches Some(e) && {
                &&& stands_for_step(graph, x.0, e.source as int)
                &&& stands_for_step(graph, x.1.0, e.target as int)
                &&& x.1.1 == e.weight.order
            }),
{
    let steps = graph.nodes;
    let edges = graph.live_edges(graph.edges.len() as int);
    let groups = groups_after(steps, edges, edges.len() as int);
    let k = lemma_edge_from(steps, groups, edges, edges.len() as int, x);
    lemma_live_edges(graph, graph.edges.len() as int);
    assert(edges.contains(edges[k]));
    law_live_edges(graph, graph.edges.len() as int, edges[k]);
    lemma_label(graph, edges[k].record.source as int);
    lemma_label(graph, edges[k].record.target as int);
    assert(graph.edges[edges[k].id as int] is Some);
}

proof fn lemma_edge_from(
    steps: Seq<StepView>,
    groups: Seq<usize>,
    edges: Seq<StepEdgeRef>,
    n: int,
    x: EdgeView,
) -> (k: int)
    requires
        0 <= n <= edges.len(),
        edges_among(steps, groups, edges, n).contains(x),
    ensures
        0 <= k < n,
        x == (
            label_of(steps, groups, edges[k].record.source as int),
            (
                label_of(steps, groups, edges[k].record.target as int),
                edges[k].record.weight.order,
            ),
        ),
    decreases n,
{
    if edges_among(steps, groups, edges, n - 1).contains(x) {
        lemma_edge_from(steps, groups, edges, n - 1, x)
    } else {
        n - 1
    }
}

/// A commit that only one of two forms has is reported as that, and one that both have otherwise with
/// what each has.
pub proof fn law_reported_pick(a: CanonicalView, b: CanonicalView, id: ObjectId)
    requires
        a.picks.dom().finite(),
        b.picks.dom().finite(),
    ensures
        ({
            let lines = canonical_lines(a, b);
            let (x, y) = (a.picks.dom().contains(id), b.picks.dom().contains(id));
            &&& x && !y ==> lines.contains("pick "@ + id_hex(id) + " only in SELF"@)
            &&& !x && y ==> lines.contains("pick "@ + id_hex(id) + " only in OTHER"@)
            &&& x && y && a.picks[id] != b.picks[id] ==> lines.contains(
                "pick "@ + id_hex(id) + ": "@ + info_text(a.picks[id]) + " != "@ + info_text(
                    b.picks[id],
                ),
            )
        }),
{
    let own = ascending::<ObjectId>(a.picks.dom());
    let others = ascending::<ObjectId>(b.picks.dom());
    lemma_ascending_of_set::<ObjectId>(a.picks.dom());
    lemma_ascending_of_set::<ObjectId>(b.picks.dom());
    let first = pick_lines(a.picks, b.picks, own, own.len() as int);
    let second = other_pick_lines(a.picks, others, others.len() as int);
    let third = one_sided_lines::<Vec<String>>(
        "chain only in SELF: "@,
        "chain only in OTHER: "@,
        a.chains,
        b.chains,
    );
    let fourth = one_sided_lines::<(Label, (Label, usize))>(
        "edge only in SELF: "@,
        "edge only in OTHER: "@,
        a.edges,
        b.edges,
    );
    assert(canonical_lines(a, b) == first + second + third + fourth);
    assert forall|line: Seq<char>| first.contains(line) || second.contains(
        line,
    ) implies canonical_lines(a, b).contains(line) by {
        lemma_add_contains(first, second, line);
        lemma_add_contains(first + second, third, line);
        lemma_add_contains(first + second + third, fourth, line);
    }
    if a.picks.dom().contains(id) {
        assert(own.contains(id));
        let i = choose|i: int| 0 <= i < own.len() && own[i] == id;
        lemma_pick_line(a.picks, b.picks, own, own.len() as int, i);
    }
    if b.picks.dom().contains(id) && !a.picks.dom().contains(id) {
        assert(others.contains(id));
        let i = choose|i: int| 0 <= i < others.len() && others[i] == id;
        lemma_other_pick_line(a.picks, others, others.len() as int, i);
    }
}

proof fn lemma_pick_line(
    a: Map<ObjectId, InfoView>,
    b: Map<ObjectId, InfoView>,
    ids: Seq<ObjectId>,
    n: int,
    i: int,
)
    requires
        0 <= i < n <= ids.len(),
    ensures
        ({
            let id = ids[i];
            let lines = pick_lines(a, b, ids, n);
            &&& !b.dom().contains(id) ==> lines.contains("pick "@ + id_hex(id) + " only in SELF"@)
            &&& b.dom().contains(id) && a[id] != b[id] ==> lines.contains(
                "pick "@ + id_hex(id) + ": "@ + info_text(a[id]) + " != "@ + info_text(b[id]),
            )
        }),
    decreases n,
{
    let id = ids[i];
    let last = ids[n - 1];
    let only = "pick "@ + id_hex(id) + " only in SELF"@;
    let other = "pick "@ + id_hex(id) + ": "@ + info_text(a[id]) + " != "@ + info_text(b[id]);
    let before = pick_lines(a, b, ids, n - 1);
    let own = if !b.dom().contains(last) {
        line_if(true, "pick "@ + id_hex(last) + " only in SELF"@)
    } else {
        line_if(
            a[last] != b[last],
            "pick "@ + id_hex(last) + ": "@ + info_text(a[last]) + " != "@ + info_text(b[last]),
        )
    };
    lemma_add_contains(before, own, only);
    lemma_add_contains(before, own, other);
    if i < n - 1 {
        lemma_pick_line(a, b, ids, n - 1, i);
    } else {
        assert(seq![only][0] == only && seq![other][0] == other);
    }
}

proof fn lemma_other_pick_line(a: Map<ObjectId, InfoView>, ids: Seq<ObjectId>, n: int, i: int)
    requires
        0 <= i < n <= ids.len(),
        !a.dom().contains(ids[i]),
    ensures
        other_pick_lines(a, ids, n).contains("pick "@ + id_hex(ids[i]) + " only in OTHER"@),
    decreases n,
{
    let line = "pick "@ + id_hex(ids[i]) + " only in OTHER"@;
    let own = line_if(
        !a.dom().contains(ids[n - 1]),
        "pick "@ + id_hex(ids[n - 1]) + " only in OTHER"@,
    );
    lemma_add_contains(other_pick_lines(a, ids, n - 1), own, line);
    if i < n - 1 {
        lemma_other_pick_line(a, ids, n - 1, i);
    } else {
        assert(seq![line][0] == line);
    }
}

/// The number of a step at which nothing is done is how many such steps there are before it.
pub proof fn law_blanks(steps: Seq<StepView>, n: int)
    requires
        0 <= n <= steps.len(),
    ensures
        blanks(steps, n) == steps.take(n).filter(|s: StepView| s is Blank).len(),
    decreases n,
{
    let keep = |s: StepView| s is Blank;
    if n > 0 {
        law_blanks(steps, n - 1);
        crate::seqs::lemma_filter_take(steps, keep, n - 1);
    } else {
        crate::seqs::lemma_filter_none(steps, keep);
    }
}

} // verus!
