//! What the form of a step graph depends on, and what it does not depend on.

use crate::canonical::{
    between_refs, canonical, canonical_lines, chain_of, chains_among, edges_among, group_names,
    groups_after, label_of, lemma_live_edges, other_pick_lines, pick_infos, pick_lines,
    CanonicalView, EdgeView, InfoView, Label,
};
use crate::creation_laws::lemma_filter_distinct;
use crate::names::{ref_text, ObjectId};
use crate::order::{ascending, lemma_ascending_of_set, Key};
use crate::reports::{missing_lines, Shown};
use crate::seqs::{lemma_filter_contains, lemma_filter_none, lemma_filter_take, lemma_take_all};
use crate::step::{flavor, StepView};
use crate::step_graph::{EdgeRecord, StepEdgeRef, StepGraphView};
use vstd::prelude::*;

verus! {

/// The edges are between the steps.
pub open spec fn edges_inside(steps: Seq<StepView>, edges: Seq<StepEdgeRef>) -> bool {
    forall|k: int|
        0 <= k < edges.len() ==> (#[trigger] edges[k]).record.source < steps.len()
            && edges[k].record.target < steps.len()
}

/// The relation holds of a step and itself, both ways, and over a third step.
pub open spec fn equivalence(rel: spec_fn(int, int) -> bool, n: int) -> bool {
    &&& forall|i: int| 0 <= i < n ==> #[trigger] rel(i, i)
    &&& forall|i: int, j: int|
        0 <= i < n && 0 <= j < n && #[trigger] rel(i, j) ==> rel(j, i)
    &&& forall|i: int, j: int, k: int|
        0 <= i < n && 0 <= j < n && 0 <= k < n && #[trigger] rel(i, j) && #[trigger] rel(j, k)
            ==> rel(i, k)
}

/// The relation holds of the ends of the first `n` edges between references.
pub open spec fn relates_ends(
    steps: Seq<StepView>,
    edges: Seq<StepEdgeRef>,
    rel: spec_fn(int, int) -> bool,
    n: int,
) -> bool {
    forall|k: int|
        0 <= k < n && between_refs(steps, #[trigger] edges[k]) ==> rel(
            edges[k].record.source as int,
            edges[k].record.target as int,
        )
}

proof fn lemma_groups_len(steps: Seq<StepView>, edges: Seq<StepEdgeRef>, n: int)
    ensures
        groups_after(steps, edges, n).len() == steps.len(),
    decreases n,
{
    if n > 0 {
        lemma_groups_len(steps, edges, n - 1);
    }
}

/// The ends of an edge between references are in one group.
pub proof fn law_connected_are_together(
    steps: Seq<StepView>,
    edges: Seq<StepEdgeRef>,
    n: int,
    k: int,
)
    requires
        edges_inside(steps, edges),
        0 <= k < n <= edges.len(),
        between_refs(steps, edges[k]),
    ensures
        groups_after(steps, edges, n)[edges[k].record.source as int] == groups_after(
            steps,
            edges,
            n,
        )[edges[k].record.target as int],
    decreases n,
{
    lemma_groups_len(steps, edges, n - 1);
    if k < n - 1 {
        law_connected_are_together(steps, edges, n - 1, k);
    }
    assert(edges[k].record.source < steps.len());
    assert(edges[n - 1].record.source < steps.len());
}

/// Steps that are in one group are connected: they are related by everything that relates each step
/// with itself, goes both ways and over a third step, and relates the ends of edges between
/// references.
pub proof fn law_together_are_connected(
    steps: Seq<StepView>,
    edges: Seq<StepEdgeRef>,
    rel: spec_fn(int, int) -> bool,
    n: int,
    i: int,
    j: int,
)
    requires
        edges_inside(steps, edges),
        steps.len() <= usize::MAX,
        0 <= n <= edges.len(),
        equivalence(rel, steps.len() as int),
        relates_ends(steps, edges, rel, n),
        0 <= i < steps.len(),
        0 <= j < steps.len(),
        groups_after(steps, edges, n)[i] == groups_after(steps, edges, n)[j],
    ensures
        rel(i, j),
    decreases n,
{
    if n > 0 {
        lemma_groups_len(steps, edges, n - 1);
        let before = groups_after(steps, edges, n - 1);
        let e = edges[n - 1];
        let (s, t) = (e.record.source as int, e.record.target as int);
        assert(edges[n - 1].record.source < steps.len());
        if before[i] == before[j] {
            law_together_are_connected(steps, edges, rel, n - 1, i, j);
        } else {
            assert(between_refs(steps, e));
            assert(rel(s, t));
            assert(rel(t, s));
            let (a, b) = (before[s], before[t]);
            assert(before[i] == a || before[i] == b);
            assert(before[j] == a || before[j] == b);
            if before[i] == a {
                law_together_are_connected(steps, edges, rel, n - 1, i, s);
                law_together_are_connected(steps, edges, rel, n - 1, t, j);
                assert(rel(i, t));
            } else {
                law_together_are_connected(steps, edges, rel, n - 1, i, t);
                law_together_are_connected(steps, edges, rel, n - 1, s, j);
                assert(rel(i, s));
            }
        }
    } else {
        assert(i == j);
    }
}

/// The edge with its ends called otherwise.
pub open spec fn renamed_edge(e: EdgeRecord, to: Seq<usize>) -> EdgeRecord {
    EdgeRecord {
        source: to[e.source as int],
        target: to[e.target as int],
        weight: e.weight,
    }
}

/// `b` is `a` with its steps at other indices: the step at `i` is at `to[i]`.
pub open spec fn renames(
    a: Seq<StepView>,
    ea: Seq<StepEdgeRef>,
    b: Seq<StepView>,
    eb: Seq<StepEdgeRef>,
    to: Seq<usize>,
) -> bool {
    &&& to.len() == a.len()
    &&& a.len() == b.len()
    &&& forall|i: int|
        0 <= i < a.len() ==> (#[trigger] to[i]) < b.len() && b[to[i] as int] == a[i]
    &&& forall|k: int|
        0 <= k < ea.len() ==> exists|m: int|
            0 <= m < eb.len() && (#[trigger] eb[m]).record == renamed_edge(
                (#[trigger] ea[k]).record,
                to,
            )
}

/// Both undo each other.
pub open spec fn inverse(to: Seq<usize>, from: Seq<usize>) -> bool {
    &&& to.len() == from.len()
    &&& forall|i: int|
        0 <= i < to.len() ==> (#[trigger] to[i]) < from.len() && from[to[i] as int] == i
    &&& forall|i: int|
        0 <= i < from.len() ==> (#[trigger] from[i]) < to.len() && to[from[i] as int] == i
}

/// What is together at one set of indices is together at the other.
proof fn lemma_together_renamed(
    a: Seq<StepView>,
    ea: Seq<StepEdgeRef>,
    b: Seq<StepView>,
    eb: Seq<StepEdgeRef>,
    to: Seq<usize>,
    i: int,
    j: int,
)
    requires
        edges_inside(a, ea),
        edges_inside(b, eb),
        a.len() <= usize::MAX,
        renames(a, ea, b, eb, to),
        0 <= i < a.len(),
        0 <= j < a.len(),
        groups_after(a, ea, ea.len() as int)[i] == groups_after(a, ea, ea.len() as int)[j],
    ensures
        groups_after(b, eb, eb.len() as int)[to[i] as int] == groups_after(
            b,
            eb,
            eb.len() as int,
        )[to[j] as int],
{
    let gb = groups_after(b, eb, eb.len() as int);
    let rel = |x: int, y: int| gb[to[x] as int] == gb[to[y] as int];
    assert(equivalence(rel, a.len() as int));
    assert forall|k: int| 0 <= k < ea.len() && between_refs(a, #[trigger] ea[k]) implies rel(
        ea[k].record.source as int,
        ea[k].record.target as int,
    ) by {
        let e = ea[k].record;
        assert(ea[k].record.source < a.len());
        let m = choose|m: int|
            0 <= m < eb.len() && (#[trigger] eb[m]).record == renamed_edge(ea[k].record, to);
        assert(to[e.source as int] < b.len() && to[e.target as int] < b.len());
        assert(between_refs(b, eb[m]));
        law_connected_are_together(b, eb, eb.len() as int, m);
    }
    law_together_are_connected(a, ea, rel, ea.len() as int, i, j);
}

proof fn lemma_group_names(
    steps: Seq<StepView>,
    groups: Seq<usize>,
    group: usize,
    n: int,
    x: Seq<char>,
)
    requires
        n <= steps.len(),
    ensures
        group_names(steps, groups, group, n).contains(x) <==> exists|j: int|
            0 <= j < n && (#[trigger] steps[j]) is Reference && groups[j] == group && ref_text(
                steps[j]->Reference_0,
            ) == x,
    decreases n,
{
    if n > 0 {
        lemma_group_names(steps, groups, group, n - 1, x);
        let found = |m: int|
            exists|j: int|
                0 <= j < m && (#[trigger] steps[j]) is Reference && groups[j] == group && ref_text(
                    steps[j]->Reference_0,
                ) == x;
        if found(n - 1) {
            let j = choose|j: int|
                0 <= j < n - 1 && (#[trigger] steps[j]) is Reference && groups[j] == group
                    && ref_text(steps[j]->Reference_0) == x;
            assert(steps[j] is Reference);
            assert(found(n));
        }
        if found(n) && !found(n - 1) {
            let j = choose|j: int|
                0 <= j < n && (#[trigger] steps[j]) is Reference && groups[j] == group && ref_text(
                    steps[j]->Reference_0,
                ) == x;
            assert(j == n - 1);
        }
        if steps[n - 1] is Reference && groups[n - 1] == group && ref_text(
            steps[n - 1]->Reference_0,
        ) == x {
            assert(found(n));
        }
    }
}

/// The names in a chain do not depend on the indices.
proof fn lemma_names_renamed(
    a: Seq<StepView>,
    ea: Seq<StepEdgeRef>,
    b: Seq<StepView>,
    eb: Seq<StepEdgeRef>,
    to: Seq<usize>,
    i: int,
    x: Seq<char>,
)
    requires
        edges_inside(a, ea),
        edges_inside(b, eb),
        a.len() <= usize::MAX,
        renames(a, ea, b, eb, to),
        0 <= i < a.len(),
        ({
            let ga = groups_after(a, ea, ea.len() as int);
            group_names(a, ga, ga[i], a.len() as int).contains(x)
        }),
    ensures
        ({
            let gb = groups_after(b, eb, eb.len() as int);
            group_names(b, gb, gb[to[i] as int], b.len() as int).contains(x)
        }),
{
    let ga = groups_after(a, ea, ea.len() as int);
    let gb = groups_after(b, eb, eb.len() as int);
    lemma_group_names(a, ga, ga[i], a.len() as int, x);
    let j = choose|j: int|
        0 <= j < a.len() && (#[trigger] a[j]) is Reference && ga[j] == ga[i] && ref_text(
            a[j]->Reference_0,
        ) == x;
    lemma_together_renamed(a, ea, b, eb, to, j, i);
    assert(to[j] < b.len());
    assert(b[to[j] as int] is Reference);
    lemma_group_names(b, gb, gb[to[i] as int], b.len() as int, x);
}

/// The chain that a step is in does not depend on the indices.
proof fn lemma_chain_renamed(
    a: Seq<StepView>,
    ea: Seq<StepEdgeRef>,
    b: Seq<StepView>,
    eb: Seq<StepEdgeRef>,
    to: Seq<usize>,
    from: Seq<usize>,
    i: int,
)
    requires
        edges_inside(a, ea),
        edges_inside(b, eb),
        a.len() <= usize::MAX,
        renames(a, ea, b, eb, to),
        renames(b, eb, a, ea, from),
        inverse(to, from),
        0 <= i < a.len(),
    ensures
        ({
            let ga = groups_after(a, ea, ea.len() as int);
            let gb = groups_after(b, eb, eb.len() as int);
            chain_of(a, ga, ga[i]) == chain_of(b, gb, gb[to[i] as int])
        }),
{
    let ga = groups_after(a, ea, ea.len() as int);
    let gb = groups_after(b, eb, eb.len() as int);
    let na = group_names(a, ga, ga[i], a.len() as int);
    let nb = group_names(b, gb, gb[to[i] as int], b.len() as int);
    assert forall|x: Seq<char>| na.contains(x) <==> nb.contains(x) by {
        if na.contains(x) {
            lemma_names_renamed(a, ea, b, eb, to, i, x);
        }
        if nb.contains(x) {
            assert(to[i] < from.len());
            lemma_names_renamed(b, eb, a, ea, from, to[i] as int, x);
        }
    }
    assert(na =~= nb);
}

/// What a step is called does not depend on the indices, unless nothing is done at it.
proof fn lemma_label_renamed(
    a: Seq<StepView>,
    ea: Seq<StepEdgeRef>,
    b: Seq<StepView>,
    eb: Seq<StepEdgeRef>,
    to: Seq<usize>,
    from: Seq<usize>,
    i: int,
)
    requires
        edges_inside(a, ea),
        edges_inside(b, eb),
        a.len() <= usize::MAX,
        renames(a, ea, b, eb, to),
        renames(b, eb, a, ea, from),
        inverse(to, from),
        0 <= i < a.len(),
        !(a[i] is Blank),
    ensures
        label_of(a, groups_after(a, ea, ea.len() as int), i) == label_of(
            b,
            groups_after(b, eb, eb.len() as int),
            to[i] as int,
        ),
{
    lemma_chain_renamed(a, ea, b, eb, to, from, i);
    assert(b[to[i] as int] == a[i]);
}

/// Something is done at every step.
pub open spec fn no_blanks(steps: Seq<StepView>) -> bool {
    forall|i: int| 0 <= i < steps.len() ==> !(#[trigger] steps[i] is Blank)
}

/// No commit is there twice.
pub open spec fn distinct_picks(steps: Seq<StepView>) -> bool {
    forall|i: int, j: int|
        0 <= i < j < steps.len() && #[trigger] steps[i] is Pick && #[trigger] steps[j] is Pick
            ==> steps[i]->Pick_0.id != steps[j]->Pick_0.id
}

proof fn lemma_chains(steps: Seq<StepView>, groups: Seq<usize>, n: int, c: Seq<Seq<char>>)
    requires
        n <= steps.len(),
    ensures
        chains_among(steps, groups, n).contains(c) <==> exists|i: int|
            0 <= i < n && (#[trigger] steps[i]) is Reference && chain_of(steps, groups, groups[i])
                == c,
    decreases n,
{
    if n > 0 {
        lemma_chains(steps, groups, n - 1, c);
        if chains_among(steps, groups, n - 1).contains(c) {
            let i = choose|i: int|
                0 <= i < n - 1 && (#[trigger] steps[i]) is Reference && chain_of(
                    steps,
                    groups,
                    groups[i],
                ) == c;
            assert(steps[i] is Reference);
        }
        if steps[n - 1] is Reference && chain_of(steps, groups, groups[n - 1]) == c {
            assert(steps[n - 1] is Reference);
        }
    }
}

proof fn lemma_chains_renamed(
    a: Seq<StepView>,
    ea: Seq<StepEdgeRef>,
    b: Seq<StepView>,
    eb: Seq<StepEdgeRef>,
    to: Seq<usize>,
    from: Seq<usize>,
    c: Seq<Seq<char>>,
)
    requires
        edges_inside(a, ea),
        edges_inside(b, eb),
        a.len() <= usize::MAX,
        renames(a, ea, b, eb, to),
        renames(b, eb, a, ea, from),
        inverse(to, from),
        chains_among(a, groups_after(a, ea, ea.len() as int), a.len() as int).contains(c),
    ensures
        chains_among(b, groups_after(b, eb, eb.len() as int), b.len() as int).contains(c),
{
    let ga = groups_after(a, ea, ea.len() as int);
    let gb = groups_after(b, eb, eb.len() as int);
    lemma_chains(a, ga, a.len() as int, c);
    let i = choose|i: int|
        0 <= i < a.len() && (#[trigger] a[i]) is Reference && chain_of(a, ga, ga[i]) == c;
    lemma_chain_renamed(a, ea, b, eb, to, from, i);
    assert(to[i] < b.len());
    assert(b[to[i] as int] is Reference);
    lemma_chains(b, gb, b.len() as int, c);
}

/// The edge as it stands in the form.
pub open spec fn shown_edge(steps: Seq<StepView>, groups: Seq<usize>, e: StepEdgeRef) -> EdgeView {
    (
        label_of(steps, groups, e.record.source as int),
        (label_of(steps, groups, e.record.target as int), e.record.weight.order),
    )
}

/// Whether the edge is one within a chain.
pub open spec fn within_chain(steps: Seq<StepView>, groups: Seq<usize>, e: StepEdgeRef) -> bool {
    between_refs(steps, e) && groups[e.record.source as int] == groups[e.record.target as int]
}

proof fn lemma_edges(
    steps: Seq<StepView>,
    groups: Seq<usize>,
    edges: Seq<StepEdgeRef>,
    n: int,
    x: EdgeView,
)
    requires
        n <= edges.len(),
    ensures
        edges_among(steps, groups, edges, n).contains(x) <==> exists|k: int|
            0 <= k < n && !within_chain(steps, groups, #[trigger] edges[k]) && shown_edge(
                steps,
                groups,
                edges[k],
            ) == x,
    decreases n,
{
    if n > 0 {
        lemma_edges(steps, groups, edges, n - 1, x);
        if edges_among(steps, groups, edges, n - 1).contains(x) {
            let k = choose|k: int|
                0 <= k < n - 1 && !within_chain(steps, groups, #[trigger] edges[k]) && shown_edge(
                    steps,
                    groups,
                    edges[k],
                ) == x;
            assert(!within_chain(steps, groups, edges[k]));
        }
        if !within_chain(steps, groups, edges[n - 1]) && shown_edge(steps, groups, edges[n - 1])
            == x {
            assert(!within_chain(steps, groups, edges[n - 1]));
        }
    }
}

proof fn lemma_edges_renamed(
    a: Seq<StepView>,
    ea: Seq<StepEdgeRef>,
    b: Seq<StepView>,
    eb: Seq<StepEdgeRef>,
    to: Seq<usize>,
    from: Seq<usize>,
    x: EdgeView,
)
    requires
        edges_inside(a, ea),
        edges_inside(b, eb),
        a.len() <= usize::MAX,
        no_blanks(a),
        renames(a, ea, b, eb, to),
        renames(b, eb, a, ea, from),
        inverse(to, from),
        edges_among(a, groups_after(a, ea, ea.len() as int), ea, ea.len() as int).contains(x),
    ensures
        edges_among(b, groups_after(b, eb, eb.len() as int), eb, eb.len() as int).contains(x),
{
    let ga = groups_after(a, ea, ea.len() as int);
    let gb = groups_after(b, eb, eb.len() as int);
    lemma_edges(a, ga, ea, ea.len() as int, x);
    let k = choose|k: int|
        0 <= k < ea.len() && !within_chain(a, ga, #[trigger] ea[k]) && shown_edge(a, ga, ea[k])
            == x;
    let e = ea[k].record;
    let m = choose|m: int|
        0 <= m < eb.len() && (#[trigger] eb[m]).record == renamed_edge(ea[k].record, to);
    let (s, t) = (e.source as int, e.target as int);
    assert(ea[k].record.source < a.len());
    assert(to[s] < b.len() && to[t] < b.len());
    assert(!(a[s] is Blank) && !(a[t] is Blank));
    lemma_label_renamed(a, ea, b, eb, to, from, s);
    lemma_label_renamed(a, ea, b, eb, to, from, t);
    assert(shown_edge(b, gb, eb[m]) == x);
    if within_chain(b, gb, eb[m]) {
        assert(from[to[s] as int] == s && from[to[t] as int] == t);
        lemma_together_renamed(b, eb, a, ea, from, to[s] as int, to[t] as int);
        assert(within_chain(a, ga, ea[k]));
    }
    lemma_edges(b, gb, eb, eb.len() as int, x);
}

proof fn lemma_picks(steps: Seq<StepView>, n: int, id: ObjectId)
    requires
        0 <= n <= steps.len(),
        distinct_picks(steps),
    ensures
        pick_infos(steps, n).dom().contains(id) <==> exists|i: int|
            0 <= i < n && (#[trigger] steps[i]) is Pick && steps[i]->Pick_0.id == id,
        forall|i: int|
            0 <= i < n && (#[trigger] steps[i]) is Pick && steps[i]->Pick_0.id == id
                ==> pick_infos(steps, n)[id] == (InfoView {
                flavor: flavor(steps[i]->Pick_0.settings),
                preserved_parents: steps[i]->Pick_0.preserved_parents,
            }),
    decreases n,
{
    if n > 0 {
        lemma_picks(steps, n - 1, id);
        if pick_infos(steps, n - 1).dom().contains(id) {
            let i = choose|i: int|
                0 <= i < n - 1 && (#[trigger] steps[i]) is Pick && steps[i]->Pick_0.id == id;
            assert(steps[i] is Pick);
        }
        if steps[n - 1] is Pick && steps[n - 1]->Pick_0.id == id {
            assert(steps[n - 1] is Pick);
        }
    }
}

proof fn lemma_picks_renamed(
    a: Seq<StepView>,
    ea: Seq<StepEdgeRef>,
    b: Seq<StepView>,
    eb: Seq<StepEdgeRef>,
    to: Seq<usize>,
    id: ObjectId,
)
    requires
        renames(a, ea, b, eb, to),
        distinct_picks(a),
        distinct_picks(b),
        pick_infos(a, a.len() as int).dom().contains(id),
    ensures
        pick_infos(b, b.len() as int).dom().contains(id),
        pick_infos(b, b.len() as int)[id] == pick_infos(a, a.len() as int)[id],
{
    lemma_picks(a, a.len() as int, id);
    let i = choose|i: int|
        0 <= i < a.len() && (#[trigger] a[i]) is Pick && a[i]->Pick_0.id == id;
    assert(to[i] < b.len());
    assert(b[to[i] as int] is Pick);
    lemma_picks(b, b.len() as int, id);
}

proof fn lemma_distinct_renamed(
    a: Seq<StepView>,
    ea: Seq<StepEdgeRef>,
    b: Seq<StepView>,
    eb: Seq<StepEdgeRef>,
    to: Seq<usize>,
    from: Seq<usize>,
)
    requires
        renames(b, eb, a, ea, from),
        inverse(to, from),
        distinct_picks(a),
        no_blanks(a),
    ensures
        distinct_picks(b),
        no_blanks(b),
{
    assert forall|i: int, j: int|
        0 <= i < j < b.len() && #[trigger] b[i] is Pick && #[trigger] b[j] is Pick
            implies b[i]->Pick_0.id != b[j]->Pick_0.id by {
        let (x, y) = (from[i] as int, from[j] as int);
        assert(a[x] == b[i] && a[y] == b[j]);
        assert(to[x] == i && to[y] == j);
        if x < y {
            assert(a[x]->Pick_0.id != a[y]->Pick_0.id);
        } else {
            assert(a[y]->Pick_0.id != a[x]->Pick_0.id);
        }
    }
    assert forall|i: int| 0 <= i < b.len() implies !(#[trigger] b[i] is Blank) by {
        assert(a[from[i] as int] == b[i]);
        assert(!(a[from[i] as int] is Blank));
    }
}

/// The form of a graph does not depend on the indices of its steps: two graphs that are the same but
/// for these have the same form. That is for graphs in which something is done at every step and no
/// commit is there twice.
pub proof fn law_form_is_independent_of_indices(
    a: StepGraphView,
    b: StepGraphView,
    to: Seq<usize>,
    from: Seq<usize>,
)
    requires
        a.wf(),
        b.wf(),
        a.nodes.len() <= usize::MAX,
        a.edges.len() <= usize::MAX,
        b.edges.len() <= usize::MAX,
        no_blanks(a.nodes),
        distinct_picks(a.nodes),
        inverse(to, from),
        renames(
            a.nodes,
            a.live_edges(a.edges.len() as int),
            b.nodes,
            b.live_edges(b.edges.len() as int),
            to,
        ),
        renames(
            b.nodes,
            b.live_edges(b.edges.len() as int),
            a.nodes,
            a.live_edges(a.edges.len() as int),
            from,
        ),
    ensures
        canonical(a) == canonical(b),
{
    let (ea, eb) = (a.live_edges(a.edges.len() as int), b.live_edges(b.edges.len() as int));
    lemma_live_edges(a, a.edges.len() as int);
    lemma_live_edges(b, b.edges.len() as int);
    lemma_distinct_renamed(a.nodes, ea, b.nodes, eb, to, from);
    let (ca, cb) = (canonical(a), canonical(b));
    assert forall|id: ObjectId| #[trigger] ca.picks.dom().contains(id) implies cb.picks.dom().contains(
        id,
    ) && cb.picks[id] == ca.picks[id] by {
        lemma_picks_renamed(a.nodes, ea, b.nodes, eb, to, id);
    }
    assert forall|id: ObjectId| #[trigger] cb.picks.dom().contains(id) implies ca.picks.dom().contains(
        id,
    ) by {
        lemma_picks_renamed(b.nodes, eb, a.nodes, ea, from, id);
    }
    assert(ca.picks.dom() =~= cb.picks.dom());
    assert(ca.picks =~= cb.picks);
    assert forall|c: Seq<Seq<char>>| ca.chains.contains(c) <==> cb.chains.contains(c) by {
        if ca.chains.contains(c) {
            lemma_chains_renamed(a.nodes, ea, b.nodes, eb, to, from, c);
        }
        if cb.chains.contains(c) {
            lemma_chains_renamed(b.nodes, eb, a.nodes, ea, from, to, c);
        }
    }
    assert(ca.chains =~= cb.chains);
    assert forall|x: EdgeView| ca.edges.contains(x) <==> cb.edges.contains(x) by {
        if ca.edges.contains(x) {
            lemma_edges_renamed(a.nodes, ea, b.nodes, eb, to, from, x);
        }
        if cb.edges.contains(x) {
            lemma_edges_renamed(b.nodes, eb, a.nodes, ea, from, to, x);
        }
    }
    assert(ca.edges =~= cb.edges);
}

/// The names of the references are shown differently.
pub open spec fn distinct_refs(steps: Seq<StepView>) -> bool {
    forall|i: int, j: int|
        0 <= i < j < steps.len() && #[trigger] steps[i] is Reference
            && #[trigger] steps[j] is Reference ==> ref_text(steps[i]->Reference_0) != ref_text(
            steps[j]->Reference_0,
        )
}

proof fn lemma_group_names_finite(
    steps: Seq<StepView>,
    groups: Seq<usize>,
    group: usize,
    n: int,
)
    ensures
        group_names(steps, groups, group, n).finite(),
    decreases n,
{
    if n > 0 {
        lemma_group_names_finite(steps, groups, group, n - 1);
    }
}

/// What a chain holds are the names of the references of its group.
proof fn lemma_chain_holds(
    steps: Seq<StepView>,
    groups: Seq<usize>,
    group: usize,
    x: Seq<char>,
)
    ensures
        chain_of(steps, groups, group).contains(x) <==> exists|j: int|
            0 <= j < steps.len() && (#[trigger] steps[j]) is Reference && groups[j] == group
                && ref_text(steps[j]->Reference_0) == x,
{
    lemma_group_names_finite(steps, groups, group, steps.len() as int);
    lemma_group_names(steps, groups, group, steps.len() as int, x);
    lemma_ascending_of_set::<String>(group_names(steps, groups, group, steps.len() as int));
}

/// Each chain holds a name, each name of a reference is held by a chain, and what a chain holds is
/// the name of a reference. If the references are shown differently then no two chains hold the
/// same name.
pub proof fn law_chains_part_the_names(graph: StepGraphView)
    ensures
        forall|c: Seq<Seq<char>>| #[trigger] canonical(graph).chains.contains(c) ==> c.len() > 0,
        forall|i: int|
            0 <= i < graph.nodes.len() && #[trigger] graph.nodes[i] is Reference ==> exists|
                c: Seq<Seq<char>>,
            | #[trigger]
                canonical(graph).chains.contains(c) && c.contains(
                    ref_text(graph.nodes[i]->Reference_0),
                ),
        forall|c: Seq<Seq<char>>, x: Seq<char>|
            canonical(graph).chains.contains(c) && #[trigger] c.contains(x) ==> exists|i: int|
                0 <= i < graph.nodes.len() && (#[trigger] graph.nodes[i]) is Reference && ref_text(
                    graph.nodes[i]->Reference_0,
                ) == x,
        distinct_refs(graph.nodes) ==> forall|
            c: Seq<Seq<char>>,
            d: Seq<Seq<char>>,
            x: Seq<char>,
        |
            canonical(graph).chains.contains(c) && canonical(graph).chains.contains(d)
                && #[trigger] c.contains(x) && #[trigger] d.contains(x) ==> c == d,
{
    let steps = graph.nodes;
    let edges = graph.live_edges(graph.edges.len() as int);
    let groups = groups_after(steps, edges, edges.len() as int);
    let n = steps.len() as int;
    let chains = canonical(graph).chains;
    assert forall|c: Seq<Seq<char>>| #[trigger] chains.contains(c) implies c.len() > 0 by {
        lemma_chains(steps, groups, n, c);
        let i = choose|i: int|
            0 <= i < n && (#[trigger] steps[i]) is Reference && chain_of(steps, groups, groups[i])
                == c;
        lemma_chain_holds(steps, groups, groups[i], ref_text(steps[i]->Reference_0));
        assert(c.contains(ref_text(steps[i]->Reference_0)));
    }
    assert forall|i: int| 0 <= i < n && #[trigger] steps[i] is Reference implies exists|
        c: Seq<Seq<char>>,
    | #[trigger]
        chains.contains(c) && c.contains(ref_text(steps[i]->Reference_0)) by {
        let c = chain_of(steps, groups, groups[i]);
        lemma_chains(steps, groups, n, c);
        lemma_chain_holds(steps, groups, groups[i], ref_text(steps[i]->Reference_0));
        assert(chains.contains(c));
    }
    assert forall|c: Seq<Seq<char>>, x: Seq<char>|
        chains.contains(c) && #[trigger] c.contains(x) implies exists|i: int|
        0 <= i < n && (#[trigger] steps[i]) is Reference && ref_text(steps[i]->Reference_0)
            == x by {
        lemma_chains(steps, groups, n, c);
        let i = choose|i: int|
            0 <= i < n && (#[trigger] steps[i]) is Reference && chain_of(steps, groups, groups[i])
                == c;
        lemma_chain_holds(steps, groups, groups[i], x);
    }
    if distinct_refs(steps) {
        assert forall|c: Seq<Seq<char>>, d: Seq<Seq<char>>, x: Seq<char>|
            chains.contains(c) && chains.contains(d) && #[trigger] c.contains(x)
                && #[trigger] d.contains(x) implies c == d by {
            lemma_chains(steps, groups, n, c);
            lemma_chains(steps, groups, n, d);
            let i = choose|i: int|
                0 <= i < n && (#[trigger] steps[i]) is Reference && chain_of(
                    steps,
                    groups,
                    groups[i],
                ) == c;
            let j = choose|j: int|
                0 <= j < n && (#[trigger] steps[j]) is Reference && chain_of(
                    steps,
                    groups,
                    groups[j],
                ) == d;
            lemma_chain_holds(steps, groups, groups[i], x);
            lemma_chain_holds(steps, groups, groups[j], x);
            let k = choose|k: int|
                0 <= k < n && (#[trigger] steps[k]) is Reference && groups[k] == groups[i]
                    && ref_text(steps[k]->Reference_0) == x;
            let m = choose|m: int|
                0 <= m < n && (#[trigger] steps[m]) is Reference && groups[m] == groups[j]
                    && ref_text(steps[m]->Reference_0) == x;
            assert(k == m);
        }
    }
}

/// No edge of the form is from a chain to a chain.
pub proof fn law_no_edge_between_chains(graph: StepGraphView, e: EdgeView)
    requires
        graph.wf(),
        graph.edges.len() <= usize::MAX,
        canonical(graph).edges.contains(e),
    ensures
        !(e.0 is Refs && e.1.0 is Refs),
{
    let steps = graph.nodes;
    let edges = graph.live_edges(graph.edges.len() as int);
    let groups = groups_after(steps, edges, edges.len() as int);
    lemma_live_edges(graph, graph.edges.len() as int);
    lemma_edges(steps, groups, edges, edges.len() as int, e);
    let k = choose|k: int|
        0 <= k < edges.len() && !within_chain(steps, groups, #[trigger] edges[k]) && shown_edge(
            steps,
            groups,
            edges[k],
        ) == e;
    if between_refs(steps, edges[k]) {
        law_connected_are_together(steps, edges, edges.len() as int, k);
    }
}

proof fn lemma_missing_alike<K: Shown>(
    head: Seq<char>,
    other_head: Seq<char>,
    list: Seq<K::Model>,
    other: Set<K::Model>,
)
    ensures
        missing_lines::<K>(head, list, other).len() == missing_lines::<K>(
            other_head,
            list,
            other,
        ).len(),
    decreases list.len(),
{
    if list.len() > 0 {
        lemma_missing_alike::<K>(head, other_head, list.drop_last(), other);
    }
}

/// Whether both have the commit, and not alike.
spec fn differs(a: Map<ObjectId, InfoView>, b: Map<ObjectId, InfoView>) -> spec_fn(ObjectId) -> bool {
    |id: ObjectId| a.dom().contains(id) && b.dom().contains(id) && a[id] != b[id]
}

/// There is a line for each commit that the other does not have, and one for each that both have
/// and not alike.
proof fn lemma_pick_lines_count(
    a: Map<ObjectId, InfoView>,
    b: Map<ObjectId, InfoView>,
    ids: Seq<ObjectId>,
    n: int,
)
    requires
        0 <= n <= ids.len(),
        forall|i: int| 0 <= i < ids.len() ==> a.dom().contains(#[trigger] ids[i]),
    ensures
        pick_lines(a, b, ids, n).len() == other_pick_lines(b, ids, n).len() + ids.take(n).filter(
            differs(a, b),
        ).len(),
    decreases n,
{
    if n > 0 {
        lemma_pick_lines_count(a, b, ids, n - 1);
        lemma_filter_take(ids, differs(a, b), n - 1);
        assert(a.dom().contains(ids[n - 1]));
    } else {
        assert(ids.take(0) =~= Seq::<ObjectId>::empty());
        lemma_filter_none(ids.take(0), differs(a, b));
    }
}

proof fn lemma_ascending_distinct(ids: Set<ObjectId>)
    requires
        ids.finite(),
    ensures
        ascending::<ObjectId>(ids).no_duplicates(),
        forall|x: ObjectId| #[trigger] ascending::<ObjectId>(ids).contains(x) <==> ids.contains(x),
{
    lemma_ascending_of_set::<ObjectId>(ids);
    let list = ascending::<ObjectId>(ids);
    assert forall|i: int, j: int| 0 <= i < list.len() && 0 <= j < list.len() && i != j implies list[i]
        != list[j] by {
        <ObjectId as Key>::lt_irreflexive(list[i]);
        <ObjectId as Key>::lt_irreflexive(list[j]);
    }
}

/// Whichever of two forms is held against the other, as many lines come out.
pub proof fn law_differences_count_alike(a: CanonicalView, b: CanonicalView)
    requires
        a.picks.dom().finite(),
        b.picks.dom().finite(),
    ensures
        canonical_lines(a, b).len() == canonical_lines(b, a).len(),
{
    let own = ascending::<ObjectId>(a.picks.dom());
    let others = ascending::<ObjectId>(b.picks.dom());
    lemma_ascending_distinct(a.picks.dom());
    lemma_ascending_distinct(b.picks.dom());
    assert forall|i: int| 0 <= i < own.len() implies a.picks.dom().contains(#[trigger] own[i]) by {
        assert(own.contains(own[i]));
    }
    assert forall|i: int| 0 <= i < others.len() implies b.picks.dom().contains(
        #[trigger] others[i],
    ) by {
        assert(others.contains(others[i]));
    }
    lemma_pick_lines_count(a.picks, b.picks, own, own.len() as int);
    lemma_pick_lines_count(b.picks, a.picks, others, others.len() as int);
    lemma_take_all(own);
    lemma_take_all(others);
    let x = own.filter(differs(a.picks, b.picks));
    let y = others.filter(differs(b.picks, a.picks));
    lemma_filter_distinct(own, differs(a.picks, b.picks));
    lemma_filter_distinct(others, differs(b.picks, a.picks));
    assert forall|id: ObjectId| x.to_set().contains(id) <==> y.to_set().contains(id) by {
        lemma_filter_contains(own, differs(a.picks, b.picks), id);
        lemma_filter_contains(others, differs(b.picks, a.picks), id);
    }
    assert(x.to_set() =~= y.to_set());
    x.unique_seq_to_set();
    y.unique_seq_to_set();
    lemma_missing_alike::<Vec<String>>(
        "chain only in SELF: "@,
        "chain only in OTHER: "@,
        ascending::<Vec<String>>(a.chains),
        b.chains,
    );
    lemma_missing_alike::<Vec<String>>(
        "chain only in SELF: "@,
        "chain only in OTHER: "@,
        ascending::<Vec<String>>(b.chains),
        a.chains,
    );
    lemma_missing_alike::<(Label, (Label, usize))>(
        "edge only in SELF: "@,
        "edge only in OTHER: "@,
        ascending::<(Label, (Label, usize))>(a.edges),
        b.edges,
    );
    lemma_missing_alike::<(Label, (Label, usize))>(
        "edge only in SELF: "@,
        "edge only in OTHER: "@,
        ascending::<(Label, (Label, usize))>(b.edges),
        a.edges,
    );
}

} // verus!
