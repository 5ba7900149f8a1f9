//! A form of a step graph that does not depend on the indices of its steps.
//!
//! References that are connected with one another by edges stand for one chain, the set of their
//! names: the order within a chain means nothing, but which references are in it does, and where it
//! is between the commits.

use crate::collections::{SortedMap, SortedSet};
use crate::names::{
    id_debug, id_hex, ids_debug, ids_debug_text, ref_text, text_debug, text_debug_text, ObjectId,
};
use crate::order::{ascending, lex_lt, models, Key};
use crate::reports::{one_sided_lines, push_one_sided, Shown};
use crate::seqs::lemma_add_assoc;
use crate::step::{clone_opt_ids, flavor, opt_ids, same_opt_ids, Step, StepView};
use crate::step_graph::{StepEdgeRef, StepGraph, StepGraphIndex, StepGraphView};
use crate::text::{decimal, decimal_text, join, join_text, lemma_no_line, line_if, push_line, texts};
use vstd::prelude::*;
use vstd::string::*;

verus! {

/// What a step is called.
#[derive(Debug)]
pub enum Label {
    /// A commit, by its id.
    Pick(ObjectId),
    /// A chain, by the names of its references, ascending.
    Refs(Vec<String>),
    /// A step at which nothing is done, by how many such steps come before it.
    Blank(usize),
}

/// What a [`Label`] stands for.
#[verifier::ext_equal]
pub enum LabelView {
    /// A commit, by its id.
    Pick(ObjectId),
    /// A chain, by the names of its references, ascending.
    Refs(Seq<Seq<char>>),
    /// A step at which nothing is done, by how many such steps come before it.
    Blank(usize),
}

impl Key for Label {
    type Model = LabelView;

    open spec fn model(&self) -> LabelView {
        match self {
            Label::Pick(id) => LabelView::Pick(*id),
            Label::Refs(names) => LabelView::Refs(texts(names@)),
            Label::Blank(n) => LabelView::Blank(*n),
        }
    }

    open spec fn lt(a: LabelView, b: LabelView) -> bool {
        match (a, b) {
            (LabelView::Pick(x), LabelView::Pick(y)) => ObjectId::lt(x, y),
            (LabelView::Refs(x), LabelView::Refs(y)) => lex_lt::<String>(x, y),
            (LabelView::Blank(x), LabelView::Blank(y)) => x < y,
            (LabelView::Pick(_), _) => true,
            (LabelView::Refs(_), LabelView::Blank(_)) => true,
            _ => false,
        }
    }

    proof fn lt_irreflexive(a: LabelView) {
        match a {
            LabelView::Refs(x) => {
                <Vec<String> as Key>::lt_irreflexive(x);
            },
            _ => {},
        }
    }

    proof fn lt_transitive(a: LabelView, b: LabelView, c: LabelView) {
        match (a, b, c) {
            (LabelView::Refs(x), LabelView::Refs(y), LabelView::Refs(z)) => {
                <Vec<String> as Key>::lt_transitive(x, y, z);
            },
            _ => {},
        }
    }

    proof fn lt_connected(a: LabelView, b: LabelView) {
        match (a, b) {
            (LabelView::Refs(x), LabelView::Refs(y)) => {
                <Vec<String> as Key>::lt_connected(x, y);
            },
            _ => {},
        }
    }

    fn is_less(&self, other: &Label) -> (r: bool) {
        match (self, other) {
            (Label::Pick(x), Label::Pick(y)) => x.is_less(y),
            (Label::Refs(x), Label::Refs(y)) => {
                assert(models(x@) =~= texts(x@));
                assert(models(y@) =~= texts(y@));
                x.is_less(y)
            },
            (Label::Blank(x), Label::Blank(y)) => *x < *y,
            (Label::Pick(_), _) => true,
            (Label::Refs(_), Label::Blank(_)) => true,
            _ => false,
        }
    }
}

/// What matters about a commit beside its id.
#[derive(Debug)]
pub struct PickInfo {
    /// How it is picked.
    pub flavor: String,
    /// The parents that it keeps.
    pub preserved_parents: Option<Vec<ObjectId>>,
}

/// What a [`PickInfo`] stands for.
#[verifier::ext_equal]
pub struct InfoView {
    /// How it is picked.
    pub flavor: Seq<char>,
    /// The parents that it keeps.
    pub preserved_parents: Option<Seq<ObjectId>>,
}

impl View for PickInfo {
    type V = InfoView;

    open spec fn view(&self) -> InfoView {
        InfoView {
            flavor: self.flavor@,
            preserved_parents: opt_ids(self.preserved_parents),
        }
    }
}

/// The form of a step graph: commits and chains, and the edges between them with their order.
pub struct CanonicalStepGraph {
    /// The commits.
    pub picks: SortedMap<ObjectId, PickInfo>,
    /// The chains.
    pub chains: SortedSet<Vec<String>>,
    /// The edges, each with where it leaves, where it leads and its order.
    pub edges: SortedSet<(Label, (Label, usize))>,
}

/// An edge: where it leaves, where it leads, and its order.
pub type EdgeView = (LabelView, (LabelView, usize));

/// What a [`CanonicalStepGraph`] stands for.
#[verifier::ext_equal]
pub struct CanonicalView {
    /// The commits.
    pub picks: Map<ObjectId, InfoView>,
    /// The chains.
    pub chains: Set<Seq<Seq<char>>>,
    /// The edges.
    pub edges: Set<EdgeView>,
}

impl View for CanonicalStepGraph {
    type V = CanonicalView;

    open spec fn view(&self) -> CanonicalView {
        CanonicalView {
            picks: self.picks@.map_values(|i: PickInfo| i@),
            chains: self.chains@,
            edges: self.edges@,
        }
    }
}

/// The groups after `b` has gone into `a`.
pub open spec fn merged(groups: Seq<usize>, a: usize, b: usize) -> Seq<usize> {
    groups.map_values(
        |g: usize|
            if g == b {
                a
            } else {
                g
            },
    )
}

/// Whether an edge connects two references.
pub open spec fn between_refs(steps: Seq<StepView>, e: StepEdgeRef) -> bool {
    steps[e.record.source as int] is Reference && steps[e.record.target as int] is Reference
}

/// For each step the group that it is in, once the first `n` edges have brought references
/// together. At first each step is a group of its own.
pub open spec fn groups_after(steps: Seq<StepView>, edges: Seq<StepEdgeRef>, n: int) -> Seq<usize>
    decreases n,
{
    if n <= 0 {
        Seq::new(steps.len(), |i: int| i as usize)
    } else {
        let before = groups_after(steps, edges, n - 1);
        let e = edges[n - 1];
        if between_refs(steps, e) {
            merged(before, before[e.record.source as int], before[e.record.target as int])
        } else {
            before
        }
    }
}

/// The names of those of the first `n` steps that are references of the group.
pub open spec fn group_names(steps: Seq<StepView>, groups: Seq<usize>, group: usize, n: int) -> Set<
    Seq<char>,
>
    decreases n,
{
    if n <= 0 {
        Set::empty()
    } else {
        let before = group_names(steps, groups, group, n - 1);
        match steps[n - 1] {
            StepView::Reference(name) => if groups[n - 1] == group {
                before.insert(ref_text(name))
            } else {
                before
            },
            _ => before,
        }
    }
}

/// The names of the group, ascending.
pub open spec fn chain_of(steps: Seq<StepView>, groups: Seq<usize>, group: usize) -> Seq<Seq<char>> {
    ascending::<String>(group_names(steps, groups, group, steps.len() as int))
}

/// How many of the first `n` steps are ones at which nothing is done.
pub open spec fn blanks(steps: Seq<StepView>, n: int) -> nat
    decreases n,
{
    if n <= 0 {
        0
    } else {
        blanks(steps, n - 1) + if steps[n - 1] is Blank {
            1nat
        } else {
            0nat
        }
    }
}

/// What the step is called.
pub open spec fn label_of(steps: Seq<StepView>, groups: Seq<usize>, i: int) -> LabelView {
    match steps[i] {
        StepView::Pick(pick) => LabelView::Pick(pick.id),
        StepView::Reference(_) => LabelView::Refs(chain_of(steps, groups, groups[i])),
        StepView::Blank => LabelView::Blank(blanks(steps, i) as usize),
    }
}

/// What matters about the commits among the first `n` steps; the last one of an id prevails.
pub open spec fn pick_infos(steps: Seq<StepView>, n: int) -> Map<ObjectId, InfoView>
    decreases n,
{
    if n <= 0 {
        Map::empty()
    } else {
        let before = pick_infos(steps, n - 1);
        match steps[n - 1] {
            StepView::Pick(pick) => before.insert(
                pick.id,
                InfoView {
                    flavor: flavor(pick.settings),
                    preserved_parents: pick.preserved_parents,
                },
            ),
            _ => before,
        }
    }
}

/// The chains of the first `n` steps.
pub open spec fn chains_among(steps: Seq<StepView>, groups: Seq<usize>, n: int) -> Set<
    Seq<Seq<char>>,
>
    decreases n,
{
    if n <= 0 {
        Set::empty()
    } else {
        let before = chains_among(steps, groups, n - 1);
        if steps[n - 1] is Reference {
            before.insert(chain_of(steps, groups, groups[n - 1]))
        } else {
            before
        }
    }
}

/// The first `n` edges, but for those within a chain.
pub open spec fn edges_among(
    steps: Seq<StepView>,
    groups: Seq<usize>,
    edges: Seq<StepEdgeRef>,
    n: int,
) -> Set<EdgeView>
    decreases n,
{
    if n <= 0 {
        Set::empty()
    } else {
        let before = edges_among(steps, groups, edges, n - 1);
        let e = edges[n - 1];
        let (a, b) = (e.record.source as int, e.record.target as int);
        if between_refs(steps, e) && groups[a] == groups[b] {
            before
        } else {
            before.insert(
                (
                    label_of(steps, groups, a),
                    (label_of(steps, groups, b), e.record.weight.order),
                ),
            )
        }
    }
}

/// The form of the graph.
pub open spec fn canonical(graph: StepGraphView) -> CanonicalView {
    let steps = graph.nodes;
    let edges = graph.live_edges(graph.edges.len() as int);
    let groups = groups_after(steps, edges, edges.len() as int);
    CanonicalView {
        picks: pick_infos(steps, steps.len() as int),
        chains: chains_among(steps, groups, steps.len() as int),
        edges: edges_among(steps, groups, edges, edges.len() as int),
    }
}

/// The edges that are there are between steps of the graph.
pub proof fn lemma_live_edges(graph: StepGraphView, n: int)
    requires
        graph.wf(),
        0 <= n <= graph.edges.len(),
        graph.edges.len() <= usize::MAX,
    ensures
        ({
            let live = graph.live_edges(n);
            forall|i: int|
                0 <= i < live.len() ==> (#[trigger] live[i]).record.source < graph.nodes.len()
                    && live[i].record.target < graph.nodes.len()
        }),
    decreases n,
{
    if n > 0 {
        lemma_live_edges(graph, n - 1);
        let before = graph.live_edges(n - 1);
        let e = graph.edge_at((n - 1) as usize);
        if graph.edges[n - 1] is Some {
            assert(graph.live_edges(n) == before.push(e));
            assert(e.record == graph.edges[n - 1]->0);
        } else {
            assert(graph.live_edges(n) == before);
        }
    } else {
        assert(graph.live_edges(n).len() == 0);
    }
}

/// The groups once all edges have brought references together.
#[verifier::loop_isolation(false)]
fn find_groups(graph: &StepGraph, edges: &Vec<StepEdgeRef>) -> (groups: Vec<usize>)
    requires
        forall|i: int|
            0 <= i < edges@.len() ==> (#[trigger] edges@[i]).record.source < graph@.nodes.len()
                && edges@[i].record.target < graph@.nodes.len(),
    ensures
        groups@ == groups_after(graph@.nodes, edges@, edges@.len() as int),
        groups@.len() == graph@.nodes.len(),
{
    let ghost steps = graph@.nodes;
    let mut groups: Vec<usize> = Vec::new();
    let mut i: usize = 0;
    while i < graph.nodes.len()
        invariant
            i <= graph.nodes@.len(),
            groups@ =~= Seq::new(i as nat, |i: int| i as usize),
        decreases graph.nodes.len() - i,
    {
        groups.push(i);
        i += 1;
    }
    let mut k: usize = 0;
    while k < edges.len()
        invariant
            k <= edges@.len(),
            groups@.len() == steps.len(),
            groups@ == groups_after(steps, edges@, k as int),
        decreases edges.len() - k,
    {
        let e = edges[k];
        assert(edges@[k as int].record.source < steps.len());
        if is_reference(graph, e.record.source) && is_reference(graph, e.record.target) {
            let a: usize = groups[e.record.source];
            let b: usize = groups[e.record.target];
            let ghost before = groups@;
            let ghost goal = merged(before, a, b);
            let mut j: usize = 0;
            while j < groups.len()
                invariant
                    j <= groups@.len(),
                    groups@.len() == steps.len(),
                    groups@.len() == before.len(),
                    goal == merged(before, a, b),
                    forall|m: int| 0 <= m < j ==> groups@[m] == #[trigger] goal[m],
                    forall|m: int| j <= m < groups@.len() ==> groups@[m] == #[trigger] before[m],
                decreases groups.len() - j,
            {
                assert(groups@[j as int] == before[j as int]);
                if groups[j] == b {
                    groups.set(j, a);
                }
                j += 1;
            }
            assert(groups@ =~= goal);
        }
        k += 1;
    }
    groups
}

/// Whether the step is a reference.
fn is_reference(graph: &StepGraph, ix: StepGraphIndex) -> (r: bool)
    requires
        ix < graph@.nodes.len(),
    ensures
        r == graph@.nodes[ix as int] is Reference,
{
    match graph.step(ix) {
        Step::Reference { .. } => true,
        _ => false,
    }
}

/// The names of the group, ascending.
#[verifier::loop_isolation(false)]
fn find_chain(graph: &StepGraph, groups: &Vec<usize>, group: usize) -> (r: Vec<String>)
    requires
        groups@.len() == graph@.nodes.len(),
    ensures
        texts(r@) == chain_of(graph@.nodes, groups@, group),
{
    let ghost steps = graph@.nodes;
    let mut names: SortedSet<String> = SortedSet::new();
    let mut i: usize = 0;
    while i < graph.nodes.len()
        invariant
            i <= graph.nodes@.len(),
            names@ == group_names(steps, groups@, group, i as int),
        decreases graph.nodes.len() - i,
    {
        assert(steps[i as int] == graph.nodes@[i as int]@);
        if let Step::Reference { refname } = &graph.nodes[i] {
            if groups[i] == group {
                names.insert(refname.to_text());
            }
        }
        i += 1;
    }
    let n: usize = names.len();
    let mut r: Vec<String> = Vec::new();
    let mut k: usize = 0;
    while k < n
        invariant
            k <= n,
            texts(r@) =~= names.seq().take(k as int),
        decreases n - k,
    {
        let ghost before = r@;
        let name = names.at(k).clone();
        r.push(name);
        assert(texts(r@) =~= texts(before).push(name@));
        k += 1;
    }
    r
}

/// What the step is called.
fn find_label(graph: &StepGraph, groups: &Vec<usize>, ix: StepGraphIndex) -> (r: Label)
    requires
        groups@.len() == graph@.nodes.len(),
        ix < graph@.nodes.len(),
    ensures
        r.model() == label_of(graph@.nodes, groups@, ix as int),
{
    match graph.step(ix) {
        Step::Pick(pick) => Label::Pick(pick.id),
        Step::Reference { .. } => Label::Refs(find_chain(graph, groups, groups[ix])),
        Step::Blank => Label::Blank(blanks_before(graph, ix)),
    }
}

/// How many of the steps before `ix` are ones at which nothing is done.
fn blanks_before(graph: &StepGraph, ix: StepGraphIndex) -> (r: usize)
    requires
        ix < graph@.nodes.len(),
    ensures
        r == blanks(graph@.nodes, ix as int),
{
    let mut n: usize = 0;
    let mut i: usize = 0;
    while i < ix
        invariant
            i <= ix < graph.nodes@.len(),
            n <= i,
            n == blanks(graph@.nodes, i as int),
        decreases ix - i,
    {
        assert(graph@.nodes[i as int] == graph.nodes@[i as int]@);
        if let Step::Blank = &graph.nodes[i] {
            n += 1;
        }
        i += 1;
    }
    n
}

/// What matters about the commits.
#[verifier::loop_isolation(false)]
fn find_picks(graph: &StepGraph) -> (picks: SortedMap<ObjectId, PickInfo>)
    ensures
        picks@.map_values(|i: PickInfo| i@) == pick_infos(
            graph@.nodes,
            graph@.nodes.len() as int,
        ),
{
    let ghost f = |i: PickInfo| i@;
    let mut picks: SortedMap<ObjectId, PickInfo> = SortedMap::new();
    let mut i: usize = 0;
    assert(picks@.map_values(f) =~= pick_infos(graph@.nodes, 0));
    while i < graph.nodes.len()
        invariant
            i <= graph.nodes@.len(),
            picks@.map_values(f) == pick_infos(graph@.nodes, i as int),
        decreases graph.nodes.len() - i,
    {
        assert(graph@.nodes[i as int] == graph.nodes@[i as int]@);
        if let Step::Pick(pick) = &graph.nodes[i] {
            let ghost before = picks@;
            let info = PickInfo {
                flavor: pick.settings.flavor_text(),
                preserved_parents: clone_opt_ids(&pick.preserved_parents),
            };
            picks.insert(pick.id, info);
            assert(picks@.map_values(f) =~= before.map_values(f).insert(pick.id, info@));
        }
        i += 1;
    }
    picks
}

/// The form of the graph.
#[verifier::loop_isolation(false)]
pub fn canonical_form(graph: &StepGraph) -> (r: CanonicalStepGraph)
    requires
        graph@.wf(),
    ensures
        r@ == canonical(graph@),
{
    let ghost steps = graph@.nodes;
    let live = graph.edge_references();
    let slots: usize = graph.edges.len();
    proof {
        lemma_live_edges(graph@, graph@.edges.len() as int);
    }
    let groups = find_groups(graph, &live);
    let picks = find_picks(graph);
    let mut edges: SortedSet<(Label, (Label, usize))> = SortedSet::new();
    let mut k: usize = 0;
    while k < live.len()
        invariant
            k <= live@.len(),
            edges@ == edges_among(steps, groups@, live@, k as int),
        decreases live.len() - k,
    {
        let e = live[k];
        assert(live@[k as int].record.source < steps.len());
        let (src, dst) = (e.record.source, e.record.target);
        let within: bool = is_reference(graph, src) && is_reference(graph, dst) && groups[src]
            == groups[dst];
        if !within {
            let a = find_label(graph, &groups, src);
            let b = find_label(graph, &groups, dst);
            edges.insert((a, (b, e.record.weight.order)));
        }
        k += 1;
    }
    let mut chains: SortedSet<Vec<String>> = SortedSet::new();
    let mut i: usize = 0;
    while i < graph.nodes.len()
        invariant
            i <= graph.nodes@.len(),
            chains@ == chains_among(steps, groups@, i as int),
        decreases graph.nodes.len() - i,
    {
        if is_reference(graph, i) {
            let chain = find_chain(graph, &groups, groups[i]);
            assert(chain.model() =~= texts(chain@));
            chains.insert(chain);
        }
        i += 1;
    }
    let r = CanonicalStepGraph { picks, chains, edges };
    assert(r@.edges =~= canonical(graph@).edges);
    r
}

/// The names of a chain as a set.
pub open spec fn chain_text(names: Seq<Seq<char>>) -> Seq<char> {
    "{"@ + join(names.map_values(|t: Seq<char>| text_debug(t)), ", "@) + "}"@
}

/// The names of a chain as a set.
fn chain_set_text(names: &Vec<String>) -> (r: String)
    ensures
        r@ == chain_text(texts(names@)),
{
    let ghost f = |t: Seq<char>| text_debug(t);
    let mut parts: Vec<String> = Vec::new();
    let mut i: usize = 0;
    while i < names.len()
        invariant
            i <= names@.len(),
            f == (|t: Seq<char>| text_debug(t)),
            texts(parts@) =~= texts(names@).take(i as int).map_values(f),
        decreases names.len() - i,
    {
        let ghost before = parts@;
        parts.push(text_debug_text(names[i].as_str()));
        assert(texts(parts@) =~= texts(before).push(f(names@[i as int]@)));
        i += 1;
    }
    assert(texts(parts@) =~= texts(names@).map_values(f));
    let mut r = "{".to_string();
    r.append(join_text(&parts, ", ").as_str());
    r.append("}");
    r
}

/// What a step is called, in reports.
pub open spec fn label_text(label: LabelView) -> Seq<char> {
    match label {
        LabelView::Pick(id) => "Pick("@ + id_debug(id) + ")"@,
        LabelView::Refs(names) => "Refs("@ + chain_text(names) + ")"@,
        LabelView::Blank(n) => "None("@ + decimal(n as nat) + ")"@,
    }
}

impl Label {
    /// What the step is called, in reports.
    pub fn debug_text(&self) -> (r: String)
        ensures
            r@ == label_text(self.model()),
    {
        let mut r;
        match self {
            Label::Pick(id) => {
                r = "Pick(".to_string();
                r.append(id.debug_text().as_str());
            },
            Label::Refs(names) => {
                r = "Refs(".to_string();
                r.append(chain_set_text(names).as_str());
            },
            Label::Blank(n) => {
                r = "None(".to_string();
                r.append(decimal_text(*n).as_str());
            },
        }
        r.append(")");
        r
    }
}

impl Shown for Vec<String> {
    open spec fn shown(names: Seq<Seq<char>>) -> Seq<char> {
        chain_text(names)
    }

    fn show(&self) -> (r: String) {
        assert(self.model() =~= texts(self@));
        chain_set_text(self)
    }
}

impl Shown for (Label, (Label, usize)) {
    open spec fn shown(e: EdgeView) -> Seq<char> {
        "("@ + label_text(e.0) + ", "@ + label_text(e.1.0) + ", "@ + decimal(e.1.1 as nat) + ")"@
    }

    fn show(&self) -> (r: String) {
        let mut r = "(".to_string();
        r.append(self.0.debug_text().as_str());
        r.append(", ");
        r.append(self.1.0.debug_text().as_str());
        r.append(", ");
        r.append(decimal_text(self.1.1).as_str());
        r.append(")");
        r
    }
}

/// The parents that a commit keeps, in reports.
pub open spec fn opt_ids_text(ids: Option<Seq<ObjectId>>) -> Seq<char> {
    match ids {
        Some(ids) => "Some("@ + ids_debug(ids) + ")"@,
        None => "None"@,
    }
}

/// What matters about a commit, in reports.
pub open spec fn info_text(info: InfoView) -> Seq<char> {
    "PickInfo { flavor: "@ + text_debug(info.flavor) + ", preserved_parents: "@ + opt_ids_text(
        info.preserved_parents,
    ) + " }"@
}

impl PickInfo {
    /// What matters about the commit, in reports.
    pub fn debug_text(&self) -> (r: String)
        ensures
            r@ == info_text(self@),
    {
        let mut r = "PickInfo { flavor: ".to_string();
        r.append(text_debug_text(self.flavor.as_str()).as_str());
        r.append(", preserved_parents: ");
        let kept = match &self.preserved_parents {
            Some(ids) => {
                let mut k = "Some(".to_string();
                k.append(ids_debug_text(ids).as_str());
                k.append(")");
                k
            },
            None => "None".to_string(),
        };
        r.append(kept.as_str());
        r.append(" }");
        r
    }

    /// Whether both say the same.
    pub fn same(&self, other: &PickInfo) -> (r: bool)
        ensures
            r == (self@ == other@),
    {
        self.flavor == other.flavor && same_opt_ids(
            &self.preserved_parents,
            &other.preserved_parents,
        )
    }
}

/// What the first `n` commits of `ids` differ in.
pub open spec fn pick_lines(
    a: Map<ObjectId, InfoView>,
    b: Map<ObjectId, InfoView>,
    ids: Seq<ObjectId>,
    n: int,
) -> Seq<Seq<char>>
    decreases n,
{
    if n <= 0 {
        Seq::empty()
    } else {
        let id = ids[n - 1];
        pick_lines(a, b, ids, n - 1) + if !b.dom().contains(id) {
            line_if(true, "pick "@ + id_hex(id) + " only in SELF"@)
        } else {
            line_if(
                a[id] != b[id],
                "pick "@ + id_hex(id) + ": "@ + info_text(a[id]) + " != "@ + info_text(b[id]),
            )
        }
    }
}

/// Those of the first `n` commits of `ids` that `a` does not have.
pub open spec fn other_pick_lines(a: Map<ObjectId, InfoView>, ids: Seq<ObjectId>, n: int) -> Seq<
    Seq<char>,
>
    decreases n,
{
    if n <= 0 {
        Seq::empty()
    } else {
        other_pick_lines(a, ids, n - 1) + line_if(
            !a.dom().contains(ids[n - 1]),
            "pick "@ + id_hex(ids[n - 1]) + " only in OTHER"@,
        )
    }
}

/// What two forms differ in: commits in the order of their ids, chains, and edges.
pub open spec fn canonical_lines(a: CanonicalView, b: CanonicalView) -> Seq<Seq<char>> {
    let own = ascending::<ObjectId>(a.picks.dom());
    let others = ascending::<ObjectId>(b.picks.dom());
    pick_lines(a.picks, b.picks, own, own.len() as int) + other_pick_lines(
        a.picks,
        others,
        others.len() as int,
    ) + one_sided_lines::<Vec<String>>(
        "chain only in SELF: "@,
        "chain only in OTHER: "@,
        a.chains,
        b.chains,
    ) + one_sided_lines::<(Label, (Label, usize))>(
        "edge only in SELF: "@,
        "edge only in OTHER: "@,
        a.edges,
        b.edges,
    )
}

/// Appends what the commits differ in.
#[verifier::loop_isolation(false)]
fn push_pick_lines(out: &mut Vec<String>, a: &CanonicalStepGraph, b: &CanonicalStepGraph)
    ensures
        ({
            let own = ascending::<ObjectId>(a@.picks.dom());
            &&& texts(final(out)@) == texts(old(out)@) + pick_lines(
                a@.picks,
                b@.picks,
                own,
                own.len() as int,
            )
            &&& own.to_set() == a@.picks.dom()
        }),
{
    let ghost start = texts(out@);
    let n: usize = a.picks.len();
    let ghost own = a.picks.keys();
    assert(a@.picks.dom() =~= a.picks@.dom());
    assert(b@.picks.dom() =~= b.picks@.dom());
    assert(own.to_set() =~= a.picks@.dom());
    let mut i: usize = 0;
    assert(start + pick_lines(a@.picks, b@.picks, own, 0) =~= start);
    while i < n
        invariant
            i <= n,
            texts(out@) == start + pick_lines(a@.picks, b@.picks, own, i as int),
        decreases n - i,
    {
        let id = *a.picks.key_at(i);
        let info = a.picks.value_at(i);
        assert(a.picks@.dom().contains(own[i as int]));
        assert(a@.picks[id] == info@);
        let ghost so_far = pick_lines(a@.picks, b@.picks, own, i as int);
        match b.picks.get(&id) {
            None => {
                let mut l = "pick ".to_string();
                l.append(id.to_hex().as_str());
                l.append(" only in SELF");
                push_line(out, l);
                proof {
                    lemma_add_assoc(start, so_far, line_if(true, l@));
                }
            },
            Some(o) => {
                assert(b@.picks[id] == o@);
                let ghost line = "pick "@ + id_hex(id) + ": "@ + info_text(info@) + " != "@
                    + info_text(o@);
                if !o.same(info) {
                    let mut l = "pick ".to_string();
                    l.append(id.to_hex().as_str());
                    l.append(": ");
                    l.append(info.debug_text().as_str());
                    l.append(" != ");
                    l.append(o.debug_text().as_str());
                    push_line(out, l);
                } else {
                    proof {
                        lemma_no_line(texts(out@), line);
                    }
                }
                proof {
                    lemma_add_assoc(start, so_far, line_if(info@ != o@, line));
                }
            },
        }
        i += 1;
    }
}

/// Appends the commits of `b` that `a` does not have.
#[verifier::loop_isolation(false)]
fn push_other_pick_lines(out: &mut Vec<String>, a: &CanonicalStepGraph, b: &CanonicalStepGraph)
    ensures
        ({
            let others = ascending::<ObjectId>(b@.picks.dom());
            &&& texts(final(out)@) == texts(old(out)@) + other_pick_lines(
                a@.picks,
                others,
                others.len() as int,
            )
            &&& others.to_set() == b@.picks.dom()
        }),
{
    let ghost start = texts(out@);
    let n: usize = b.picks.len();
    let ghost others = b.picks.keys();
    assert(a@.picks.dom() =~= a.picks@.dom());
    assert(b@.picks.dom() =~= b.picks@.dom());
    assert(others.to_set() =~= b.picks@.dom());
    let mut i: usize = 0;
    assert(start + other_pick_lines(a@.picks, others, 0) =~= start);
    while i < n
        invariant
            i <= n,
            texts(out@) == start + other_pick_lines(a@.picks, others, i as int),
        decreases n - i,
    {
        let id = *b.picks.key_at(i);
        let ghost so_far = other_pick_lines(a@.picks, others, i as int);
        let ghost line = "pick "@ + id_hex(id) + " only in OTHER"@;
        if !a.picks.contains_key(&id) {
            let mut l = "pick ".to_string();
            l.append(id.to_hex().as_str());
            l.append(" only in OTHER");
            push_line(out, l);
        } else {
            proof {
                lemma_no_line(texts(out@), line);
            }
        }
        proof {
            lemma_add_assoc(start, so_far, line_if(!a@.picks.dom().contains(id), line));
        }
        i += 1;
    }
}

proof fn lemma_no_pick_lines(
    a: Map<ObjectId, InfoView>,
    b: Map<ObjectId, InfoView>,
    ids: Seq<ObjectId>,
    n: int,
)
    requires
        0 <= n <= ids.len(),
    ensures
        pick_lines(a, b, ids, n).len() == 0 <==> forall|i: int|
            0 <= i < n ==> b.dom().contains(#[trigger] ids[i]) && a[ids[i]] == b[ids[i]],
    decreases n,
{
    if n > 0 {
        lemma_no_pick_lines(a, b, ids, n - 1);
        let id = ids[n - 1];
        if pick_lines(a, b, ids, n).len() == 0 {
            assert(pick_lines(a, b, ids, n - 1).len() == 0);
        } else if pick_lines(a, b, ids, n - 1).len() != 0 {
            let i = choose|i: int|
                0 <= i < n - 1 && !(b.dom().contains(#[trigger] ids[i]) && a[ids[i]]
                    == b[ids[i]]);
            assert(0 <= i < n);
        } else {
            assert(!(b.dom().contains(ids[n - 1]) && a[ids[n - 1]] == b[ids[n - 1]]));
        }
    }
}

proof fn lemma_no_other_pick_lines(a: Map<ObjectId, InfoView>, ids: Seq<ObjectId>, n: int)
    requires
        0 <= n <= ids.len(),
    ensures
        other_pick_lines(a, ids, n).len() == 0 <==> forall|i: int|
            0 <= i < n ==> a.dom().contains(#[trigger] ids[i]),
    decreases n,
{
    if n > 0 {
        lemma_no_other_pick_lines(a, ids, n - 1);
        if other_pick_lines(a, ids, n).len() != 0 && other_pick_lines(a, ids, n - 1).len() != 0 {
            let i = choose|i: int| 0 <= i < n - 1 && !a.dom().contains(#[trigger] ids[i]);
            assert(0 <= i < n);
        }
    }
}

impl CanonicalStepGraph {
    /// What this form and `other` differ in, one line for each difference; there is none exactly
    /// if both are the same.
    pub fn diff_against(&self, other: &CanonicalStepGraph) -> (out: Vec<String>)
        ensures
            texts(out@) == canonical_lines(self@, other@),
            out@.len() == 0 <==> self@ == other@,
    {
        let mut out: Vec<String> = Vec::new();
        let ghost start = texts(out@);
        assert(start =~= Seq::empty());
        let ghost own = ascending::<ObjectId>(self@.picks.dom());
        let ghost others = ascending::<ObjectId>(other@.picks.dom());
        let ghost s1 = pick_lines(self@.picks, other@.picks, own, own.len() as int);
        let ghost s2 = other_pick_lines(self@.picks, others, others.len() as int);
        push_pick_lines(&mut out, self, other);
        assert(texts(out@) =~= s1);
        push_other_pick_lines(&mut out, self, other);
        push_one_sided(
            &mut out,
            "chain only in SELF: ",
            "chain only in OTHER: ",
            &self.chains,
            &other.chains,
        );
        push_one_sided(
            &mut out,
            "edge only in SELF: ",
            "edge only in OTHER: ",
            &self.edges,
            &other.edges,
        );
        proof {
            assert(texts(out@).len() == out@.len());
            let (a, b) = (self@.picks, other@.picks);
            lemma_no_pick_lines(a, b, own, own.len() as int);
            lemma_no_other_pick_lines(a, others, others.len() as int);
            if s1.len() == 0 && s2.len() == 0 {
                assert forall|id: ObjectId| a.dom().contains(id) <==> b.dom().contains(id) by {
                    if a.dom().contains(id) {
                        assert(own.to_set().contains(id));
                        let i = choose|i: int| 0 <= i < own.len() && own[i] == id;
                        assert(b.dom().contains(own[i]));
                    }
                    if b.dom().contains(id) {
                        assert(others.to_set().contains(id));
                        let i = choose|i: int| 0 <= i < others.len() && others[i] == id;
                        assert(a.dom().contains(others[i]));
                    }
                }
                assert forall|id: ObjectId| a.dom().contains(id) implies a[id] == b[id] by {
                    assert(own.to_set().contains(id));
                    let i = choose|i: int| 0 <= i < own.len() && own[i] == id;
                    assert(a[own[i]] == b[own[i]]);
                }
                assert(a =~= b);
            }
            if a == b {
                assert forall|i: int| 0 <= i < own.len() implies b.dom().contains(
                    #[trigger] own[i],
                ) && a[own[i]] == b[own[i]] by {
                    assert(own.to_set().contains(own[i]));
                }
                assert forall|i: int| 0 <= i < others.len() implies a.dom().contains(
                    #[trigger] others[i],
                ) by {
                    assert(others.to_set().contains(others[i]));
                }
            }
        }
        out
    }
}

} // verus!
