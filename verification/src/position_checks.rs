//! What has to hold of all positions of a graph, and where it does not.

use crate::editor_graph::{
    live_refs, EditorGraph, EditorGraphIndex, EditorLeg, EditorView, RefPosition, WALK_LIMIT,
};
use crate::lanes::{clone_list, lanes_view, legs_contain, same_legs, LaneRec, LaneView};
use crate::order::ascending;
use crate::positions::{legs_onto, ref_approach, ref_depth, resolve_to_pick};
use vstd::prelude::*;

verus! {

/// A lane names a leg that is not there.
pub struct StaleStatement {
    /// The node that the lane is above.
    pub key: EditorGraphIndex,
    /// The leg.
    pub leg: EditorLeg,
    /// The references in the lane.
    pub members: Vec<EditorGraphIndex>,
}

/// What a [`StaleStatement`] stands for.
#[verifier::ext_equal]
pub struct StaleView {
    /// The node that the lane is above.
    pub key: EditorGraphIndex,
    /// The leg.
    pub leg: EditorLeg,
    /// The references in the lane.
    pub members: Seq<EditorGraphIndex>,
}

impl View for StaleStatement {
    type V = StaleView;

    open spec fn view(&self) -> StaleView {
        StaleView { key: self.key, leg: self.leg, members: self.members@ }
    }
}

/// What the statements stand for.
pub open spec fn stale_view(list: Seq<StaleStatement>) -> Seq<StaleView> {
    list.map_values(|s: StaleStatement| s@)
}

/// How many nodes have parents, and which lanes name legs that are not there.
pub struct Census {
    /// How many nodes have parents.
    pub checked: usize,
    /// The lanes and the legs.
    pub stale: Vec<StaleStatement>,
}

/// What is wrong with the stack underneath a reference.
#[derive(Debug, Clone, Copy, PartialEq, Eq, Structural)]
pub enum BelowFault {
    /// What is underneath is not a reference that sits somewhere.
    NotPositioned {
        /// The reference.
        node: EditorGraphIndex,
        /// What is underneath.
        below: EditorGraphIndex,
    },
    /// What is underneath sits on another commit.
    OtherPick {
        /// The reference.
        node: EditorGraphIndex,
        /// What is underneath.
        below: EditorGraphIndex,
    },
    /// The stack goes around.
    Cycle {
        /// The reference.
        node: EditorGraphIndex,
    },
}

/// What holds of the positions of a graph, and what does not.
pub struct PositionReport {
    /// The lanes that name legs that are not there.
    pub census: Census,
    /// The first stack that is wrong.
    pub below_fault: Option<BelowFault>,
    /// The first reference that is where another one is, behind that other one.
    pub collision: Option<(EditorGraphIndex, EditorGraphIndex)>,
}

/// The legs among the first `n` that are not live.
pub open spec fn stale_legs(
    key: EditorGraphIndex,
    lane: LaneView<EditorGraphIndex>,
    live: Seq<EditorLeg>,
    n: int,
) -> Seq<StaleView>
    decreases n,
{
    if n <= 0 {
        Seq::empty()
    } else {
        let before = stale_legs(key, lane, live, n - 1);
        if live.contains(lane.legs[n - 1]) {
            before
        } else {
            before.push(StaleView { key, leg: lane.legs[n - 1], members: lane.members })
        }
    }
}

/// The legs of the first `n` lanes that are not live.
pub open spec fn stale_lanes(
    key: EditorGraphIndex,
    lanes: Seq<LaneView<EditorGraphIndex>>,
    live: Seq<EditorLeg>,
    n: int,
) -> Seq<StaleView>
    decreases n,
{
    if n <= 0 {
        Seq::empty()
    } else {
        stale_lanes(key, lanes, live, n - 1) + stale_legs(
            key,
            lanes[n - 1],
            live,
            lanes[n - 1].legs.len() as int,
        )
    }
}

impl EditorView {
    /// The legs that lanes above the first `n` of `keys` name and that are not there.
    pub open spec fn stale(self, keys: Seq<EditorGraphIndex>, n: int) -> Seq<StaleView>
        decreases n,
    {
        if n <= 0 {
            Seq::empty()
        } else {
            let key = keys[n - 1];
            self.stale(keys, n - 1) + stale_lanes(
                key,
                self.lanes[key],
                self.legs_onto(key),
                self.lanes[key].len() as int,
            )
        }
    }

    /// How many of the first `n` nodes have parents.
    pub open spec fn nodes_with_parents(self, n: int) -> nat
        decreases n,
    {
        if n <= 0 {
            0
        } else {
            self.nodes_with_parents(n - 1) + if self.nodes[n - 1].parents.len() > 0 {
                1nat
            } else {
                0nat
            }
        }
    }

    /// What is wrong with the stack from `cursor` down, which the reference `node` on the commit
    /// `pick` has underneath after `depth` other references.
    pub open spec fn below_fault_from(
        self,
        node: EditorGraphIndex,
        pick: Option<EditorGraphIndex>,
        cursor: Option<EditorGraphIndex>,
        depth: nat,
    ) -> Option<BelowFault>
        decreases WALK_LIMIT + 1 - depth,
    {
        match cursor {
            None => None,
            Some(b) => match self.position(b) {
                None => Some(BelowFault::NotPositioned { node, below: b }),
                Some(mate) => if self.resolve(mate.on) != pick {
                    Some(BelowFault::OtherPick { node, below: b })
                } else if depth + 1 > WALK_LIMIT {
                    Some(BelowFault::Cycle { node })
                } else {
                    self.below_fault_from(node, pick, mate.below, depth + 1)
                },
            },
        }
    }

    /// What is wrong with the stack underneath the reference; nothing is asked of one that was
    /// removed.
    pub open spec fn below_fault(self, m: (EditorGraphIndex, RefPosition)) -> Option<BelowFault> {
        if self.is_reference(m.0) {
            self.below_fault_from(m.0, self.resolve(m.1.on), m.1.below, 0)
        } else {
            None
        }
    }

    /// The first of the first `n` stacks that is wrong.
    pub open spec fn first_below_fault(
        self,
        list: Seq<(EditorGraphIndex, RefPosition)>,
        n: int,
    ) -> Option<BelowFault>
        decreases n,
    {
        if n <= 0 {
            None
        } else {
            match self.first_below_fault(list, n - 1) {
                Some(fault) => Some(fault),
                None => self.below_fault(list[n - 1]),
            }
        }
    }

    /// Whether the order of the references where this one sits means something: something descends
    /// into it.
    pub open spec fn ordered_here(self, node: EditorGraphIndex) -> bool {
        self.position(node) is Some && self.approach(node).len() > 0
    }

    /// Whether both references are at the same place: on one commit, with one approach, at one
    /// depth.
    pub open spec fn collide(self, a: EditorGraphIndex, b: EditorGraphIndex) -> bool {
        &&& self.ordered_here(a)
        &&& self.ordered_here(b)
        &&& self.seat(a) == self.seat(b)
        &&& self.approach(a) == self.approach(b)
        &&& self.depth(a) == self.depth(b)
    }

    /// The first `n` of `list` are at different places.
    pub open spec fn apart(self, list: Seq<EditorGraphIndex>, n: int) -> bool {
        forall|i: int, j: int|
            0 <= i < j < n ==> !self.collide(#[trigger] list[i], #[trigger] list[j])
    }
}

/// Appends the legs of the lane that are not live.
#[verifier::loop_isolation(false)]
fn push_stale_legs(
    out: &mut Vec<StaleStatement>,
    key: EditorGraphIndex,
    lane: &LaneRec<EditorGraphIndex>,
    live: &Vec<EditorLeg>,
)
    ensures
        stale_view(final(out)@) == stale_view(old(out)@) + stale_legs(
            key,
            lane@,
            live@,
            lane@.legs.len() as int,
        ),
{
    let ghost start = stale_view(out@);
    let mut i: usize = 0;
    assert(start + stale_legs(key, lane@, live@, 0) =~= start);
    while i < lane.legs.len()
        invariant
            i <= lane.legs@.len(),
            stale_view(out@) == start + stale_legs(key, lane@, live@, i as int),
        decreases lane.legs.len() - i,
    {
        if !legs_contain(live, &lane.legs[i]) {
            let ghost before = out@;
            let ghost so_far = stale_legs(key, lane@, live@, i as int);
            let s = StaleStatement {
                key,
                leg: lane.legs[i],
                members: clone_list(&lane.members),
            };
            out.push(s);
            assert(stale_view(out@) =~= stale_view(before).push(s@));
            assert(stale_view(out@) =~= start + so_far.push(s@));
        }
        i += 1;
    }
}

/// The lanes that name legs that are not there, and how many nodes have parents.
#[verifier::loop_isolation(false)]
pub fn census_stale_statements(graph: &EditorGraph) -> (r: Census)
    ensures
        r.checked == graph@.nodes_with_parents(graph@.nodes.len() as int),
        stale_view(r.stale@) == graph@.stale(
            ascending::<EditorGraphIndex>(graph@.lanes.dom()),
            ascending::<EditorGraphIndex>(graph@.lanes.dom()).len() as int,
        ),
{
    let mut checked: usize = 0;
    let mut i: usize = 0;
    while i < graph.nodes.len()
        invariant
            i <= graph.nodes@.len(),
            checked <= i,
            checked == graph@.nodes_with_parents(i as int),
        decreases graph.nodes.len() - i,
    {
        assert(graph@.nodes[i as int] == graph.nodes@[i as int]@);
        if graph.nodes[i].parents.len() > 0 {
            checked += 1;
        }
        i += 1;
    }
    let mut stale: Vec<StaleStatement> = Vec::new();
    let n: usize = graph.lanes.table.len();
    let ghost keys = graph.lanes.table.keys();
    assert(graph@.lanes.dom() =~= graph.lanes.table@.dom());
    let mut k: usize = 0;
    assert(stale_view(stale@) =~= graph@.stale(keys, 0));
    while k < n
        invariant
            k <= n,
            stale_view(stale@) == graph@.stale(keys, k as int),
        decreases n - k,
    {
        let key = *graph.lanes.table.key_at(k);
        let lanes = graph.lanes.table.value_at(k);
        assert(graph.lanes.table@.dom().contains(keys[k as int]));
        assert(graph@.lanes[key] == lanes_view(lanes@));
        let live = legs_onto(graph, key);
        let ghost start = stale_view(stale@);
        let ghost views = lanes_view(lanes@);
        let mut l: usize = 0;
        assert(start + stale_lanes(key, views, live@, 0) =~= start);
        while l < lanes.len()
            invariant
                l <= lanes@.len(),
                stale_view(stale@) == start + stale_lanes(key, views, live@, l as int),
            decreases lanes.len() - l,
        {
            assert(views[l as int] == lanes@[l as int]@);
            let ghost so_far = stale_lanes(key, views, live@, l as int);
            let ghost own = stale_legs(
                key,
                views[l as int],
                live@,
                views[l as int].legs.len() as int,
            );
            push_stale_legs(&mut stale, key, &lanes[l], &live);
            assert(start + so_far + own =~= start + (so_far + own));
            l += 1;
        }
        k += 1;
    }
    Census { checked, stale }
}

/// What is wrong with the stack underneath the reference.
fn stack_fault(graph: &EditorGraph, node: EditorGraphIndex, stored: RefPosition) -> (r: Option<
    BelowFault,
>)
    ensures
        r == graph@.below_fault_from(node, graph@.resolve(stored.on), stored.below, 0),
{
    let pick = resolve_to_pick(graph, stored.on);
    let mut depth: usize = 0;
    let mut cursor: Option<EditorGraphIndex> = stored.below;
    loop
        invariant
            depth <= WALK_LIMIT,
            pick == graph@.resolve(stored.on),
            graph@.below_fault_from(node, pick, stored.below, 0) == graph@.below_fault_from(
                node,
                pick,
                cursor,
                depth as nat,
            ),
        decreases WALK_LIMIT - depth,
    {
        let b = match cursor {
            None => return None,
            Some(b) => b,
        };
        let mate = match graph.position_of(b) {
            None => return Some(BelowFault::NotPositioned { node, below: b }),
            Some(mate) => mate,
        };
        if resolve_to_pick(graph, mate.on) != pick {
            return Some(BelowFault::OtherPick { node, below: b });
        }
        depth += 1;
        if depth > WALK_LIMIT {
            return Some(BelowFault::Cycle { node });
        }
        cursor = mate.below;
    }
}

/// The first reference whose stack is wrong: what is underneath a reference that was not removed
/// has to be a reference that sits on the same commit, and the stack has to end.
#[verifier::loop_isolation(false)]
pub fn debug_assert_below_wellformed(graph: &EditorGraph) -> (r: Option<BelowFault>)
    ensures
        r == graph@.first_below_fault(graph@.placed(), graph@.placed().len() as int),
{
    let list = graph.positioned_refs();
    let ghost view = graph@;
    let mut i: usize = 0;
    while i < list.len()
        invariant
            i <= list@.len(),
            view.first_below_fault(list@, i as int) is None,
        decreases list.len() - i,
    {
        let (node, stored) = list[i];
        if graph.is_reference(node) {
            if let Some(fault) = stack_fault(graph, node, stored) {
                proof {
                    lemma_fault_stays(view, list@, i + 1, list@.len() as int);
                }
                return Some(fault);
            }
        }
        i += 1;
    }
    None
}

proof fn lemma_fault_stays(
    view: EditorView,
    list: Seq<(EditorGraphIndex, RefPosition)>,
    n: int,
    m: int,
)
    requires
        n <= m,
        view.first_below_fault(list, n) is Some,
    ensures
        view.first_below_fault(list, m) == view.first_below_fault(list, n),
    decreases m - n,
{
    if n < m {
        lemma_fault_stays(view, list, n, m - 1);
    }
}

/// Whether both references are at the same place.
fn refs_collide(graph: &EditorGraph, a: EditorGraphIndex, b: EditorGraphIndex) -> (r: bool)
    ensures
        r == graph@.collide(a, b),
{
    match (graph.position_of(a), graph.position_of(b)) {
        (Some(sa), Some(sb)) => {
            let (va, vb) = (ref_approach(graph, a), ref_approach(graph, b));
            va.len() > 0 && vb.len() > 0 && resolve_to_pick(graph, sa.on) == resolve_to_pick(
                graph,
                sb.on,
            ) && same_legs(&va, &vb) && ref_depth(graph, a) == ref_depth(graph, b)
        },
        _ => false,
    }
}

/// The first reference that is where another one is, behind that other one.
#[verifier::loop_isolation(false)]
fn first_collision(graph: &EditorGraph) -> (r: Option<(EditorGraphIndex, EditorGraphIndex)>)
    ensures
        ({
            let live = live_refs(graph@.refs, graph@.refs.len() as int);
            match r {
                None => graph@.apart(live, live.len() as int),
                Some((previous, node)) => exists|i: int, j: int|
                    {
                        &&& 0 <= i < j < live.len()
                        &&& previous == #[trigger] live[i]
                        &&& node == #[trigger] live[j]
                        &&& graph@.collide(previous, node)
                        &&& graph@.apart(live, j)
                    },
            }
        }),
{
    let live = graph.references();
    let mut j: usize = 0;
    while j < live.len()
        invariant
            j <= live@.len(),
            graph@.apart(live@, j as int),
        decreases live.len() - j,
    {
        let mut i: usize = 0;
        while i < j
            invariant
                i <= j,
                forall|k: int| 0 <= k < i ==> !graph@.collide(#[trigger] live@[k], live@[j as int]),
            decreases j - i,
        {
            if refs_collide(graph, live[i], live[j]) {
                assert(live@[i as int] == live@[i as int] && live@[j as int] == live@[j as int]);
                return Some((live[i], live[j]));
            }
            i += 1;
        }
        j += 1;
    }
    None
}

/// What holds of the positions of the graph: lanes name legs that are there, stacks end on the
/// commit of each of their references, and no two references are at one place, as far as something
/// descends into it.
pub fn debug_assert_positions_total(graph: &EditorGraph) -> (r: PositionReport)
    ensures
        r.census.checked == graph@.nodes_with_parents(graph@.nodes.len() as int),
        stale_view(r.census.stale@) == graph@.stale(
            ascending::<EditorGraphIndex>(graph@.lanes.dom()),
            ascending::<EditorGraphIndex>(graph@.lanes.dom()).len() as int,
        ),
        r.below_fault == graph@.first_below_fault(graph@.placed(), graph@.placed().len() as int),
        ({
            let live = live_refs(graph@.refs, graph@.refs.len() as int);
            match r.collision {
                None => graph@.apart(live, live.len() as int),
                Some((previous, node)) => exists|i: int, j: int|
                    {
                        &&& 0 <= i < j < live.len()
                        &&& previous == #[trigger] live[i]
                        &&& node == #[trigger] live[j]
                        &&& graph@.collide(previous, node)
                        &&& graph@.apart(live, j)
                    },
            }
        }),
{
    PositionReport {
        census: census_stale_statements(graph),
        below_fault: debug_assert_below_wellformed(graph),
        collision: first_collision(graph),
    }
}

} // verus!
