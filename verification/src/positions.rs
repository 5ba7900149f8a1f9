//! Where each reference sits, read off the stored positions and the live legs.
//!
//! A leg is one edge into a commit, named by the commit that it comes from and by which of that
//! commit's parents it is. The approach of a reference are the legs that descend into its position.
//! A chain are the references on one commit that share their approach, stacked on each other.

use crate::collections::SortedSet;
use crate::editor_graph::{
    EditorGraph, EditorGraphIndex, EditorLeg, EditorView, RefPosition, WALK_LIMIT,
};
use crate::lanes::{lane_of, legs_contain, LaneCarry};
use crate::names::ObjectId;
use crate::reach::{reachable, steps_of, visit_all, Successors};
use crate::seqs::{lemma_filter_contains, lemma_filter_none, lemma_filter_take, lemma_take_all};
use vstd::prelude::*;

verus! {

/// The commit that `node` stands for: a commit stands for itself, a reference for what it points
/// at, and what is left of a commit for its first parent.
pub fn resolve_to_pick(graph: &EditorGraph, node: EditorGraphIndex) -> (r: Option<EditorGraphIndex>)
    ensures
        r == graph@.resolve(node),
{
    let mut cursor: EditorGraphIndex = node;
    let mut left: usize = WALK_LIMIT;
    while left > 0
        invariant
            graph@.resolve(node) == graph@.resolve_in(cursor, left as nat),
        decreases left,
    {
        if graph.is_pick(cursor) {
            return Some(cursor);
        }
        cursor = match graph.position_of(cursor) {
            Some(stored) => stored.on,
            None => match graph.parent_at(cursor, 0) {
                Some(parent) => parent,
                None => return None,
            },
        };
        left -= 1;
    }
    None
}

/// The legs into `pick` that come from commits, ascending.
#[verifier::loop_isolation(false)]
pub fn legs_into_pick(graph: &EditorGraph, pick: EditorGraphIndex) -> (r: Vec<EditorLeg>)
    ensures
        r@ == graph@.legs_into(pick),
{
    let incoming = graph.incoming_legs(pick);
    let ghost keep = |l: EditorLeg| graph@.is_pick(l.0);
    let mut r: Vec<EditorLeg> = Vec::new();
    let mut i: usize = 0;
    proof {
        lemma_filter_none(incoming@, keep);
    }
    while i < incoming.len()
        invariant
            i <= incoming@.len(),
            r@ == incoming@.take(i as int).filter(keep),
        decreases incoming.len() - i,
    {
        proof {
            lemma_filter_take(incoming@, keep, i as int);
        }
        let leg = incoming[i];
        if graph.is_pick(leg.0) {
            r.push(leg);
        }
        i += 1;
    }
    proof {
        lemma_take_all(incoming@);
    }
    r
}

/// The legs into the commit that `on` stands for.
pub fn legs_onto(graph: &EditorGraph, on: EditorGraphIndex) -> (r: Vec<EditorLeg>)
    ensures
        r@ == graph@.legs_onto(on),
{
    match resolve_to_pick(graph, on) {
        Some(pick) => legs_into_pick(graph, pick),
        None => Vec::new(),
    }
}

impl EditorView {
    /// How many references are underneath, counted on from `depth` at `cursor`. The count stops
    /// when it goes over the limit.
    pub open spec fn depth_from(self, cursor: Option<EditorGraphIndex>, depth: nat) -> nat
        decreases WALK_LIMIT + 1 - depth,
    {
        match cursor {
            None => depth,
            Some(b) => if depth + 1 > WALK_LIMIT {
                depth + 1
            } else {
                self.depth_from(self.below(b), depth + 1)
            },
        }
    }

    /// How many references are underneath the reference.
    pub open spec fn depth(self, node: EditorGraphIndex) -> nat {
        self.depth_from(self.below(node), 0)
    }

    /// The legs that descend into the position of the reference.
    pub open spec fn approach(self, node: EditorGraphIndex) -> Seq<EditorLeg> {
        match self.position(node) {
            None => Seq::empty(),
            Some(stored) => match lane_of(self.lanes, stored.on, node) {
                None => Seq::empty(),
                Some(lane) => match lane.carry {
                    LaneCarry::Nothing => Seq::empty(),
                    LaneCarry::All => self.legs_onto(stored.on),
                    LaneCarry::Count(_) => self.legs_onto(stored.on).filter(
                        |l: EditorLeg| lane.legs.contains(l),
                    ),
                },
            },
        }
    }

    /// The commit that the reference sits on.
    pub open spec fn seat(self, node: EditorGraphIndex) -> Option<EditorGraphIndex> {
        match self.position(node) {
            Some(stored) => self.resolve(stored.on),
            None => None,
        }
    }

    /// The references that share the commit and the approach of `node`, with where they sit.
    pub open spec fn chain(self, node: EditorGraphIndex) -> Seq<(EditorGraphIndex, RefPosition)> {
        match self.position(node) {
            None => Seq::empty(),
            Some(stored) => self.placed().filter(
                |m: (EditorGraphIndex, RefPosition)|
                    self.approach(m.0) == self.approach(node) && self.resolve(m.1.on)
                        == self.resolve(stored.on),
            ),
        }
    }
}

/// How many references are underneath the reference: its rank among those on its commit.
pub fn ref_depth(graph: &EditorGraph, node: EditorGraphIndex) -> (r: usize)
    ensures
        r == graph@.depth(node),
        r <= WALK_LIMIT + 1,
{
    let mut depth: usize = 0;
    let mut cursor: Option<EditorGraphIndex> = match graph.position_of(node) {
        Some(stored) => stored.below,
        None => None,
    };
    loop
        invariant
            depth <= WALK_LIMIT,
            graph@.depth(node) == graph@.depth_from(cursor, depth as nat),
        decreases WALK_LIMIT - depth,
    {
        match cursor {
            None => {
                return depth;
            },
            Some(b) => {
                depth += 1;
                if depth > WALK_LIMIT {
                    return depth;
                }
                cursor = match graph.position_of(b) {
                    Some(stored) => stored.below,
                    None => None,
                };
            },
        }
    }
}

/// The legs that descend into the position of the reference: those that its lane carries, as far as
/// they are there.
#[verifier::loop_isolation(false)]
pub fn ref_approach(graph: &EditorGraph, node: EditorGraphIndex) -> (r: Vec<EditorLeg>)
    ensures
        r@ == graph@.approach(node),
{
    let stored = match graph.position_of(node) {
        Some(stored) => stored,
        None => return Vec::new(),
    };
    let lane = match graph.lanes.find(stored.on, node) {
        Some(lane) => lane,
        None => return Vec::new(),
    };
    match lane.carry {
        LaneCarry::Nothing => Vec::new(),
        LaneCarry::All => legs_onto(graph, stored.on),
        LaneCarry::Count(_) => {
            let legs = legs_onto(graph, stored.on);
            let ghost keep = |l: EditorLeg| lane@.legs.contains(l);
            let mut r: Vec<EditorLeg> = Vec::new();
            let mut i: usize = 0;
            proof {
                lemma_filter_none(legs@, keep);
            }
            while i < legs.len()
                invariant
                    i <= legs@.len(),
                    r@ == legs@.take(i as int).filter(keep),
                decreases legs.len() - i,
            {
                proof {
                    lemma_filter_take(legs@, keep, i as int);
                }
                if legs_contain(&lane.legs, &legs[i]) {
                    r.push(legs[i]);
                }
                i += 1;
            }
            proof {
                lemma_take_all(legs@);
            }
            r
        },
    }
}

/// The references of the list that the test accepts.
pub fn kept_refs<F: Fn(&(EditorGraphIndex, RefPosition)) -> bool>(
    list: Vec<(EditorGraphIndex, RefPosition)>,
    test: F,
    Ghost(keep): Ghost<spec_fn((EditorGraphIndex, RefPosition)) -> bool>,
) -> (r: Vec<(EditorGraphIndex, RefPosition)>)
    requires
        forall|m: &(EditorGraphIndex, RefPosition)| #[trigger] test.requires((m,)),
        forall|m: &(EditorGraphIndex, RefPosition), b: bool| #[trigger]
            test.ensures((m,), b) ==> b == keep(*m),
    ensures
        r@ == list@.filter(keep),
{
    let mut r: Vec<(EditorGraphIndex, RefPosition)> = Vec::new();
    let mut i: usize = 0;
    proof {
        lemma_filter_none(list@, keep);
    }
    while i < list.len()
        invariant
            i <= list@.len(),
            forall|m: &(EditorGraphIndex, RefPosition)| #[trigger] test.requires((m,)),
            forall|m: &(EditorGraphIndex, RefPosition), b: bool| #[trigger]
                test.ensures((m,), b) ==> b == keep(*m),
            r@ == list@.take(i as int).filter(keep),
        decreases list.len() - i,
    {
        proof {
            lemma_filter_take(list@, keep, i as int);
        }
        let m = &list[i];
        if test(m) {
            r.push(*m);
        }
        i += 1;
    }
    proof {
        lemma_take_all(list@);
    }
    r
}

/// The references that share the commit and the approach of `node`, with where they sit.
pub fn chain_members(graph: &EditorGraph, node: EditorGraphIndex) -> (r: Vec<
    (EditorGraphIndex, RefPosition),
>)
    ensures
        r@ == graph@.chain(node),
{
    let stored = match graph.position_of(node) {
        Some(stored) => stored,
        None => return Vec::new(),
    };
    let pick = resolve_to_pick(graph, stored.on);
    let approach = ref_approach(graph, node);
    let ghost keep = |m: (EditorGraphIndex, RefPosition)|
        graph@.approach(m.0) == graph@.approach(node) && graph@.resolve(m.1.on) == graph@.resolve(
            stored.on,
        );
    let test = |m: &(EditorGraphIndex, RefPosition)| -> (r: bool)
        ensures
            r == keep(*m),
        {
            let own = ref_approach(graph, m.0);
            crate::lanes::same_legs(&own, &approach) && resolve_to_pick(graph, m.1.on) == pick
        };
    kept_refs(graph.positioned_refs(), test, Ghost(keep))
}

/// The references whose commit is `pick`, ascending.
pub fn refs_resolving_to(graph: &EditorGraph, pick: EditorGraphIndex) -> (r: Vec<EditorGraphIndex>)
    ensures
        r@ == graph@.placed().filter(
            |m: (EditorGraphIndex, RefPosition)| graph@.resolve(m.1.on) == Some(pick),
        ).map_values(|m: (EditorGraphIndex, RefPosition)| m.0),
{
    let ghost keep = |m: (EditorGraphIndex, RefPosition)| graph@.resolve(m.1.on) == Some(pick);
    let test = |m: &(EditorGraphIndex, RefPosition)| -> (r: bool)
        ensures
            r == keep(*m),
        { resolve_to_pick(graph, m.1.on) == Some(pick) };
    let kept = kept_refs(graph.positioned_refs(), test, Ghost(keep));
    ref_nodes(&kept)
}

/// The references of the list.
pub fn ref_nodes(list: &Vec<(EditorGraphIndex, RefPosition)>) -> (r: Vec<EditorGraphIndex>)
    ensures
        r@ == list@.map_values(|m: (EditorGraphIndex, RefPosition)| m.0),
{
    let mut r: Vec<EditorGraphIndex> = Vec::new();
    let mut i: usize = 0;
    while i < list.len()
        invariant
            i <= list@.len(),
            r@ =~= list@.take(i as int).map_values(|m: (EditorGraphIndex, RefPosition)| m.0),
        decreases list.len() - i,
    {
        r.push(list[i].0);
        i += 1;
    }
    proof {
        lemma_take_all(list@);
    }
    r
}

impl EditorView {
    /// Whether the commit that `on` stands for is among `picks`, itself or by its id.
    pub open spec fn reached(self, picks: Set<EditorGraphIndex>, on: EditorGraphIndex) -> bool {
        self.resolve(on) matches Some(pick) && (picks.contains(pick) || (self.commit_id(
            pick,
        ) matches Some(id) && exists|other: EditorGraphIndex| #[trigger]
            picks.contains(other) && self.commit_id(other) == Some(id)))
    }
}

/// What is directly underneath the reference, as a list.
pub open spec fn rests_on_list(view: EditorView) -> spec_fn(EditorGraphIndex) -> Seq<
    EditorGraphIndex,
> {
    |ix: EditorGraphIndex|
        match view.below(ix) {
            Some(b) => seq![b],
            None => Seq::empty(),
        }
}

impl EditorView {
    /// Whether going down the stack from `start` leads to `ix`; it is there from the beginning.
    pub open spec fn leads_down_to(self, start: EditorGraphIndex, ix: EditorGraphIndex) -> bool {
        reachable(rests_on_list(self), seq![start], ix)
    }

    /// Whether `ix` is `start`, or one of its chain underneath it.
    pub open spec fn in_chain_below(self, start: EditorGraphIndex, ix: EditorGraphIndex) -> bool {
        ix == start || Self::listed(self.chain(start), ix) && self.leads_down_to(start, ix)
    }

    /// Whether the references on the commit that a reference points at are reached, or it is
    /// `start` or one of its chain underneath it.
    pub open spec fn is_walked(
        self,
        start: EditorGraphIndex,
        picks: Set<EditorGraphIndex>,
    ) -> spec_fn((EditorGraphIndex, RefPosition)) -> bool {
        |m: (EditorGraphIndex, RefPosition)|
            self.reached(picks, m.1.on) || self.in_chain_below(start, m.0)
    }
}

/// The stacks of a graph, to be gone down.
struct Stacks<'a> {
    graph: &'a EditorGraph,
}

impl<'a> Successors<EditorGraphIndex> for Stacks<'a> {
    open spec fn valid(&self) -> bool {
        true
    }

    closed spec fn next(&self, x: EditorGraphIndex) -> Seq<EditorGraphIndex> {
        rests_on_list(self.graph@)(x)
    }

    closed spec fn universe(&self) -> Set<EditorGraphIndex> {
        Seq::new(
            self.graph@.refs.len(),
            |i: int|
                match self.graph@.below(EditorGraphIndex::Ref(i as usize)) {
                    Some(b) => b,
                    None => EditorGraphIndex::Ref(i as usize),
                },
        ).to_set()
    }

    proof fn lemma_universe(&self) {
        let view = self.graph@;
        let list = Seq::new(
            view.refs.len(),
            |i: int|
                match view.below(EditorGraphIndex::Ref(i as usize)) {
                    Some(b) => b,
                    None => EditorGraphIndex::Ref(i as usize),
                },
        );
        assert forall|x: EditorGraphIndex, y: EditorGraphIndex| #[trigger]
            self.next(x).contains(y) implies self.universe().contains(y) by {
            assert(view.below(x) == Some(y));
            let r = x->Ref_0 as int;
            assert(list[r] == y);
            assert(list.contains(y));
        }
        vstd::seq_lib::seq_to_set_is_finite(list);
    }

    fn successors(&self, x: EditorGraphIndex) -> (r: Vec<EditorGraphIndex>) {
        let mut r: Vec<EditorGraphIndex> = Vec::new();
        if let Some(stored) = self.graph.position_of(x) {
            if let Some(b) = stored.below {
                r.push(b);
            }
        }
        assert(r@ =~= self.next(x));
        r
    }
}

/// The references that are walked through when `picks` are the commits that were reached from
/// `start`: those on these commits, and if `start` is itself a reference, it and its chain below. A
/// chain is entered when its commit is reached, which it is once one of its legs was visited; what
/// is on a reached commit without a leg that leads there counts too. A commit that is in the graph
/// twice counts as reached if one of both is.
#[verifier::loop_isolation(false)]
pub fn refs_reachable_with(
    graph: &EditorGraph,
    start: EditorGraphIndex,
    picks: &SortedSet<EditorGraphIndex>,
) -> (r: Vec<EditorGraphIndex>)
    ensures
        r@ == graph@.placed().filter(graph@.is_walked(start, picks@)).map_values(
            |m: (EditorGraphIndex, RefPosition)| m.0,
        ),
{
    let mut reached_ids: SortedSet<ObjectId> = SortedSet::new();
    let n: usize = picks.len();
    let ghost all = picks.seq();
    let mut i: usize = 0;
    while i < n
        invariant
            i <= n,
            n == all.len(),
            all == picks.seq(),
            forall|id: ObjectId| #[trigger]
                reached_ids@.contains(id) <==> exists|j: int|
                    0 <= j < i && graph@.commit_id(#[trigger] all[j]) == Some(id),
        decreases n - i,
    {
        let node = *picks.at(i);
        if let Some(id) = graph.commit_id(node) {
            reached_ids.insert(id);
            assert(graph@.commit_id(all[i as int]) == Some(id));
        }
        i += 1;
    }
    assert forall|id: ObjectId| #[trigger] reached_ids@.contains(id) <==> exists|
        other: EditorGraphIndex,
    | #[trigger] picks@.contains(other) && graph@.commit_id(other) == Some(id) by {
        if reached_ids@.contains(id) {
            let j = choose|j: int| 0 <= j < n && graph@.commit_id(#[trigger] all[j]) == Some(id);
            assert(picks@.contains(all[j]));
        }
        if exists|other: EditorGraphIndex| #[trigger]
            picks@.contains(other) && graph@.commit_id(other) == Some(id) {
            let other = choose|other: EditorGraphIndex| #[trigger]
                picks@.contains(other) && graph@.commit_id(other) == Some(id);
            assert(all.contains(other));
            let j = choose|j: int| 0 <= j < all.len() && all[j] == other;
            assert(graph@.commit_id(all[j]) == Some(id));
        }
    }
    let chain = chain_members(graph, start);
    let stacks = Stacks { graph };
    let mut entries: Vec<EditorGraphIndex> = Vec::new();
    entries.push(start);
    let mut down: SortedSet<EditorGraphIndex> = SortedSet::new();
    visit_all(&stacks, &entries, &mut down);
    proof {
        assert(entries@ =~= seq![start]);
        assert(steps_of::<EditorGraphIndex, Stacks>(stacks) =~= rests_on_list(graph@));
    }
    let ghost keep = graph@.is_walked(start, picks@);
    let test = |m: &(EditorGraphIndex, RefPosition)| -> (r: bool)
        ensures
            r == keep(*m),
        {
            let pick_reached: bool = match resolve_to_pick(graph, m.1.on) {
                Some(pick) => picks.contains(&pick) || (match graph.commit_id(pick) {
                    Some(id) => reached_ids.contains(&id),
                    None => false,
                }),
                None => false,
            };
            pick_reached || m.0 == start || (lists(&chain, m.0) && down.contains(&m.0))
        };
    let kept = kept_refs(graph.positioned_refs(), test, Ghost(keep));
    ref_nodes(&kept)
}

impl EditorView {
    /// Whether the walk down the stack from `cursor` ends within `n` references.
    pub open spec fn stack_ends(self, cursor: Option<EditorGraphIndex>, n: nat) -> bool
        decreases n,
    {
        match cursor {
            None => true,
            Some(b) => n > 0 && self.stack_ends(self.below(b), (n - 1) as nat),
        }
    }

    /// The first `n` references of the stack from `cursor` down, with where they sit.
    pub open spec fn stack(self, cursor: Option<EditorGraphIndex>, n: nat) -> Seq<
        (EditorGraphIndex, RefPosition),
    >
        decreases n,
    {
        match cursor {
            None => Seq::empty(),
            Some(b) => match self.position(b) {
                Some(m) => if n == 0 {
                    Seq::empty()
                } else {
                    seq![(b, m)] + self.stack(m.below, (n - 1) as nat)
                },
                None => Seq::empty(),
            },
        }
    }

    /// Whether nothing descends into the lane of the reference.
    pub open spec fn is_root(self, node: EditorGraphIndex) -> bool {
        self.position(node) matches Some(stored) && (lane_of(
            self.lanes,
            stored.on,
            node,
        ) matches Some(lane) && lane.carry == LaneCarry::Nothing)
    }

    /// Whether the list holds the reference.
    pub open spec fn listed(
        list: Seq<(EditorGraphIndex, RefPosition)>,
        node: EditorGraphIndex,
    ) -> bool {
        exists|i: int| 0 <= i < list.len() && (#[trigger] list[i]).0 == node
    }

    /// The reference and those of its chain underneath it, `n` references down.
    pub open spec fn joining(self, node: EditorGraphIndex, n: nat) -> Seq<
        (EditorGraphIndex, RefPosition),
    > {
        match self.position(node) {
            None => Seq::empty(),
            Some(stored) => if self.is_root(node) {
                seq![(node, stored)]
            } else {
                seq![(node, stored)] + self.stack(stored.below, n).filter(
                    |m: (EditorGraphIndex, RefPosition)| Self::listed(self.chain(node), m.0),
                )
            },
        }
    }
}

/// A chain that a new leg is about to enter, taken down before the leg is there.
pub struct ChainJoin {
    /// The references that the leg enters, with where they sit: the reference itself, and those of
    /// its chain underneath it. Of references that nothing descends into, only the one itself.
    pub members: Vec<(EditorGraphIndex, RefPosition)>,
    /// The approach that they share.
    pub approach: Vec<EditorLeg>,
}

/// Whether the list holds the reference.
pub fn lists(list: &Vec<(EditorGraphIndex, RefPosition)>, node: EditorGraphIndex) -> (r: bool)
    ensures
        r == EditorView::listed(list@, node),
{
    let mut i: usize = 0;
    while i < list.len()
        invariant
            i <= list@.len(),
            forall|j: int| 0 <= j < i ==> (#[trigger] list@[j]).0 != node,
        decreases list.len() - i,
    {
        if list[i].0 == node {
            return true;
        }
        i += 1;
    }
    false
}

/// Those of the stack from `start` down that the chain has.
fn stacked_members(
    graph: &EditorGraph,
    chain: &Vec<(EditorGraphIndex, RefPosition)>,
    start: Option<EditorGraphIndex>,
) -> (r: Vec<(EditorGraphIndex, RefPosition)>)
    requires
        exists|n: nat| graph@.stack_ends(start, n),
    ensures
        forall|n: nat| #[trigger]
            graph@.stack_ends(start, n) ==> r@ == graph@.stack(start, n).filter(
                |m: (EditorGraphIndex, RefPosition)| EditorView::listed(chain@, m.0),
            ),
        forall|i: int| 0 <= i < r@.len() ==> graph@.has_ref((#[trigger] r@[i]).0),
{
    let ghost view = graph@;
    let ghost keep = |m: (EditorGraphIndex, RefPosition)| EditorView::listed(chain@, m.0);
    let ghost whole = choose|n: nat| view.stack_ends(start, n);
    let ghost mut walked: nat = 0;
    let mut members: Vec<(EditorGraphIndex, RefPosition)> = Vec::new();
    let mut cursor: Option<EditorGraphIndex> = start;
    proof {
        assert forall|n: nat| #[trigger] view.stack_ends(start, n) implies view.stack(
            start,
            n,
        ).filter(keep) == members@ + view.stack(cursor, n).filter(keep) by {
            assert(members@ + view.stack(cursor, n).filter(keep) =~= view.stack(start, n).filter(
                keep,
            ));
        }
    }
    loop
        invariant
            view == graph@,
            keep == (|m: (EditorGraphIndex, RefPosition)| EditorView::listed(chain@, m.0)),
            walked <= whole,
            view.stack_ends(start, whole),
            forall|i: int| 0 <= i < members@.len() ==> view.has_ref((#[trigger] members@[i]).0),
            forall|n: nat| #[trigger]
                view.stack_ends(start, n) ==> n >= walked && view.stack_ends(
                    cursor,
                    (n - walked) as nat,
                ) && view.stack(start, n).filter(keep) == members@ + view.stack(
                    cursor,
                    (n - walked) as nat,
                ).filter(keep),
        decreases whole - walked,
    {
        let step = match cursor {
            None => None,
            Some(b) => match graph.position_of(b) {
                None => None,
                Some(m) => Some((b, m)),
            },
        };
        match step {
            None => {
                proof {
                    assert forall|n: nat| #[trigger] view.stack_ends(start, n) implies view.stack(
                        start,
                        n,
                    ).filter(keep) == members@ by {
                        reveal(Seq::filter);
                        assert(view.stack(cursor, (n - walked) as nat).len() == 0);
                        assert(members@ + view.stack(cursor, (n - walked) as nat).filter(keep)
                            =~= members@);
                    }
                }
                return members;
            },
            Some((b, m)) => {
                let ghost before = members@;
                if lists(chain, b) {
                    members.push((b, m));
                }
                proof {
                    assert(view.stack_ends(cursor, (whole - walked) as nat));
                    assert forall|n: nat| #[trigger] view.stack_ends(start, n) implies n >= walked
                        + 1 && view.stack_ends(m.below, (n - walked - 1) as nat) && view.stack(
                        start,
                        n,
                    ).filter(keep) == members@ + view.stack(
                        m.below,
                        (n - walked - 1) as nat,
                    ).filter(keep) by {
                        assert(view.stack_ends(cursor, (n - walked) as nat));
                        let rest = view.stack(m.below, (n - walked - 1) as nat);
                        assert(view.stack(cursor, (n - walked) as nat) == seq![(b, m)] + rest);
                        lemma_filter_front((b, m), rest, keep);
                        if keep((b, m)) {
                            assert(before + (seq![(b, m)] + rest.filter(keep)) =~= before.push(
                                (b, m),
                            ) + rest.filter(keep));
                        }
                    }
                    walked = walked + 1;
                }
                cursor = m.below;
            },
        }
    }
}

/// Takes down the chain of the reference, for a leg that is about to enter it. The stack underneath
/// the reference has to end.
pub fn prepare_chain_join(graph: &EditorGraph, node: EditorGraphIndex) -> (r: ChainJoin)
    requires
        graph@.is_root(node) || exists|n: nat| graph@.stack_ends(graph@.below(node), n),
    ensures
        graph@.is_root(node) ==> r.members@ == graph@.joining(node, 0),
        forall|n: nat| #[trigger]
            graph@.stack_ends(graph@.below(node), n) ==> r.members@ == graph@.joining(node, n),
        r.approach@ == graph@.approach(node),
        forall|i: int| 0 <= i < r.members@.len() ==> graph@.has_ref((#[trigger] r.members@[i]).0),
{
    let stored = match graph.position_of(node) {
        Some(stored) => stored,
        None => return ChainJoin { members: Vec::new(), approach: Vec::new() },
    };
    let is_root: bool = match graph.lanes.find(stored.on, node) {
        Some(lane) => lane.carry == LaneCarry::Nothing,
        None => false,
    };
    let mut members: Vec<(EditorGraphIndex, RefPosition)> = Vec::new();
    members.push((node, stored));
    assert(members@ =~= seq![(node, stored)]);
    if !is_root {
        let chain = chain_members(graph, node);
        let mut rest = stacked_members(graph, &chain, stored.below);
        members.append(&mut rest);
    }
    ChainJoin { members, approach: ref_approach(graph, node) }
}

proof fn lemma_filter_front<A>(x: A, rest: Seq<A>, keep: spec_fn(A) -> bool)
    ensures
        (seq![x] + rest).filter(keep) == if keep(x) {
            seq![x] + rest.filter(keep)
        } else {
            rest.filter(keep)
        },
    decreases rest.len(),
{
    reveal(Seq::filter);
    let all = seq![x] + rest;
    if rest.len() == 0 {
        assert(all =~= seq![x]);
        assert(all.drop_last() =~= Seq::empty());
        assert(all.drop_last().filter(keep) =~= Seq::empty());
        assert(rest.filter(keep) =~= Seq::empty());
        if keep(x) {
            assert(all.filter(keep) =~= seq![x] + rest.filter(keep));
        }
    } else {
        lemma_filter_front(x, rest.drop_last(), keep);
        assert(all.drop_last() =~= seq![x] + rest.drop_last());
        assert(all.last() == rest.last());
        if keep(x) {
            assert((seq![x] + rest.drop_last().filter(keep)).push(rest.last()) =~= seq![x]
                + rest.drop_last().filter(keep).push(rest.last()));
        }
    }
}

/// The approach with one more leg.
pub open spec fn approach_with(approach: Seq<EditorLeg>, leg: EditorLeg) -> Seq<EditorLeg> {
    if approach.contains(leg) {
        approach
    } else {
        approach.push(leg)
    }
}

impl EditorView {
    /// The graph after the leg has entered the first `n` members of a chain.
    pub open spec fn chain_joined(
        self,
        members: Seq<(EditorGraphIndex, RefPosition)>,
        approach: Seq<EditorLeg>,
        n: int,
    ) -> EditorView
        decreases n,
    {
        if n <= 0 {
            self
        } else {
            let (node, member) = members[n - 1];
            self.chain_joined(members, approach, n - 1).set_position(
                node,
                member.on,
                approach,
                member.ambiguous || approach.len() > 1,
                member.below,
            )
        }
    }

    /// The graph after the first `n` of `moves` were put on `to`.
    pub open spec fn repositioned(
        self,
        moves: Seq<(EditorGraphIndex, RefPosition)>,
        to: EditorGraphIndex,
        reclassify: bool,
        n: int,
    ) -> EditorView
        decreases n,
    {
        if n <= 0 {
            self
        } else {
            let (node, stored) = moves[n - 1];
            let before = self.repositioned(moves, to, reclassify, n - 1);
            if reclassify {
                before.set_position(
                    node,
                    to,
                    before.approach(node),
                    stored.ambiguous,
                    stored.below,
                )
            } else {
                before.rekey_position(node, to)
            }
        }
    }

    /// The references whose commit is `pick`, with where they sit.
    pub open spec fn seated(self, pick: EditorGraphIndex) -> Seq<(EditorGraphIndex, RefPosition)> {
        self.placed().filter(
            |m: (EditorGraphIndex, RefPosition)| self.resolve(m.1.on) == Some(pick),
        )
    }
}

/// The new leg enters the chain: each member is approached through it too.
pub fn apply_chain_join(graph: &mut EditorGraph, join: &ChainJoin, leg: EditorLeg)
    requires
        forall|i: int|
            0 <= i < join.members@.len() ==> old(graph)@.has_ref((#[trigger] join.members@[i]).0),
    ensures
        final(graph)@ == old(graph)@.chain_joined(
            join.members@,
            approach_with(join.approach@, leg),
            join.members@.len() as int,
        ),
{
    let ghost start = graph@;
    let mut approach = crate::lanes::clone_legs(&join.approach);
    if !legs_contain(&approach, &leg) {
        approach.push(leg);
    }
    let mut i: usize = 0;
    while i < join.members.len()
        invariant
            i <= join.members@.len(),
            forall|j: int|
                0 <= j < join.members@.len() ==> start.has_ref((#[trigger] join.members@[j]).0),
            graph@.refs.len() == start.refs.len(),
            graph@ == start.chain_joined(join.members@, approach@, i as int),
        decreases join.members.len() - i,
    {
        let (node, member) = join.members[i];
        assert(start.has_ref(join.members@[i as int].0));
        let ambiguous: bool = member.ambiguous || approach.len() > 1;
        graph.set_position(node, member.on, &approach, ambiguous, member.below);
        i += 1;
    }
}

/// The references whose commit is `pick`, with where they sit.
pub fn seated_refs(graph: &EditorGraph, pick: EditorGraphIndex) -> (r: Vec<
    (EditorGraphIndex, RefPosition),
>)
    ensures
        r@ == graph@.seated(pick),
{
    let ghost keep = |m: (EditorGraphIndex, RefPosition)| graph@.resolve(m.1.on) == Some(pick);
    let test = |m: &(EditorGraphIndex, RefPosition)| -> (r: bool)
        ensures
            r == keep(*m),
        { resolve_to_pick(graph, m.1.on) == Some(pick) };
    kept_refs(graph.positioned_refs(), test, Ghost(keep))
}

/// What a list of references is filtered down to are references of the graph, sitting where they
/// are listed to sit.
pub proof fn lemma_kept_placed(view: EditorView, keep: spec_fn((EditorGraphIndex, RefPosition)) -> bool)
    requires
        view.fits(),
    ensures
        forall|i: int|
            0 <= i < view.placed().filter(keep).len() ==> {
                let m = #[trigger] view.placed().filter(keep)[i];
                view.has_ref(m.0) && view.position(m.0) == Some(m.1) && keep(m)
            },
{
    view.lemma_placed();
    let kept = view.placed().filter(keep);
    assert forall|i: int| 0 <= i < kept.len() implies {
        let m = #[trigger] kept[i];
        view.has_ref(m.0) && view.position(m.0) == Some(m.1) && keep(m)
    } by {
        assert(kept.contains(kept[i]));
        lemma_filter_contains(view.placed(), keep, kept[i]);
        let j = choose|j: int| 0 <= j < view.placed().len() && view.placed()[j] == kept[i];
        assert(view.has_ref(view.placed()[j].0));
    }
}

/// Moves each reference on the commit `from` onto `to`. Where they are reclassified, the legs that
/// approach them are held against those of `to`; otherwise each carries its lane along.
pub fn reposition_refs(
    graph: &mut EditorGraph,
    from: EditorGraphIndex,
    to: EditorGraphIndex,
    reclassify: bool,
)
    ensures
        final(graph)@ == old(graph)@.repositioned(
            old(graph)@.seated(from),
            to,
            reclassify,
            old(graph)@.seated(from).len() as int,
        ),
{
    let ghost start = graph@;
    let n: usize = graph.fits();
    let moves = seated_refs(graph, from);
    proof {
        lemma_kept_placed(
            start,
            |m: (EditorGraphIndex, RefPosition)| start.resolve(m.1.on) == Some(from),
        );
    }
    let mut i: usize = 0;
    while i < moves.len()
        invariant
            i <= moves@.len(),
            forall|j: int| 0 <= j < moves@.len() ==> start.has_ref((#[trigger] moves@[j]).0),
            graph@.refs.len() == start.refs.len(),
            graph@ == start.repositioned(moves@, to, reclassify, i as int),
        decreases moves.len() - i,
    {
        let (node, stored) = moves[i];
        assert(start.has_ref(moves@[i as int].0));
        if reclassify {
            let approach = ref_approach(graph, node);
            graph.set_position(node, to, &approach, stored.ambiguous, stored.below);
        } else {
            graph.rekey_position(node, to);
        }
        i += 1;
    }
}

} // verus!
