//! Changes of where references sit, spoken as intents.

use crate::editor_graph::{
    EditorGraph, EditorGraphIndex, EditorLeg, EditorView, RefPosition, RefView, WALK_LIMIT,
};
use crate::lanes::{clone_legs, legs_contain, list_contains, same_legs, sort_legs};
use crate::order::sorted;
use crate::positions::{
    chain_members, kept_refs, legs_into_pick, lemma_kept_placed, ref_approach, ref_depth, ref_nodes,
    resolve_to_pick, seated_refs,
};
use crate::seqs::{lemma_filter_contains, lemma_filter_none, lemma_filter_take, lemma_take_all};
use vstd::prelude::*;
use vstd::set_lib::*;

verus! {

/// A reference that sits somewhere.
pub type Member = (EditorGraphIndex, RefPosition);

/// A position in the stack of references on a commit, named by intent.
#[derive(Debug, Clone, Copy)]
pub enum StackSlot {
    /// Directly above this reference, in its chain: what sat on it sits on the newcomer.
    Above(EditorGraphIndex),
    /// Where this reference is: the newcomer takes what is underneath it, and it sits on the
    /// newcomer.
    Below(EditorGraphIndex),
    /// At the bottom of the stack on the commit, with all legs: each reference that sat on the
    /// commit itself sits on the newcomer.
    Bottom(EditorGraphIndex),
    /// On top of the chain that this leg carries into the commit.
    LaneTop {
        /// The commit.
        pick: EditorGraphIndex,
        /// The leg.
        leg: EditorLeg,
    },
    /// On the commit, with nothing that descends into it; no other position changes.
    Root(EditorGraphIndex),
}

/// Whether the reference `on` carries a reference directly, `node` aside.
pub open spec fn rests_on(on: EditorGraphIndex, node: EditorGraphIndex) -> spec_fn(Member) -> bool {
    |m: Member| m.0 != node && m.1.below == Some(on)
}

/// Those of the list that the reference `on` carries directly, `node` aside.
pub open spec fn resting_on(list: Seq<Member>, on: EditorGraphIndex, node: EditorGraphIndex) -> Seq<
    Member,
> {
    list.filter(rests_on(on, node))
}

impl EditorView {
    /// The graph after each reference of the list was put above `below`.
    pub open spec fn rehung(self, list: Seq<Member>, below: Option<EditorGraphIndex>) -> EditorView {
        EditorView {
            refs: Seq::new(
                self.refs.len(),
                |i: int|
                    if Self::listed(list, EditorGraphIndex::Ref(i as usize))
                        && self.refs[i].position is Some {
                        RefView {
                            position: Some(RefPosition { below, ..self.refs[i].position->0 }),
                            ..self.refs[i]
                        }
                    } else {
                        self.refs[i]
                    },
            ),
            ..self
        }
    }

    /// Whether a reference on the commit sits on nothing but it, `node` aside.
    pub open spec fn at_bottom(self, pick: EditorGraphIndex, node: EditorGraphIndex) -> spec_fn(
        Member,
    ) -> bool {
        |m: Member| m.0 != node && m.1.below is None && self.resolve(m.1.on) == Some(pick)
    }

    /// Those on the commit that sit on nothing but it, `node` aside.
    pub open spec fn bottom_of(self, pick: EditorGraphIndex, node: EditorGraphIndex) -> Seq<Member> {
        self.placed().filter(self.at_bottom(pick, node))
    }

    /// Whether exactly these legs descend into a reference on the commit, `node` aside.
    pub open spec fn approached_by(
        self,
        pick: EditorGraphIndex,
        legs: Seq<EditorLeg>,
        node: EditorGraphIndex,
    ) -> spec_fn(Member) -> bool {
        |m: Member|
            m.0 != node && self.resolve(m.1.on) == Some(pick) && self.approach(m.0) == legs
    }

    /// Those on the commit that exactly this leg descends into, `node` aside.
    pub open spec fn in_lane(
        self,
        pick: EditorGraphIndex,
        leg: EditorLeg,
        node: EditorGraphIndex,
    ) -> Seq<Member> {
        self.placed().filter(self.approached_by(pick, seq![leg], node))
    }

    /// The one of the first `n` with most references underneath, the last such.
    pub open spec fn topmost(self, list: Seq<Member>, n: int) -> Option<EditorGraphIndex>
        decreases n,
    {
        if n <= 0 {
            None
        } else {
            match self.topmost(list, n - 1) {
                Some(best) => if self.depth(list[n - 1].0) >= self.depth(best) {
                    Some(list[n - 1].0)
                } else {
                    Some(best)
                },
                None => Some(list[n - 1].0),
            }
        }
    }

    /// The top of the chain that the leg carries into the commit, `node` aside.
    pub open spec fn lane_top(
        self,
        pick: EditorGraphIndex,
        leg: EditorLeg,
        node: EditorGraphIndex,
    ) -> Option<EditorGraphIndex> {
        let list = self.in_lane(pick, leg, node);
        self.topmost(list, list.len() as int)
    }

    /// The graph after the reference was placed.
    pub open spec fn placed_ref(self, node: EditorGraphIndex, slot: StackSlot) -> EditorView {
        match slot {
            StackSlot::Above(target) => if self.position(target) is None {
                self
            } else {
                self.rehung(
                    resting_on(self.chain(target), target, node),
                    Some(node),
                ).join_lane_of(node, target, Some(target))
            },
            StackSlot::Below(target) => match self.position(target) {
                Some(stored) => self.join_lane_of(node, target, stored.below).set_below(
                    target,
                    Some(node),
                ),
                None => self,
            },
            StackSlot::Bottom(pick) => {
                let approach = self.legs_into(pick);
                self.rehung(self.bottom_of(pick, node), Some(node)).set_position(
                    node,
                    pick,
                    approach,
                    approach.len() > 1,
                    None,
                )
            },
            StackSlot::LaneTop { pick, leg } => self.set_position(
                node,
                pick,
                seq![leg],
                false,
                self.lane_top(pick, leg, node),
            ),
            StackSlot::Root(pick) => self.set_position(node, pick, Seq::empty(), false, None),
        }
    }

    /// Those that sit directly on the reference.
    pub open spec fn resting(self, node: EditorGraphIndex) -> Seq<Member> {
        resting_on(self.placed(), node, node)
    }

    /// The graph after what sat on the reference sits on `onto`.
    pub open spec fn spliced_out(
        self,
        node: EditorGraphIndex,
        onto: Option<EditorGraphIndex>,
    ) -> EditorView {
        self.rehung(self.resting(node), onto)
    }
}

/// Puts each reference of the list above `below`.
fn rehang(graph: &mut EditorGraph, list: &Vec<Member>, below: Option<EditorGraphIndex>)
    ensures
        final(graph)@ == old(graph)@.rehung(list@, below),
{
    let ghost start = graph@;
    let ghost all = list@;
    let n: usize = graph.fits();
    let mut i: usize = 0;
    assert(start.rehung(all.take(0), below).refs =~= start.refs);
    while i < list.len()
        invariant
            i <= list@.len(),
            all == list@,
            start.fits(),
            graph@ == start.rehung(all.take(i as int), below),
        decreases list.len() - i,
    {
        let node = list[i].0;
        let ghost before = graph@;
        graph.set_below(node, below);
        proof {
            let now = start.rehung(all.take(i + 1), below);
            assert(all.take(i + 1) =~= all.take(i as int).push(all[i as int]));
            assert forall|x: EditorGraphIndex| #[trigger]
                EditorView::listed(all.take(i + 1), x) <==> EditorView::listed(
                    all.take(i as int),
                    x,
                ) || x == node by {
                let t = all.take(i as int);
                let u = all.take(i + 1);
                assert(u[i as int].0 == node);
                if EditorView::listed(t, x) {
                    let j = choose|j: int| 0 <= j < t.len() && (#[trigger] t[j]).0 == x;
                    assert(u[j].0 == x);
                }
                if EditorView::listed(u, x) && x != node {
                    let j = choose|j: int| 0 <= j < u.len() && (#[trigger] u[j]).0 == x;
                    assert(t[j].0 == x);
                }
            }
            assert(graph@.refs =~= now.refs);
        }
        i += 1;
    }
    proof {
        lemma_take_all(all);
    }
}

/// Those of the list that the reference `on` carries directly, `node` aside.
fn members_on(list: Vec<Member>, on: EditorGraphIndex, node: EditorGraphIndex) -> (r: Vec<Member>)
    ensures
        r@ == resting_on(list@, on, node),
{
    let ghost keep = rests_on(on, node);
    let test = |m: &Member| -> (r: bool)
        ensures
            r == keep(*m),
        { m.0 != node && m.1.below == Some(on) };
    kept_refs(list, test, Ghost(keep))
}

/// Those on the commit that sit on nothing but it, `node` aside.
fn bottom_members(graph: &EditorGraph, pick: EditorGraphIndex, node: EditorGraphIndex) -> (r: Vec<
    Member,
>)
    ensures
        r@ == graph@.bottom_of(pick, node),
{
    let ghost keep = graph@.at_bottom(pick, node);
    let test = |m: &Member| -> (r: bool)
        ensures
            r == keep(*m),
        { m.0 != node && m.1.below.is_none() && resolve_to_pick(graph, m.1.on) == Some(pick) };
    kept_refs(graph.positioned_refs(), test, Ghost(keep))
}

/// The top of the chain that the leg carries into the commit, `node` aside.
#[verifier::loop_isolation(false)]
fn lane_top(
    graph: &EditorGraph,
    pick: EditorGraphIndex,
    leg: EditorLeg,
    node: EditorGraphIndex,
) -> (r: Option<EditorGraphIndex>)
    ensures
        r == graph@.lane_top(pick, leg, node),
{
    let mut approach: Vec<EditorLeg> = Vec::new();
    approach.push(leg);
    assert(approach@ =~= seq![leg]);
    let ghost keep = graph@.approached_by(pick, seq![leg], node);
    let test = |m: &Member| -> (r: bool)
        ensures
            r == keep(*m),
        {
            let own = ref_approach(graph, m.0);
            m.0 != node && resolve_to_pick(graph, m.1.on) == Some(pick) && same_legs(
                &own,
                &approach,
            )
        };
    let list = kept_refs(graph.positioned_refs(), test, Ghost(keep));
    let mut best: Option<EditorGraphIndex> = None;
    let mut i: usize = 0;
    while i < list.len()
        invariant
            i <= list@.len(),
            best == graph@.topmost(list@, i as int),
        decreases list.len() - i,
    {
        let mate = list[i].0;
        best = match best {
            Some(b) => if ref_depth(graph, mate) >= ref_depth(graph, b) {
                Some(mate)
            } else {
                Some(b)
            },
            None => Some(mate),
        };
        i += 1;
    }
    best
}

/// Places a reference that does not hold a position which should move with it, and shifts others as
/// the slot demands.
pub fn place_ref(graph: &mut EditorGraph, node: EditorGraphIndex, slot: StackSlot)
    requires
        old(graph)@.has_ref(node),
    ensures
        final(graph)@ == old(graph)@.placed_ref(node, slot),
{
    match slot {
        StackSlot::Above(target) => {
            if graph.position_of(target).is_none() {
                return;
            }
            let mates = members_on(chain_members(graph, target), target, node);
            rehang(graph, &mates, Some(node));
            graph.join_lane_of(node, target, Some(target));
        },
        StackSlot::Below(target) => {
            let stored = match graph.position_of(target) {
                Some(stored) => stored,
                None => return,
            };
            graph.join_lane_of(node, target, stored.below);
            graph.set_below(target, Some(node));
        },
        StackSlot::Bottom(pick) => {
            let approach = legs_into_pick(graph, pick);
            let mates = bottom_members(graph, pick, node);
            rehang(graph, &mates, Some(node));
            graph.set_position(node, pick, &approach, approach.len() > 1, None);
        },
        StackSlot::LaneTop { pick, leg } => {
            let mut approach: Vec<EditorLeg> = Vec::new();
            approach.push(leg);
            assert(approach@ =~= seq![leg]);
            let top = lane_top(graph, pick, leg, node);
            graph.set_position(node, pick, &approach, false, top);
        },
        StackSlot::Root(pick) => {
            graph.set_position(node, pick, &Vec::new(), false, None);
        },
    }
}

/// Takes the reference out of its stack: what sat on it sits on `onto`.
pub fn splice_out(
    graph: &mut EditorGraph,
    node: EditorGraphIndex,
    onto: Option<EditorGraphIndex>,
)
    ensures
        final(graph)@ == old(graph)@.spliced_out(node, onto),
{
    let dependents = members_on(graph.positioned_refs(), node, node);
    rehang(graph, &dependents, onto);
}

impl EditorView {
    /// The parent at `slot` of the commit, if there is one.
    pub open spec fn parent_at(self, ix: EditorGraphIndex, slot: usize) -> Option<EditorGraphIndex> {
        if slot < self.parents(ix).len() {
            Some(self.parents(ix)[slot as int])
        } else {
            None
        }
    }

    /// The graph after the first `n` of `legs` that lead to `from` lead to `to`.
    pub open spec fn legs_moved(
        self,
        legs: Seq<EditorLeg>,
        from: EditorGraphIndex,
        to: EditorGraphIndex,
        n: int,
    ) -> EditorView
        decreases n,
    {
        if n <= 0 {
            self
        } else {
            let before = self.legs_moved(legs, from, to, n - 1);
            let (leg, slot) = legs[n - 1];
            if before.parent_at(leg, slot) == Some(from) {
                before.replace_parent(leg, slot, to)
            } else {
                before
            }
        }
    }

    /// The graph after the first `n` of `list` were put where they are listed to sit, to be
    /// approached through these legs.
    pub open spec fn settled(
        self,
        list: Seq<Member>,
        approach: Seq<EditorLeg>,
        ambiguous: bool,
        n: int,
    ) -> EditorView
        decreases n,
    {
        if n <= 0 {
            self
        } else {
            let (mate, m) = list[n - 1];
            self.settled(list, approach, ambiguous, n - 1).set_position(
                mate,
                m.on,
                approach,
                ambiguous,
                m.below,
            )
        }
    }

    /// The graph after the first `n` of `list` point at `onto`.
    pub open spec fn rekeyed(
        self,
        list: Seq<EditorGraphIndex>,
        onto: EditorGraphIndex,
        n: int,
    ) -> EditorView
        decreases n,
    {
        if n <= 0 {
            self
        } else {
            self.rekeyed(list, onto, n - 1).rekey_position(list[n - 1], onto)
        }
    }
}

/// The approach with the first `n` of `legs` added, as far as it does not have them.
pub open spec fn legs_added(approach: Seq<EditorLeg>, legs: Seq<EditorLeg>, n: int) -> Seq<EditorLeg>
    decreases n,
{
    if n <= 0 {
        approach
    } else {
        let before = legs_added(approach, legs, n - 1);
        if before.contains(legs[n - 1]) {
            before
        } else {
            before.push(legs[n - 1])
        }
    }
}

/// The legs that lead to `from` lead to `to`.
fn move_legs(
    graph: &mut EditorGraph,
    legs: &Vec<EditorLeg>,
    from: EditorGraphIndex,
    to: EditorGraphIndex,
)
    ensures
        final(graph)@ == old(graph)@.legs_moved(legs@, from, to, legs@.len() as int),
        final(graph)@.refs == old(graph)@.refs,
{
    let ghost start = graph@;
    let mut i: usize = 0;
    while i < legs.len()
        invariant
            i <= legs@.len(),
            graph@ == start.legs_moved(legs@, from, to, i as int),
            graph@.refs == start.refs,
        decreases legs.len() - i,
    {
        let (leg, slot) = legs[i];
        if graph.parent_at(leg, slot) == Some(from) {
            graph.replace_parent(leg, slot, to);
        }
        i += 1;
    }
}

/// Adds to the approach what it does not have of `legs`.
fn add_legs(approach: &mut Vec<EditorLeg>, legs: &Vec<EditorLeg>)
    ensures
        final(approach)@ == legs_added(old(approach)@, legs@, legs@.len() as int),
{
    let ghost start = approach@;
    let mut i: usize = 0;
    while i < legs.len()
        invariant
            i <= legs@.len(),
            approach@ == legs_added(start, legs@, i as int),
        decreases legs.len() - i,
    {
        if !legs_contain(approach, &legs[i]) {
            approach.push(legs[i]);
        }
        i += 1;
    }
}

/// Puts the references where they are listed to sit, to be approached through these legs.
fn settle(graph: &mut EditorGraph, list: &Vec<Member>, approach: &Vec<EditorLeg>, ambiguous: bool)
    requires
        forall|i: int| 0 <= i < list@.len() ==> old(graph)@.has_ref((#[trigger] list@[i]).0),
    ensures
        final(graph)@ == old(graph)@.settled(list@, approach@, ambiguous, list@.len() as int),
        final(graph)@.refs.len() == old(graph)@.refs.len(),
{
    let ghost start = graph@;
    let mut i: usize = 0;
    while i < list.len()
        invariant
            i <= list@.len(),
            forall|j: int| 0 <= j < list@.len() ==> start.has_ref((#[trigger] list@[j]).0),
            graph@.refs.len() == start.refs.len(),
            graph@ == start.settled(list@, approach@, ambiguous, i as int),
        decreases list.len() - i,
    {
        let (mate, m) = list[i];
        assert(start.has_ref(list@[i as int].0));
        graph.set_position(mate, m.on, approach, ambiguous, m.below);
        i += 1;
    }
}

/// Points the references at `onto`.
fn rekey(graph: &mut EditorGraph, list: &Vec<EditorGraphIndex>, onto: EditorGraphIndex)
    ensures
        final(graph)@ == old(graph)@.rekeyed(list@, onto, list@.len() as int),
        final(graph)@.refs.len() == old(graph)@.refs.len(),
{
    let ghost start = graph@;
    let mut i: usize = 0;
    while i < list.len()
        invariant
            i <= list@.len(),
            graph@.refs.len() == start.refs.len(),
            graph@ == start.rekeyed(list@, onto, i as int),
        decreases list.len() - i,
    {
        graph.rekey_position(list[i], onto);
        i += 1;
    }
}

/// Where a reference that moves goes to.
pub struct Landing {
    /// The node that it points at then.
    pub on: EditorGraphIndex,
    /// The legs that the slot is approached through.
    pub approach: Vec<EditorLeg>,
    /// What is underneath it then.
    pub below: Option<EditorGraphIndex>,
}

/// What a [`Landing`] stands for.
#[verifier::ext_equal]
pub struct LandingView {
    /// The node that it points at then.
    pub on: EditorGraphIndex,
    /// The legs that the slot is approached through.
    pub approach: Seq<EditorLeg>,
    /// What is underneath it then.
    pub below: Option<EditorGraphIndex>,
}

impl View for Landing {
    type V = LandingView;

    open spec fn view(&self) -> LandingView {
        LandingView { on: self.on, approach: self.approach@, below: self.below }
    }
}

impl EditorView {
    /// The graph after the slot was made free for the reference, and where the reference goes to;
    /// nowhere if the slot is at a reference that sits nowhere.
    pub open spec fn made_free(self, node: EditorGraphIndex, slot: StackSlot) -> (
        EditorView,
        Option<LandingView>,
    ) {
        match slot {
            StackSlot::Above(target) => match self.position(target) {
                None => (self, None),
                Some(stored) => {
                    let hung = self.set_below(node, Some(target));
                    let free = hung.rehung(
                        resting_on(hung.chain(target), target, node),
                        Some(node),
                    );
                    (
                        free,
                        Some(
                            LandingView {
                                on: stored.on,
                                approach: free.approach(target),
                                below: Some(target),
                            },
                        ),
                    )
                },
            },
            StackSlot::Below(target) => match self.position(target) {
                None => (self, None),
                Some(stored) => {
                    let free = self.set_below(node, stored.below).set_below(target, Some(node));
                    (
                        free,
                        Some(
                            LandingView {
                                on: stored.on,
                                approach: free.approach(target),
                                below: stored.below,
                            },
                        ),
                    )
                },
            },
            StackSlot::Bottom(pick) => {
                let hung = self.set_below(node, None);
                (
                    hung.rehung(hung.bottom_of(pick, node), Some(node)),
                    Some(LandingView { on: pick, approach: Seq::empty(), below: None }),
                )
            },
            StackSlot::LaneTop { pick, leg } => {
                let top = self.lane_top(pick, leg, node);
                (
                    self.set_below(node, top),
                    Some(LandingView { on: pick, approach: seq![leg], below: top }),
                )
            },
            StackSlot::Root(pick) => (
                self.set_below(node, None),
                Some(LandingView { on: pick, approach: Seq::empty(), below: None }),
            ),
        }
    }

    /// Whether nothing of the chain of the reference is underneath it.
    pub open spec fn sole_carrier(self, node: EditorGraphIndex) -> bool {
        forall|i: int|
            0 <= i < self.chain(node).len() && (#[trigger] self.chain(node)[i]).0 != node
                ==> self.depth(self.chain(node)[i].0) >= self.depth(node)
    }

    /// Those of the chain of `target` that are not above it, `node` aside.
    pub open spec fn not_above(self, target: EditorGraphIndex, node: EditorGraphIndex) -> Seq<
        Member,
    > {
        self.chain(target).filter(self.no_higher(target, node))
    }

    /// Whether a reference is at most as deep as `target`, `node` aside.
    pub open spec fn no_higher(self, target: EditorGraphIndex, node: EditorGraphIndex) -> spec_fn(
        Member,
    ) -> bool {
        |m: Member| m.0 != node && self.depth(m.0) <= self.depth(target)
    }

    /// The graph after the legs of the moving reference have followed it, and the approach of its
    /// new position. `legs` are the ones that approached it on the node `from`, if they follow.
    pub open spec fn legs_followed(
        self,
        node: EditorGraphIndex,
        slot: StackSlot,
        landing: LandingView,
        legs: Option<Seq<EditorLeg>>,
        from: EditorGraphIndex,
    ) -> (EditorView, Seq<EditorLeg>) {
        match (legs, self.resolve(from), self.resolve(landing.on)) {
            (Some(legs), Some(old_pick), Some(new_pick)) => {
                let moved = if old_pick != new_pick {
                    self.legs_moved(legs, old_pick, new_pick, legs.len() as int)
                } else {
                    self
                };
                let approach = sorted::<EditorLeg>(
                    legs_added(landing.approach, legs, legs.len() as int),
                );
                let shared = match slot {
                    StackSlot::Above(target) => if moved.position(target) is Some {
                        let mates = moved.not_above(target, node);
                        moved.settled(mates, approach, approach.len() > 1, mates.len() as int)
                    } else {
                        moved
                    },
                    _ => moved,
                };
                (shared, approach)
            },
            _ => (self, landing.approach),
        }
    }

    /// The graph after the reference has moved into the slot, with its approaching legs.
    pub open spec fn moved_ref(self, node: EditorGraphIndex, slot: StackSlot) -> EditorView {
        match self.position(node) {
            None => self,
            Some(moving) => {
                let legs = if self.sole_carrier(node) {
                    Some(self.approach(node))
                } else {
                    None
                };
                let (free, landing) = self.spliced_out(node, moving.below).made_free(node, slot);
                match landing {
                    None => free,
                    Some(landing) => {
                        let (followed, approach) = free.legs_followed(
                            node,
                            slot,
                            landing,
                            legs,
                            moving.on,
                        );
                        followed.set_position(
                            node,
                            landing.on,
                            approach,
                            approach.len() > 1,
                            landing.below,
                        )
                    },
                }
            },
        }
    }
}

/// Whether nothing of the chain of the reference is underneath it.
fn is_sole_carrier(graph: &EditorGraph, node: EditorGraphIndex) -> (r: bool)
    ensures
        r == graph@.sole_carrier(node),
{
    let depth: usize = ref_depth(graph, node);
    let chain = chain_members(graph, node);
    let mut i: usize = 0;
    while i < chain.len()
        invariant
            i <= chain@.len(),
            chain@ == graph@.chain(node),
            depth == graph@.depth(node),
            forall|j: int|
                0 <= j < i && (#[trigger] chain@[j]).0 != node ==> graph@.depth(chain@[j].0)
                    >= graph@.depth(node),
        decreases chain.len() - i,
    {
        let mate = chain[i].0;
        if mate != node && ref_depth(graph, mate) < depth {
            assert(graph@.chain(node)[i as int].0 == mate);
            return false;
        }
        i += 1;
    }
    true
}

/// Makes the slot free for the reference; the result is where the reference goes to.
fn make_free(graph: &mut EditorGraph, node: EditorGraphIndex, slot: StackSlot) -> (r: Option<
    Landing,
>)
    ensures
        final(graph)@ == old(graph)@.made_free(node, slot).0,
        r is Some <==> old(graph)@.made_free(node, slot).1 is Some,
        r matches Some(landing) ==> old(graph)@.made_free(node, slot).1 == Some(landing@),
        final(graph)@.refs.len() == old(graph)@.refs.len(),
{
    match slot {
        StackSlot::Above(target) => {
            let stored = match graph.position_of(target) {
                Some(stored) => stored,
                None => return None,
            };
            graph.set_below(node, Some(target));
            let mates = members_on(chain_members(graph, target), target, node);
            rehang(graph, &mates, Some(node));
            Some(
                Landing {
                    on: stored.on,
                    approach: ref_approach(graph, target),
                    below: Some(target),
                },
            )
        },
        StackSlot::Below(target) => {
            let stored = match graph.position_of(target) {
                Some(stored) => stored,
                None => return None,
            };
            graph.set_below(node, stored.below);
            graph.set_below(target, Some(node));
            Some(
                Landing {
                    on: stored.on,
                    approach: ref_approach(graph, target),
                    below: stored.below,
                },
            )
        },
        StackSlot::Bottom(pick) => {
            graph.set_below(node, None);
            let mates = bottom_members(graph, pick, node);
            rehang(graph, &mates, Some(node));
            Some(Landing { on: pick, approach: Vec::new(), below: None })
        },
        StackSlot::LaneTop { pick, leg } => {
            let mut approach: Vec<EditorLeg> = Vec::new();
            approach.push(leg);
            assert(approach@ =~= seq![leg]);
            let top = lane_top(graph, pick, leg, node);
            graph.set_below(node, top);
            Some(Landing { on: pick, approach, below: top })
        },
        StackSlot::Root(pick) => {
            graph.set_below(node, None);
            Some(Landing { on: pick, approach: Vec::new(), below: None })
        },
    }
}

/// Those of the chain of `target` that are not above it, `node` aside.
fn members_not_above(graph: &EditorGraph, target: EditorGraphIndex, node: EditorGraphIndex) -> (r:
    Vec<Member>)
    ensures
        r@ == graph@.not_above(target, node),
        forall|i: int| 0 <= i < r@.len() ==> graph@.has_ref((#[trigger] r@[i]).0),
{
    let n: usize = graph.fits();
    let depth: usize = ref_depth(graph, target);
    let ghost keep = graph@.no_higher(target, node);
    let test = |m: &Member| -> (r: bool)
        ensures
            r == keep(*m),
        { m.0 != node && ref_depth(graph, m.0) <= depth };
    let chain = chain_members(graph, target);
    let r = kept_refs(chain, test, Ghost(keep));
    proof {
        lemma_chain_has_refs(graph@, target);
        lemma_kept_has_refs(graph@, graph@.chain(target), keep);
    }
    r
}

/// The members of a chain are references of the graph that sit where they are listed to sit.
pub proof fn lemma_chain_has_refs(view: EditorView, node: EditorGraphIndex)
    requires
        view.fits(),
    ensures
        forall|i: int|
            0 <= i < view.chain(node).len() ==> view.has_ref((#[trigger] view.chain(node)[i]).0)
                && view.position(view.chain(node)[i].0) == Some(view.chain(node)[i].1),
{
    if view.position(node) is Some {
        let keep = |m: Member|
            view.approach(m.0) == view.approach(node) && view.resolve(m.1.on) == view.resolve(
                view.position(node)->0.on,
            );
        lemma_kept_placed(view, keep);
    }
}

/// What a list of references is filtered down to are references of the graph if the list has no
/// others.
pub proof fn lemma_kept_has_refs(view: EditorView, list: Seq<Member>, keep: spec_fn(Member) -> bool)
    requires
        forall|i: int| 0 <= i < list.len() ==> view.has_ref((#[trigger] list[i]).0),
    ensures
        forall|i: int|
            0 <= i < list.filter(keep).len() ==> view.has_ref((#[trigger] list.filter(keep)[i]).0),
{
    let kept = list.filter(keep);
    assert forall|i: int| 0 <= i < kept.len() implies view.has_ref((#[trigger] kept[i]).0) by {
        assert(kept.contains(kept[i]));
        lemma_filter_contains(list, keep, kept[i]);
        let j = choose|j: int| 0 <= j < list.len() && list[j] == kept[i];
        assert(view.has_ref(list[j].0));
    }
}

/// The legs of the moving reference follow it; the result is the approach of its new position.
fn follow_legs(
    graph: &mut EditorGraph,
    node: EditorGraphIndex,
    slot: StackSlot,
    landing: &Landing,
    legs: Option<Vec<EditorLeg>>,
    from: EditorGraphIndex,
) -> (r: Vec<EditorLeg>)
    ensures
        ({
            let opt = match legs {
                Some(legs) => Some(legs@),
                None => None,
            };
            &&& final(graph)@ == old(graph)@.legs_followed(node, slot, landing@, opt, from).0
            &&& r@ == old(graph)@.legs_followed(node, slot, landing@, opt, from).1
        }),
        final(graph)@.refs.len() == old(graph)@.refs.len(),
{
    let mut approach = clone_legs(&landing.approach);
    let old_resolved = resolve_to_pick(graph, from);
    let new_resolved = resolve_to_pick(graph, landing.on);
    match (legs, old_resolved, new_resolved) {
        (Some(legs), Some(old_pick), Some(new_pick)) => {
            if old_pick != new_pick {
                move_legs(graph, &legs, old_pick, new_pick);
            }
            add_legs(&mut approach, &legs);
            let approach = sort_legs(approach);
            if let StackSlot::Above(target) = slot {
                if graph.position_of(target).is_some() {
                    let mates = members_not_above(graph, target, node);
                    settle(graph, &mates, &approach, approach.len() > 1);
                }
            }
            approach
        },
        _ => approach,
    }
}

/// Moves a reference into the slot, with its approaching legs.
///
/// The legs that approached it follow it where nothing of its chain is underneath it: they lead to
/// the new commit then, and join the approach of the slot. Above another reference, what that one
/// shares its chain with downwards is approached the same way.
pub fn move_ref(graph: &mut EditorGraph, node: EditorGraphIndex, slot: StackSlot)
    ensures
        final(graph)@ == old(graph)@.moved_ref(node, slot),
{
    let moving = match graph.position_of(node) {
        Some(moving) => moving,
        None => return,
    };
    let legs = if is_sole_carrier(graph, node) {
        Some(ref_approach(graph, node))
    } else {
        None
    };
    splice_out(graph, node, moving.below);
    let landing = match make_free(graph, node, slot) {
        Some(landing) => landing,
        None => return,
    };
    let approach = follow_legs(graph, node, slot, &landing, legs, moving.on);
    graph.set_position(node, landing.on, &approach, approach.len() > 1, landing.below);
}

/// Those of the candidates that sit directly on `current`, as far as they are not taken.
pub open spec fn dependents(
    candidates: Seq<Member>,
    current: EditorGraphIndex,
    taken: Seq<EditorGraphIndex>,
) -> Seq<EditorGraphIndex> {
    candidates.filter(depends_on(current, taken)).map_values(|m: Member| m.0)
}

/// Whether a reference sits directly on `current` and is not taken.
pub open spec fn depends_on(current: EditorGraphIndex, taken: Seq<EditorGraphIndex>) -> spec_fn(
    Member,
) -> bool {
    |m: Member| m.1.below == Some(current) && !taken.contains(m.0)
}

/// What is taken once the dependents of all from the position `i` on are taken too, in at most
/// `fuel` steps.
pub open spec fn swept(
    candidates: Seq<Member>,
    taken: Seq<EditorGraphIndex>,
    i: int,
    fuel: nat,
) -> Seq<EditorGraphIndex>
    decreases fuel,
{
    if fuel == 0 || i >= taken.len() {
        taken
    } else {
        swept(
            candidates,
            taken + dependents(candidates, taken[i], taken),
            i + 1,
            (fuel - 1) as nat,
        )
    }
}

/// The reference, and all of the candidates that rest on it, directly or on one another.
pub open spec fn subtree(candidates: Seq<Member>, lead: EditorGraphIndex) -> Seq<EditorGraphIndex> {
    swept(candidates, seq![lead], 0, candidates.len() + 1)
}

/// No reference is listed twice.
pub open spec fn all_different(list: Seq<Member>) -> bool {
    forall|i: int, j: int|
        0 <= i < list.len() && 0 <= j < list.len() && (#[trigger] list[i]).0 == (
        #[trigger] list[j]).0 ==> i == j
}

/// What was taken is taken once, and is the lead or among the candidates.
spec fn well_taken(
    candidates: Seq<Member>,
    lead: EditorGraphIndex,
    taken: Seq<EditorGraphIndex>,
) -> bool {
    &&& taken.no_duplicates()
    &&& taken.len() > 0
    &&& taken[0] == lead
    &&& forall|i: int|
        1 <= i < taken.len() ==> EditorView::listed(candidates, #[trigger] taken[i])
}

proof fn lemma_dependents(
    candidates: Seq<Member>,
    current: EditorGraphIndex,
    taken: Seq<EditorGraphIndex>,
)
    requires
        all_different(candidates),
    ensures
        ({
            let more = dependents(candidates, current, taken);
            &&& more.no_duplicates()
            &&& forall|i: int|
                0 <= i < more.len() ==> {
                    &&& !taken.contains(#[trigger] more[i])
                    &&& exists|j: int|
                        0 <= j < candidates.len() && (#[trigger] candidates[j]).0 == more[i]
                            && candidates[j].1.below == Some(current)
                }
            &&& forall|j: int|
                0 <= j < candidates.len() && (#[trigger] candidates[j]).1.below == Some(current)
                    && !taken.contains(candidates[j].0) ==> more.contains(candidates[j].0)
        }),
{
    let test = depends_on(current, taken);
    let kept = candidates.filter(test);
    let more = dependents(candidates, current, taken);
    lemma_filter_different(candidates, test);
    assert forall|i: int| 0 <= i < more.len() implies {
        &&& !taken.contains(#[trigger] more[i])
        &&& exists|j: int|
            0 <= j < candidates.len() && (#[trigger] candidates[j]).0 == more[i]
                && candidates[j].1.below == Some(current)
    } by {
        assert(kept.contains(kept[i]));
        lemma_filter_contains(candidates, test, kept[i]);
        let j = choose|j: int| 0 <= j < candidates.len() && candidates[j] == kept[i];
        assert(candidates[j].0 == more[i]);
    }
    assert forall|j: int|
        0 <= j < candidates.len() && (#[trigger] candidates[j]).1.below == Some(current)
            && !taken.contains(candidates[j].0) implies more.contains(candidates[j].0) by {
        lemma_filter_contains(candidates, test, candidates[j]);
        assert(kept.contains(candidates[j]));
        let i = choose|i: int| 0 <= i < kept.len() && kept[i] == candidates[j];
        assert(more[i] == candidates[j].0);
    }
    assert forall|i: int, j: int| 0 <= i < more.len() && 0 <= j < more.len() && i != j implies more[i]
        != more[j] by {
        assert(kept[i].0 == more[i] && kept[j].0 == more[j]);
    }
}

/// What a list without repetitions is filtered down to has none.
pub proof fn lemma_filter_different(list: Seq<Member>, test: spec_fn(Member) -> bool)
    requires
        all_different(list),
    ensures
        all_different(list.filter(test)),
    decreases list.len(),
{
    reveal(Seq::filter);
    if list.len() > 0 {
        let d = list.drop_last();
        assert(all_different(d)) by {
            assert forall|i: int, j: int|
                0 <= i < d.len() && 0 <= j < d.len() && (#[trigger] d[i]).0 == (
                #[trigger] d[j]).0 implies i == j by {
                assert(list[i].0 == list[j].0);
            }
        }
        lemma_filter_different(d, test);
        let kept = d.filter(test);
        let now = list.filter(test);
        if test(list.last()) {
            assert(now == kept.push(list.last()));
            assert forall|i: int, j: int|
                0 <= i < now.len() && 0 <= j < now.len() && (#[trigger] now[i]).0 == (
                #[trigger] now[j]).0 implies i == j by {
                if i < kept.len() && j == kept.len() {
                    lemma_not_listed(list, kept, test, i);
                } else if j < kept.len() && i == kept.len() {
                    lemma_not_listed(list, kept, test, j);
                }
            }
        }
    }
}

proof fn lemma_not_listed(
    list: Seq<Member>,
    kept: Seq<Member>,
    test: spec_fn(Member) -> bool,
    i: int,
)
    requires
        all_different(list),
        list.len() > 0,
        kept == list.drop_last().filter(test),
        0 <= i < kept.len(),
    ensures
        kept[i].0 != list.last().0,
{
    let d = list.drop_last();
    assert(kept.contains(kept[i]));
    lemma_filter_contains(d, test, kept[i]);
    let k = choose|k: int| 0 <= k < d.len() && d[k] == kept[i];
    if list[k].0 == list[list.len() - 1].0 {
        assert(k == list.len() - 1);
    }
}

proof fn lemma_taken_more(
    candidates: Seq<Member>,
    lead: EditorGraphIndex,
    taken: Seq<EditorGraphIndex>,
    current: EditorGraphIndex,
)
    requires
        all_different(candidates),
        well_taken(candidates, lead, taken),
    ensures
        well_taken(candidates, lead, taken + dependents(candidates, current, taken)),
{
    lemma_dependents(candidates, current, taken);
    let more = dependents(candidates, current, taken);
    let now = taken + more;
    assert forall|i: int| 1 <= i < now.len() implies EditorView::listed(
        candidates,
        #[trigger] now[i],
    ) by {
        if i >= taken.len() {
            assert(now[i] == more[i - taken.len()]);
        } else {
            assert(now[i] == taken[i]);
        }
    }
    assert forall|i: int, j: int| 0 <= i < now.len() && 0 <= j < now.len() && i != j implies now[i]
        != now[j] by {
        if i < taken.len() && j >= taken.len() {
            assert(taken.contains(taken[i]));
            assert(!taken.contains(more[j - taken.len()]));
        } else if j < taken.len() && i >= taken.len() {
            assert(taken.contains(taken[j]));
            assert(!taken.contains(more[i - taken.len()]));
        }
    }
}

proof fn lemma_taken_fits(
    candidates: Seq<Member>,
    lead: EditorGraphIndex,
    taken: Seq<EditorGraphIndex>,
)
    requires
        well_taken(candidates, lead, taken),
    ensures
        taken.len() <= candidates.len() + 1,
{
    let nodes = candidates.map_values(|m: Member| m.0).push(lead);
    taken.unique_seq_to_set();
    nodes.lemma_cardinality_of_set();
    assert forall|x: EditorGraphIndex| taken.to_set().contains(x) implies nodes.to_set().contains(
        x,
    ) by {
        let i = choose|i: int| 0 <= i < taken.len() && taken[i] == x;
        if i == 0 {
            assert(nodes[candidates.len() as int] == lead);
        } else {
            assert(EditorView::listed(candidates, taken[i]));
            let j = choose|j: int| 0 <= j < candidates.len() && (#[trigger] candidates[j]).0 == x;
            assert(nodes[j] == x);
        }
    }
    lemma_len_subset(taken.to_set(), nodes.to_set());
}

/// Whether what was taken at `i` rests on something that was taken before it.
pub open spec fn rests_before(
    candidates: Seq<Member>,
    taken: Seq<EditorGraphIndex>,
    i: int,
) -> bool {
    exists|j: int, k: int|
        {
            &&& 0 <= j < candidates.len()
            &&& 0 <= k < i
            &&& (#[trigger] candidates[j]).0 == taken[i]
            &&& candidates[j].1.below == Some(#[trigger] taken[k])
        }
}

/// Each of what was taken but the lead rests on something that was taken before it.
pub open spec fn grounded(candidates: Seq<Member>, taken: Seq<EditorGraphIndex>) -> bool {
    forall|i: int| 1 <= i < taken.len() ==> #[trigger] rests_before(candidates, taken, i)
}

/// What rests on one of the first `n` of what was taken was taken.
pub open spec fn swept_up(candidates: Seq<Member>, taken: Seq<EditorGraphIndex>, n: int) -> bool {
    forall|j: int, k: int|
        0 <= j < candidates.len() && 0 <= k < n && k < taken.len() && (
        #[trigger] candidates[j]).1.below == Some(#[trigger] taken[k]) ==> taken.contains(
            candidates[j].0,
        )
}

proof fn lemma_swept(
    candidates: Seq<Member>,
    lead: EditorGraphIndex,
    taken: Seq<EditorGraphIndex>,
    i: int,
)
    requires
        all_different(candidates),
        well_taken(candidates, lead, taken),
        grounded(candidates, taken),
        0 <= i <= taken.len(),
        swept_up(candidates, taken, i),
    ensures
        ({
            let r = swept(candidates, taken, i, (candidates.len() + 1 - i) as nat);
            &&& well_taken(candidates, lead, r)
            &&& grounded(candidates, r)
            &&& swept_up(candidates, r, r.len() as int)
        }),
    decreases candidates.len() + 1 - i,
{
    lemma_taken_fits(candidates, lead, taken);
    if i < taken.len() {
        let current = taken[i];
        let more = dependents(candidates, current, taken);
        let now = taken + more;
        lemma_dependents(candidates, current, taken);
        lemma_taken_more(candidates, lead, taken, current);
        assert forall|x: EditorGraphIndex| taken.contains(x) implies now.contains(x) by {
            let k = choose|k: int| 0 <= k < taken.len() && taken[k] == x;
            assert(now[k] == x);
        }
        assert forall|x: EditorGraphIndex| more.contains(x) implies now.contains(x) by {
            let k = choose|k: int| 0 <= k < more.len() && more[k] == x;
            assert(now[taken.len() + k] == x);
        }
        assert(grounded(candidates, now)) by {
            assert forall|m: int| 1 <= m < now.len() implies #[trigger] rests_before(
                candidates,
                now,
                m,
            ) by {
                if m < taken.len() {
                    assert(rests_before(candidates, taken, m));
                    assert(taken[m] == now[m]);
                    let (j, k) = choose|j: int, k: int|
                        {
                            &&& 0 <= j < candidates.len()
                            &&& 0 <= k < m
                            &&& (#[trigger] candidates[j]).0 == taken[m]
                            &&& candidates[j].1.below == Some(#[trigger] taken[k])
                        };
                    assert(now[k] == taken[k]);
                    assert(candidates[j].0 == now[m]);
                } else {
                    let d = more[m - taken.len()];
                    assert(now[m] == d);
                    let j = choose|j: int|
                        0 <= j < candidates.len() && (#[trigger] candidates[j]).0 == d
                            && candidates[j].1.below == Some(current);
                    assert(now[i] == current);
                    assert(candidates[j].0 == now[m]);
                }
            }
        }
        assert(swept_up(candidates, now, i + 1)) by {
            assert forall|j: int, k: int|
                0 <= j < candidates.len() && 0 <= k < i + 1 && k < now.len() && (
                #[trigger] candidates[j]).1.below == Some(#[trigger] now[k]) implies now.contains(
                candidates[j].0,
            ) by {
                assert(now[k] == taken[k]);
                if k < i {
                    assert(taken.contains(candidates[j].0));
                } else if !taken.contains(candidates[j].0) {
                    assert(more.contains(candidates[j].0));
                }
            }
        }
        lemma_swept(candidates, lead, now, i + 1);
    }
}

/// The reference and what rests on it: it holds the reference first, each other one rests on one
/// that it holds before it, nothing is left out that rests on what it holds, and it holds nothing
/// twice.
pub proof fn law_subtree(candidates: Seq<Member>, lead: EditorGraphIndex)
    requires
        all_different(candidates),
    ensures
        ({
            let r = subtree(candidates, lead);
            &&& r.len() > 0
            &&& r[0] == lead
            &&& r.no_duplicates()
            &&& grounded(candidates, r)
            &&& swept_up(candidates, r, r.len() as int)
        }),
{
    lemma_swept(candidates, lead, seq![lead], 0);
}

/// The reference, and all of the candidates that rest on it, directly or on one another.
fn take_subtree(candidates: &Vec<Member>, lead: EditorGraphIndex) -> (taken: Vec<EditorGraphIndex>)
    requires
        all_different(candidates@),
    ensures
        taken@ == subtree(candidates@, lead),
        taken@.len() > 0,
        taken@[0] == lead,
{
    let mut taken: Vec<EditorGraphIndex> = Vec::new();
    taken.push(lead);
    assert(taken@ =~= seq![lead]);
    let ghost goal = subtree(candidates@, lead);
    let ghost n = candidates@.len() + 1;
    let mut i: usize = 0;
    proof {
        lemma_taken_fits(candidates@, lead, taken@);
    }
    while i < taken.len()
        invariant
            all_different(candidates@),
            well_taken(candidates@, lead, taken@),
            n == candidates@.len() + 1,
            i <= taken@.len() <= n,
            goal == swept(candidates@, taken@, i as int, (n - i) as nat),
        decreases n - i,
    {
        let current = taken[i];
        let mut more = take_dependents(candidates, current, &taken);
        proof {
            lemma_taken_more(candidates@, lead, taken@, current);
            lemma_taken_fits(
                candidates@,
                lead,
                taken@ + dependents(candidates@, current, taken@),
            );
        }
        taken.append(&mut more);
        i += 1;
    }
    taken
}

/// Those of the candidates that sit directly on `current`, as far as they are not taken.
fn take_dependents(
    candidates: &Vec<Member>,
    current: EditorGraphIndex,
    taken: &Vec<EditorGraphIndex>,
) -> (r: Vec<EditorGraphIndex>)
    ensures
        r@ == dependents(candidates@, current, taken@),
{
    let ghost test = depends_on(current, taken@);
    let ghost f = |m: Member| m.0;
    let mut r: Vec<EditorGraphIndex> = Vec::new();
    let mut i: usize = 0;
    proof {
        lemma_filter_none(candidates@, test);
    }
    while i < candidates.len()
        invariant
            i <= candidates@.len(),
            test == depends_on(current, taken@),
            f == (|m: Member| m.0),
            r@ =~= candidates@.take(i as int).filter(test).map_values(f),
        decreases candidates.len() - i,
    {
        proof {
            lemma_filter_take(candidates@, test, i as int);
        }
        let m = &candidates[i];
        if m.1.below == Some(current) && !list_contains(taken, &m.0) {
            r.push(m.0);
        }
        i += 1;
    }
    proof {
        lemma_take_all(candidates@);
    }
    r
}

impl EditorView {
    /// Whether a reference on the commit has this many references underneath but for one, `exclude`
    /// aside.
    pub open spec fn one_below(
        self,
        exclude: EditorGraphIndex,
        pick: EditorGraphIndex,
        depth: nat,
    ) -> spec_fn(Member) -> bool {
        |m: Member|
            m.0 != exclude && self.resolve(m.1.on) == Some(pick) && self.depth(m.0) + 1 == depth
    }

    /// The reference that one at this depth sits on, on the commit that `on` stands for: the first
    /// that is one less deep, `exclude` aside.
    pub open spec fn mate_below(
        self,
        exclude: EditorGraphIndex,
        on: EditorGraphIndex,
        depth: nat,
    ) -> Option<EditorGraphIndex> {
        if depth == 0 {
            None
        } else {
            match self.resolve(on) {
                Some(pick) => {
                    let list = self.placed().filter(self.one_below(exclude, pick, depth));
                    if list.len() > 0 {
                        Some(list[0].0)
                    } else {
                        None
                    }
                },
                None => None,
            }
        }
    }

    /// Those that were not removed.
    pub open spec fn live_placed(self) -> Seq<Member> {
        self.placed().filter(self.alive())
    }

    /// Whether a reference was not removed.
    pub open spec fn alive(self) -> spec_fn(Member) -> bool {
        |m: Member| self.is_reference(m.0)
    }

    /// Those of the chain of the reference that are not carried along with it.
    pub open spec fn left_behind(
        self,
        node: EditorGraphIndex,
        carried: Seq<EditorGraphIndex>,
    ) -> Seq<Member> {
        self.chain(node).filter(not_carried(node, carried))
    }

    /// The graph after the reference points at the commit `onto`, with its approaching legs and
    /// what rests on it.
    pub open spec fn repointed_ref(
        self,
        node: EditorGraphIndex,
        onto: EditorGraphIndex,
    ) -> EditorView {
        match self.position(node) {
            None => self.placed_ref(node, StackSlot::Root(onto)),
            Some(stored) => match self.resolve(stored.on) {
                Some(old_pick) => if old_pick != onto {
                    let approach = self.approach(node);
                    let moved = self.legs_moved(approach, old_pick, onto, approach.len() as int);
                    let below = moved.mate_below(node, onto, moved.depth(node));
                    let carried = subtree(moved.live_placed(), node);
                    let mates = moved.left_behind(node, carried);
                    moved.settled(mates, Seq::empty(), false, mates.len() as int).rekeyed(
                        carried.skip(1),
                        onto,
                        carried.len() - 1,
                    ).set_position(node, onto, approach, stored.ambiguous, below)
                } else {
                    self.rekey_position(node, onto)
                },
                None => self.rekey_position(node, onto),
            },
        }
    }
}

/// Whether a reference is not carried along, `node` aside.
pub open spec fn not_carried(
    node: EditorGraphIndex,
    carried: Seq<EditorGraphIndex>,
) -> spec_fn(Member) -> bool {
    |m: Member| m.0 != node && !carried.contains(m.0)
}

/// The reference that one at this depth sits on, on the commit that `on` stands for: the first that
/// is one less deep, `exclude` aside.
fn mate_below_depth(
    graph: &EditorGraph,
    exclude: EditorGraphIndex,
    on: EditorGraphIndex,
    depth: usize,
) -> (r: Option<EditorGraphIndex>)
    ensures
        r == graph@.mate_below(exclude, on, depth as nat),
{
    if depth == 0 {
        return None;
    }
    let pick = match resolve_to_pick(graph, on) {
        Some(pick) => pick,
        None => return None,
    };
    let ghost keep = graph@.one_below(exclude, pick, depth as nat);
    let test = |m: &Member| -> (r: bool)
        ensures
            r == keep(*m),
        {
            m.0 != exclude && resolve_to_pick(graph, m.1.on) == Some(pick) && ref_depth(graph, m.0)
                + 1 == depth
        };
    let list = kept_refs(graph.positioned_refs(), test, Ghost(keep));
    if list.len() > 0 {
        Some(list[0].0)
    } else {
        None
    }
}

/// Those that were not removed.
fn live_placed_refs(graph: &EditorGraph) -> (r: Vec<Member>)
    ensures
        r@ == graph@.live_placed(),
        all_different(r@),
{
    let n: usize = graph.fits();
    let ghost keep = graph@.alive();
    let test = |m: &Member| -> (r: bool)
        ensures
            r == keep(*m),
        { graph.is_reference(m.0) };
    proof {
        graph@.lemma_placed();
        lemma_filter_different(graph@.placed(), keep);
    }
    kept_refs(graph.positioned_refs(), test, Ghost(keep))
}

/// The list without its first element.
fn rest_of(list: &Vec<EditorGraphIndex>) -> (r: Vec<EditorGraphIndex>)
    requires
        list@.len() > 0,
    ensures
        r@ == list@.skip(1),
{
    let mut r: Vec<EditorGraphIndex> = Vec::new();
    let mut i: usize = 1;
    while i < list.len()
        invariant
            1 <= i <= list@.len(),
            r@ =~= list@.subrange(1, i as int),
        decreases list.len() - i,
    {
        r.push(list[i]);
        i += 1;
    }
    r
}

/// Points the reference at the commit `onto`.
///
/// Its approaching legs follow it, as does what rests on it. The rest of its chain loses its
/// approach, and stays. A reference that sits nowhere is placed there with nothing that descends
/// into it, and one that is there already only points at it directly.
pub fn repoint_ref(graph: &mut EditorGraph, node: EditorGraphIndex, onto: EditorGraphIndex)
    requires
        old(graph)@.has_ref(node),
    ensures
        final(graph)@ == old(graph)@.repointed_ref(node, onto),
{
    let stored = match graph.position_of(node) {
        Some(stored) => stored,
        None => {
            place_ref(graph, node, StackSlot::Root(onto));
            return;
        },
    };
    match resolve_to_pick(graph, stored.on) {
        Some(old_pick) => {
            if old_pick == onto {
                graph.rekey_position(node, onto);
                return;
            }
            let approach = ref_approach(graph, node);
            move_legs(graph, &approach, old_pick, onto);
            let n: usize = graph.fits();
            let ghost moved = graph@;
            let depth: usize = ref_depth(graph, node);
            let below = mate_below_depth(graph, node, onto, depth);
            let candidates = live_placed_refs(graph);
            let carried = take_subtree(&candidates, node);
            let ghost keep = not_carried(node, carried@);
            let test = |m: &Member| -> (r: bool)
                ensures
                    r == keep(*m),
                { m.0 != node && !list_contains(&carried, &m.0) };
            let mates = kept_refs(chain_members(graph, node), test, Ghost(keep));
            proof {
                lemma_chain_has_refs(moved, node);
                lemma_kept_has_refs(moved, moved.chain(node), keep);
            }
            let none: Vec<EditorLeg> = Vec::new();
            assert(none@ =~= Seq::empty());
            settle(graph, &mates, &none, false);
            rekey(graph, &rest_of(&carried), onto);
            graph.set_position(node, onto, &approach, stored.ambiguous, below);
        },
        None => {
            graph.rekey_position(node, onto);
        },
    }
}

impl EditorView {
    /// The graph after those of the legs from the position `n` on that lead to `pick` are gone, the
    /// last one first.
    pub open spec fn legs_dropped(
        self,
        legs: Seq<EditorLeg>,
        pick: EditorGraphIndex,
        n: int,
    ) -> EditorView
        decreases legs.len() - n,
    {
        if n >= legs.len() {
            self
        } else {
            let after = self.legs_dropped(legs, pick, n + 1);
            let (leg, slot) = legs[n];
            if after.parent_at(leg, slot) == Some(pick) {
                after.remove_parent(leg, slot)
            } else {
                after
            }
        }
    }

    /// The graph after the reference has left its chain.
    pub open spec fn unhooked_ref(self, node: EditorGraphIndex, drop_legs: bool) -> EditorView {
        match self.position(node) {
            None => self,
            Some(unhooked) => {
                let closed = self.rehung(
                    resting_on(self.chain(node), node, node),
                    unhooked.below,
                );
                let dropped = match closed.resolve(unhooked.on) {
                    Some(pick) => if drop_legs {
                        closed.legs_dropped(sorted::<EditorLeg>(closed.approach(node)), pick, 0)
                    } else {
                        closed
                    },
                    None => closed,
                };
                dropped.set_position(node, unhooked.on, Seq::empty(), false, unhooked.below)
            },
        }
    }
}

/// Those of the legs that lead to `pick` go, the last one first.
fn drop_legs_into(graph: &mut EditorGraph, legs: &Vec<EditorLeg>, pick: EditorGraphIndex)
    ensures
        final(graph)@ == old(graph)@.legs_dropped(legs@, pick, 0),
        final(graph)@.refs == old(graph)@.refs,
{
    let ghost start = graph@;
    let mut i: usize = legs.len();
    while i > 0
        invariant
            i <= legs@.len(),
            graph@ == start.legs_dropped(legs@, pick, i as int),
            graph@.refs == start.refs,
        decreases i,
    {
        i -= 1;
        let (leg, slot) = legs[i];
        if graph.parent_at(leg, slot) == Some(pick) {
            graph.remove_parent(leg, slot);
        }
    }
}

/// Takes the reference out of its chain: what of the chain sat on it sits on what it sat on, and
/// nothing descends into it any more. With `drop_legs` the legs that approached it are gone,
/// otherwise they still lead to the commit.
pub fn unhook_ref(graph: &mut EditorGraph, node: EditorGraphIndex, drop_legs: bool)
    ensures
        final(graph)@ == old(graph)@.unhooked_ref(node, drop_legs),
{
    let unhooked = match graph.position_of(node) {
        Some(unhooked) => unhooked,
        None => return,
    };
    let mates = members_on(chain_members(graph, node), node, node);
    rehang(graph, &mates, unhooked.below);
    if drop_legs {
        if let Some(pick) = resolve_to_pick(graph, unhooked.on) {
            let legs = sort_legs(ref_approach(graph, node));
            drop_legs_into(graph, &legs, pick);
        }
    }
    let none: Vec<EditorLeg> = Vec::new();
    assert(none@ =~= Seq::empty());
    graph.set_position(node, unhooked.on, &none, false, unhooked.below);
}

impl EditorView {
    /// Whether a reference is on the commit, with these legs that descend into it.
    pub open spec fn lane_on(self, pick: EditorGraphIndex, lane: Seq<EditorLeg>) -> spec_fn(
        Member,
    ) -> bool {
        |m: Member| self.resolve(m.1.on) == Some(pick) && self.approach(m.0) == lane
    }

    /// The graph after the first `n` of the slice that `lead` leads were put on `dest`, each
    /// approached the way it was. The lead is at the bottom then, the others sit on what they sat
    /// on.
    pub open spec fn slice_moved(
        self,
        slice: Seq<EditorGraphIndex>,
        lead: EditorGraphIndex,
        dest: EditorGraphIndex,
        n: int,
    ) -> EditorView
        decreases n,
    {
        if n <= 0 {
            self
        } else {
            let before = self.slice_moved(slice, lead, dest, n - 1);
            let node = slice[n - 1];
            match before.position(node) {
                Some(stored) => before.set_position(
                    node,
                    dest,
                    before.approach(node),
                    stored.ambiguous,
                    if node != lead {
                        stored.below
                    } else {
                        None
                    },
                ),
                None => before,
            }
        }
    }

    /// The graph after the slice of the stack on `source` that `lead` leads is on `dest`.
    pub open spec fn transferred_stack(
        self,
        lead: EditorGraphIndex,
        source: EditorGraphIndex,
        dest: EditorGraphIndex,
    ) -> EditorView {
        if self.position(lead) is None {
            self
        } else {
            let slice = subtree(
                self.placed().filter(self.lane_on(source, self.approach(lead))),
                lead,
            );
            self.slice_moved(slice, lead, dest, slice.len() as int)
        }
    }
}

/// Those on the commit with these legs that descend into them.
fn lane_members(graph: &EditorGraph, pick: EditorGraphIndex, lane: &Vec<EditorLeg>) -> (r: Vec<
    Member,
>)
    ensures
        r@ == graph@.placed().filter(graph@.lane_on(pick, lane@)),
        all_different(r@),
{
    let n: usize = graph.fits();
    let ghost keep = graph@.lane_on(pick, lane@);
    let test = |m: &Member| -> (r: bool)
        ensures
            r == keep(*m),
        {
            let own = ref_approach(graph, m.0);
            resolve_to_pick(graph, m.1.on) == Some(pick) && same_legs(&own, lane)
        };
    proof {
        graph@.lemma_placed();
        lemma_filter_different(graph@.placed(), keep);
    }
    kept_refs(graph.positioned_refs(), test, Ghost(keep))
}

/// Moves the slice of a stack that `lead` leads, it and what of its lane on `source` rests on it,
/// onto `dest`. The lead is at the bottom there, and each is held against the legs of `dest`.
pub fn transfer_stack(
    graph: &mut EditorGraph,
    lead: EditorGraphIndex,
    source: EditorGraphIndex,
    dest: EditorGraphIndex,
)
    ensures
        final(graph)@ == old(graph)@.transferred_stack(lead, source, dest),
{
    if graph.position_of(lead).is_none() {
        return;
    }
    let lane = ref_approach(graph, lead);
    let candidates = lane_members(graph, source, &lane);
    let slice = take_subtree(&candidates, lead);
    let ghost start = graph@;
    let mut i: usize = 0;
    while i < slice.len()
        invariant
            i <= slice@.len(),
            graph@ == start.slice_moved(slice@, lead, dest, i as int),
        decreases slice.len() - i,
    {
        let node = slice[i];
        if let Some(stored) = graph.position_of(node) {
            let approach = ref_approach(graph, node);
            let below = if node != lead {
                stored.below
            } else {
                None
            };
            graph.set_position(node, dest, &approach, stored.ambiguous, below);
        }
        i += 1;
    }
}

impl EditorView {
    /// Whether a reference is on the commit, with these legs that descend into it, and has more
    /// than so many references underneath.
    pub open spec fn higher_in_lane(
        self,
        pick: EditorGraphIndex,
        lane: Seq<EditorLeg>,
        depth: nat,
    ) -> spec_fn(Member) -> bool {
        |m: Member|
            self.resolve(m.1.on) == Some(pick) && self.approach(m.0) == lane && self.depth(m.0)
                > depth
    }

    /// The graph after the first `n` of `moves` that sat on something left behind sit on what is
    /// one less deep on `dest`.
    pub open spec fn landed(
        self,
        moves: Seq<EditorGraphIndex>,
        dest: EditorGraphIndex,
        n: int,
    ) -> EditorView
        decreases n,
    {
        if n <= 0 {
            self
        } else {
            let before = self.landed(moves, dest, n - 1);
            let node = moves[n - 1];
            match before.below(node) {
                Some(b) => if moves.contains(b) {
                    before
                } else {
                    before.set_below(
                        node,
                        before.mate_below(node, dest, before.depth(node)),
                    )
                },
                None => before,
            }
        }
    }

    /// The graph after the part of the lane on `source` above the depth is on `dest`.
    pub open spec fn carried_stack(
        self,
        source: EditorGraphIndex,
        lane: Seq<EditorLeg>,
        depth: nat,
        dest: EditorGraphIndex,
    ) -> EditorView {
        let moves = self.placed().filter(self.higher_in_lane(source, lane, depth)).map_values(
            |m: Member| m.0,
        );
        self.rekeyed(moves, dest, moves.len() as int).landed(moves, dest, moves.len() as int)
    }
}

/// Carries the part of a lane on `source` above the depth onto `dest` as it is: only what it points
/// at changes, and its bottom sits on what is one less deep there.
pub fn carry_stack_above(
    graph: &mut EditorGraph,
    source: EditorGraphIndex,
    lane: &Vec<EditorLeg>,
    above_depth: usize,
    dest: EditorGraphIndex,
)
    ensures
        final(graph)@ == old(graph)@.carried_stack(source, lane@, above_depth as nat, dest),
{
    let ghost keep = graph@.higher_in_lane(source, lane@, above_depth as nat);
    let reader: &EditorGraph = graph;
    let test = |m: &Member| -> (r: bool)
        ensures
            r == keep(*m),
        {
            let own = ref_approach(reader, m.0);
            resolve_to_pick(reader, m.1.on) == Some(source) && same_legs(&own, lane) && ref_depth(
                reader,
                m.0,
            ) > above_depth
        };
    let kept = kept_refs(reader.positioned_refs(), test, Ghost(keep));
    let moves = ref_nodes(&kept);
    rekey(graph, &moves, dest);
    let ghost start = graph@;
    let mut i: usize = 0;
    while i < moves.len()
        invariant
            i <= moves@.len(),
            graph@ == start.landed(moves@, dest, i as int),
        decreases moves.len() - i,
    {
        let node = moves[i];
        if let Some(stored) = graph.position_of(node) {
            if let Some(b) = stored.below {
                if !list_contains(&moves, &b) {
                    let depth: usize = ref_depth(graph, node);
                    let mate = mate_below_depth(graph, node, dest, depth);
                    graph.set_below(node, mate);
                }
            }
        }
        i += 1;
    }
}

impl EditorView {
    /// The graph after the first `n` of `moves` were put on the bridge, behind its legs. Those that
    /// sat on the commit itself sit on what is one less deep than they are there; `depths` says how
    /// deep each was.
    pub open spec fn bridged(
        self,
        moves: Seq<Member>,
        depths: Seq<nat>,
        top_depth: nat,
        bridge_node: EditorGraphIndex,
        bridge: Seq<EditorLeg>,
        n: int,
    ) -> EditorView
        decreases n,
    {
        if n <= 0 {
            self
        } else {
            let before = self.bridged(moves, depths, top_depth, bridge_node, bridge, n - 1);
            let (node, stored) = moves[n - 1];
            let below = match stored.below {
                Some(b) => Some(b),
                None => before.mate_below(node, bridge_node, depths[n - 1] + top_depth + 1),
            };
            before.set_position(node, bridge_node, bridge, bridge.len() > 1, below)
        }
    }

    /// The graph after all that is on `source` is above `top`, behind the legs of the bridge.
    pub open spec fn landed_stack(
        self,
        source: EditorGraphIndex,
        top: EditorGraphIndex,
        bridge_node: EditorGraphIndex,
    ) -> EditorView {
        match self.position(top) {
            None => self,
            Some(stored) => {
                let bridge = self.legs_into(bridge_node);
                let put = self.set_position(top, stored.on, bridge, bridge.len() > 1, stored.below);
                let moves = put.seated(source);
                put.bridged(
                    moves,
                    moves.map_values(|m: Member| put.depth(m.0)),
                    self.depth(top),
                    bridge_node,
                    bridge,
                    moves.len() as int,
                )
            },
        }
    }
}

/// Stacks all references on the commit `source` above `top`, behind the legs into `bridge_node`
/// that now descend into the joined chain. The result is whether `top` sits somewhere; otherwise
/// nothing changes.
pub fn land_stack_above(
    graph: &mut EditorGraph,
    source: EditorGraphIndex,
    top: EditorGraphIndex,
    bridge_node: EditorGraphIndex,
) -> (r: bool)
    ensures
        r == (old(graph)@.position(top) is Some),
        final(graph)@ == old(graph)@.landed_stack(source, top, bridge_node),
{
    let stored = match graph.position_of(top) {
        Some(stored) => stored,
        None => return false,
    };
    let bridge = legs_into_pick(graph, bridge_node);
    let top_depth: usize = ref_depth(graph, top);
    graph.set_position(top, stored.on, &bridge, bridge.len() > 1, stored.below);
    let n: usize = graph.fits();
    let ghost put = graph@;
    let moves = seated_refs(graph, source);
    proof {
        lemma_kept_placed(put, |m: Member| put.resolve(m.1.on) == Some(source));
    }
    let mut depths: Vec<usize> = Vec::new();
    let mut k: usize = 0;
    while k < moves.len()
        invariant
            k <= moves@.len(),
            put == graph@,
            depths@.len() == k,
            forall|j: int|
                0 <= j < k ==> #[trigger] depths@[j] == put.depth(moves@[j].0) && depths@[j]
                    <= WALK_LIMIT + 1,
        decreases moves.len() - k,
    {
        depths.push(ref_depth(graph, moves[k].0));
        k += 1;
    }
    let ghost deep = moves@.map_values(|m: Member| put.depth(m.0));
    let mut i: usize = 0;
    while i < moves.len()
        invariant
            i <= moves@.len(),
            depths@.len() == moves@.len(),
            top_depth <= WALK_LIMIT + 1,
            deep == moves@.map_values(|m: Member| put.depth(m.0)),
            forall|j: int|
                0 <= j < moves@.len() ==> #[trigger] depths@[j] == put.depth(moves@[j].0)
                    && depths@[j] <= WALK_LIMIT + 1,
            forall|j: int| 0 <= j < moves@.len() ==> put.has_ref((#[trigger] moves@[j]).0),
            graph@.refs.len() == put.refs.len(),
            graph@ == put.bridged(
                moves@,
                deep,
                top_depth as nat,
                bridge_node,
                bridge@,
                i as int,
            ),
        decreases moves.len() - i,
    {
        let (node, member) = moves[i];
        assert(put.has_ref(moves@[i as int].0));
        assert(depths@[i as int] == deep[i as int]);
        let below = match member.below {
            Some(b) => Some(b),
            None => mate_below_depth(graph, node, bridge_node, depths[i] + top_depth + 1),
        };
        graph.set_position(node, bridge_node, &bridge, bridge.len() > 1, below);
        i += 1;
    }
    true
}

impl EditorView {
    /// Whether the commit that a reference points at is gone.
    pub open spec fn dangles(self) -> spec_fn(Member) -> bool {
        |m: Member| self.resolve(m.1.on) is None
    }

    /// The graph after each reference whose commit is gone points at `onto`.
    pub open spec fn readopted(self, onto: EditorGraphIndex) -> EditorView {
        let dangling = self.placed().filter(self.dangles()).map_values(|m: Member| m.0);
        self.rekeyed(dangling, onto, dangling.len() as int)
    }
}

/// Points each reference whose commit is gone at `onto`, with all else of its position as it was.
pub fn readopt_dangling_refs(graph: &mut EditorGraph, onto: EditorGraphIndex)
    ensures
        final(graph)@ == old(graph)@.readopted(onto),
{
    let ghost keep = graph@.dangles();
    let reader: &EditorGraph = graph;
    let test = |m: &Member| -> (r: bool)
        ensures
            r == keep(*m),
        { resolve_to_pick(reader, m.1.on).is_none() };
    let kept = kept_refs(reader.positioned_refs(), test, Ghost(keep));
    let dangling = ref_nodes(&kept);
    rekey(graph, &dangling, onto);
}

/// Which side of a split the reference at which a chain is split goes to.
#[derive(Debug, Clone, Copy, PartialEq, Eq, Structural)]
pub enum SplitBoundary {
    /// What is strictly above the reference moves up.
    Above,
    /// The reference moves up, and what is above it.
    At,
}

/// A chain that was split around a commit.
pub struct ChainSplit {
    /// What was left behind, with where it sat before the split.
    pub lower: Vec<Member>,
    /// Whether anything moved up.
    pub moved_any: bool,
}

impl EditorView {
    /// The graph after those of the first `n` members that move point at `upper`, and what the last
    /// of them that was at the boundary sat on.
    pub open spec fn upper_moved(
        self,
        members: Seq<Member>,
        moved: Seq<EditorGraphIndex>,
        upper: EditorGraphIndex,
        n: int,
    ) -> (EditorView, Option<EditorGraphIndex>)
        decreases n,
    {
        if n <= 0 {
            (self, None)
        } else {
            let (before, sat_on) = self.upper_moved(members, moved, upper, n - 1);
            let (node, member) = members[n - 1];
            if moved.contains(node) {
                let keyed = before.rekey_position(node, upper);
                if member.below matches Some(b) && moved.contains(b) {
                    (keyed, sat_on)
                } else {
                    (keyed.set_below(node, None), member.below)
                }
            } else {
                (before, sat_on)
            }
        }
    }

    /// What moves up when the chain is split at the reference.
    pub open spec fn split_off(self, at: EditorGraphIndex, boundary: SplitBoundary) -> Seq<
        EditorGraphIndex,
    > {
        let above = subtree(self.chain(at), at);
        if boundary is Above {
            above.skip(1)
        } else {
            above
        }
    }

    /// The graph after the chain was split, with what moves up on `upper`.
    pub open spec fn split_chain(
        self,
        at: EditorGraphIndex,
        boundary: SplitBoundary,
        upper: EditorGraphIndex,
    ) -> EditorView {
        if self.position(at) is None {
            self
        } else {
            let members = self.chain(at);
            let moved = self.split_off(at, boundary);
            let (up, sat_on) = self.upper_moved(members, moved, upper, members.len() as int);
            up.rehung(up.placed().filter(stranded(moved)), sat_on)
        }
    }
}

/// Whether a reference sits on something that moves, and does not move.
pub open spec fn stranded(moved: Seq<EditorGraphIndex>) -> spec_fn(Member) -> bool {
    |m: Member| !moved.contains(m.0) && (m.1.below matches Some(b) && moved.contains(b))
}

/// Whether a reference does not move.
pub open spec fn stays(moved: Seq<EditorGraphIndex>) -> spec_fn(Member) -> bool {
    |m: Member| !moved.contains(m.0)
}

/// Splits the chain of the reference around a commit that comes into it. What is above the boundary
/// points at `upper`, with the member at the boundary at the bottom there; what is below it stays,
/// and is returned to be settled. What rests on the part that moved, without moving itself, sits on
/// what that part sat on.
pub fn split_chain(
    graph: &mut EditorGraph,
    at_ref: EditorGraphIndex,
    boundary: SplitBoundary,
    upper: EditorGraphIndex,
) -> (r: ChainSplit)
    ensures
        final(graph)@ == old(graph)@.split_chain(at_ref, boundary, upper),
        old(graph)@.position(at_ref) is None ==> r.lower@.len() == 0 && !r.moved_any,
        old(graph)@.position(at_ref) is Some ==> {
            let moved = old(graph)@.split_off(at_ref, boundary);
            &&& r.lower@ == old(graph)@.chain(at_ref).filter(stays(moved))
            &&& r.moved_any == (moved.len() > 0)
        },
        forall|i: int|
            0 <= i < r.lower@.len() ==> final(graph)@.has_ref((#[trigger] r.lower@[i]).0),
{
    if graph.position_of(at_ref).is_none() {
        return ChainSplit { lower: Vec::new(), moved_any: false };
    }
    let n: usize = graph.fits();
    let ghost start = graph@;
    let members = chain_members(graph, at_ref);
    proof {
        start.lemma_placed();
        lemma_filter_different(
            start.placed(),
            |m: Member|
                start.approach(m.0) == start.approach(at_ref) && start.resolve(m.1.on)
                    == start.resolve(start.position(at_ref)->0.on),
        );
    }
    let above = take_subtree(&members, at_ref);
    let moved = match boundary {
        SplitBoundary::Above => rest_of(&above),
        SplitBoundary::At => above,
    };
    assert(moved@ == start.split_off(at_ref, boundary));
    let ghost keep = stays(moved@);
    let mut lower: Vec<Member> = Vec::new();
    let mut sat_on: Option<EditorGraphIndex> = None;
    let mut i: usize = 0;
    proof {
        lemma_filter_none(members@, keep);
    }
    while i < members.len()
        invariant
            i <= members@.len(),
            keep == stays(moved@),
            lower@ == members@.take(i as int).filter(keep),
            graph@.refs.len() == start.refs.len(),
            (graph@, sat_on) == start.upper_moved(members@, moved@, upper, i as int),
        decreases members.len() - i,
    {
        proof {
            lemma_filter_take(members@, keep, i as int);
        }
        let (node, member) = members[i];
        if list_contains(&moved, &node) {
            graph.rekey_position(node, upper);
            let inside: bool = match member.below {
                Some(b) => list_contains(&moved, &b),
                None => false,
            };
            if !inside {
                sat_on = member.below;
                graph.set_below(node, None);
            }
        } else {
            lower.push((node, member));
        }
        i += 1;
    }
    proof {
        lemma_take_all(members@);
        lemma_chain_has_refs(start, at_ref);
        lemma_kept_has_refs(start, members@, keep);
    }
    let ghost off = stranded(moved@);
    let test = |m: &Member| -> (r: bool)
        ensures
            r == off(*m),
        {
            !list_contains(&moved, &m.0) && (match m.1.below {
                Some(b) => list_contains(&moved, &b),
                None => false,
            })
        };
    let left = kept_refs(graph.positioned_refs(), test, Ghost(off));
    rehang(graph, &left, sat_on);
    ChainSplit { lower, moved_any: moved.len() > 0 }
}

/// Settles what a split has left behind: each stays where it sat, and is approached through the leg
/// that descends from the commit which came into the chain.
pub fn settle_chain_lower(graph: &mut EditorGraph, lower: &Vec<Member>, leg: EditorLeg)
    requires
        forall|i: int| 0 <= i < lower@.len() ==> old(graph)@.has_ref((#[trigger] lower@[i]).0),
    ensures
        final(graph)@ == old(graph)@.settled(lower@, seq![leg], false, lower@.len() as int),
{
    let mut approach: Vec<EditorLeg> = Vec::new();
    approach.push(leg);
    assert(approach@ =~= seq![leg]);
    settle(graph, lower, &approach, false);
}

} // verus!
