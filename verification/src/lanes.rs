//! Lanes: the references above one node that share what descends into them.

use crate::collections::SortedMap;
use crate::order::{increasing, models, sort, sorted, Key};
use crate::seqs::{
    first_among, first_where, lemma_filter_none, lemma_filter_take, lemma_first_among,
    lemma_first_found, lemma_push_contains, lemma_take_all,
};
use vstd::prelude::*;

verus! {

/// The index of a node.
pub trait Place: Key<Model = Self> + Copy {
    /// The model is the index itself.
    proof fn lemma_model(&self)
        ensures
            self.model() == *self,
    ;

    /// Whether both are the same index.
    fn same(&self, other: &Self) -> (r: bool)
        ensures
            r == (*self == *other),
    ;
}

impl Place for usize {
    proof fn lemma_model(&self) {
    }

    fn same(&self, other: &usize) -> (r: bool) {
        *self == *other
    }
}

/// How many of the legs into its node a lane carries.
#[derive(Debug, Clone, Copy, PartialEq, Eq, Structural)]
pub enum LaneCarry {
    /// Nothing descends into the lane.
    Nothing,
    /// Every leg into the node descends through the lane.
    All,
    /// This many legs descend through the lane.
    Count(usize),
}

/// The references above one node that share what descends into them.
#[derive(Debug)]
pub struct LaneRec<I> {
    /// The references, in no order.
    pub members: Vec<I>,
    /// How many of the legs into the node the lane carries.
    pub carry: LaneCarry,
    /// The legs that a lane carries which does not carry all or none.
    pub legs: Vec<(I, usize)>,
}

/// What a [`LaneRec`] stands for.
#[verifier::ext_equal]
#[verifier::reject_recursive_types(I)]
pub struct LaneView<I> {
    /// The references, in no order.
    pub members: Seq<I>,
    /// How many of the legs into the node the lane carries.
    pub carry: LaneCarry,
    /// The legs that a lane carries which does not carry all or none.
    pub legs: Seq<(I, usize)>,
}

impl<I> View for LaneRec<I> {
    type V = LaneView<I>;

    open spec fn view(&self) -> LaneView<I> {
        LaneView { members: self.members@, carry: self.carry, legs: self.legs@ }
    }
}

/// What the lanes stand for.
pub open spec fn lanes_view<I>(lanes: Seq<LaneRec<I>>) -> Seq<LaneView<I>> {
    lanes.map_values(|l: LaneRec<I>| l@)
}

/// The lanes above each node.
pub struct LaneTable<I: Place> {
    /// The lanes, by the node that they are above.
    pub table: SortedMap<I, Vec<LaneRec<I>>>,
}

impl<I: Place> LaneTable<I> {
    /// The lanes above each node.
    pub open spec fn view(self) -> Map<I, Seq<LaneView<I>>> {
        self.table@.map_values(|lanes: Vec<LaneRec<I>>| lanes_view(lanes@))
    }

    /// No lanes.
    pub fn new() -> (r: Self)
        ensures
            r@ == Map::<I, Seq<LaneView<I>>>::empty(),
    {
        let r = LaneTable { table: SortedMap::new() };
        assert(r@ =~= Map::empty());
        r
    }
}

/// A leg into a node: the node that it comes from, and which of that node's parents it is.
pub type Leg<I> = (I, usize);

/// Whether both are the same leg.
pub fn same_leg<I: Place>(a: &(I, usize), b: &(I, usize)) -> (r: bool)
    ensures
        r == (*a == *b),
{
    a.0.same(&b.0) && a.1 == b.1
}

/// Whether the list holds the index.
pub fn list_contains<I: Place>(list: &Vec<I>, x: &I) -> (r: bool)
    ensures
        r == list@.contains(*x),
{
    let mut i: usize = 0;
    while i < list.len()
        invariant
            i <= list@.len(),
            forall|j: int| 0 <= j < i ==> list@[j] != *x,
        decreases list.len() - i,
    {
        if list[i].same(x) {
            return true;
        }
        i += 1;
    }
    false
}

/// Whether the list holds the leg.
pub fn legs_contain<I: Place>(list: &Vec<(I, usize)>, x: &(I, usize)) -> (r: bool)
    ensures
        r == list@.contains(*x),
{
    let mut i: usize = 0;
    while i < list.len()
        invariant
            i <= list@.len(),
            forall|j: int| 0 <= j < i ==> list@[j] != *x,
        decreases list.len() - i,
    {
        if same_leg(&list[i], x) {
            return true;
        }
        i += 1;
    }
    false
}

/// Whether both hold the same legs in the same order.
pub fn same_legs<I: Place>(a: &Vec<(I, usize)>, b: &Vec<(I, usize)>) -> (r: bool)
    ensures
        r == (a@ == b@),
{
    if a.len() != b.len() {
        return false;
    }
    let mut i: usize = 0;
    while i < a.len()
        invariant
            i <= a@.len(),
            a@.len() == b@.len(),
            forall|j: int| 0 <= j < i ==> a@[j] == b@[j],
        decreases a.len() - i,
    {
        if !same_leg(&a[i], &b[i]) {
            return false;
        }
        i += 1;
    }
    assert(a@ =~= b@);
    true
}

/// A copy of the legs.
pub fn clone_legs<I: Place>(legs: &Vec<(I, usize)>) -> (r: Vec<(I, usize)>)
    ensures
        r@ == legs@,
{
    let mut r: Vec<(I, usize)> = Vec::new();
    let mut i: usize = 0;
    while i < legs.len()
        invariant
            i <= legs@.len(),
            r@ =~= legs@.take(i as int),
        decreases legs.len() - i,
    {
        r.push(legs[i]);
        i += 1;
    }
    r
}

/// A copy of the list.
pub fn clone_list<I: Place>(list: &Vec<I>) -> (r: Vec<I>)
    ensures
        r@ == list@,
{
    let mut r: Vec<I> = Vec::new();
    let mut i: usize = 0;
    while i < list.len()
        invariant
            i <= list@.len(),
            r@ =~= list@.take(i as int),
        decreases list.len() - i,
    {
        r.push(list[i]);
        i += 1;
    }
    r
}

/// Legs are their own models.
pub proof fn lemma_leg_models<I: Place>(legs: Seq<(I, usize)>)
    ensures
        models(legs) == legs,
{
    assert forall|i: int| 0 <= i < legs.len() implies #[trigger] models(legs)[i] == legs[i] by {
        legs[i].0.lemma_model();
    }
    assert(models(legs) =~= legs);
}

/// The legs in ascending order.
pub fn sort_legs<I: Place>(legs: Vec<(I, usize)>) -> (r: Vec<(I, usize)>)
    ensures
        r@ == sorted::<(I, usize)>(legs@),
{
    proof {
        lemma_leg_models(legs@);
    }
    let r = sort(legs);
    proof {
        lemma_leg_models(r@);
    }
    r
}

/// The list without elements that equal the one before them.
pub open spec fn deduped<A>(s: Seq<A>) -> Seq<A>
    decreases s.len(),
{
    if s.len() <= 1 {
        s
    } else if s.last() == s[s.len() - 2] {
        deduped(s.drop_last())
    } else {
        deduped(s.drop_last()).push(s.last())
    }
}

/// The legs without those that equal the one before them.
pub fn dedup_legs<I: Place>(legs: &Vec<(I, usize)>) -> (r: Vec<(I, usize)>)
    ensures
        r@ == deduped(legs@),
{
    let mut r: Vec<(I, usize)> = Vec::new();
    let mut i: usize = 0;
    let ghost all = legs@;
    while i < legs.len()
        invariant
            i <= legs@.len(),
            all == legs@,
            r@ == deduped(all.take(i as int)),
        decreases legs.len() - i,
    {
        assert(all.take(i + 1).drop_last() =~= all.take(i as int));
        if i == 0 {
            r.push(legs[i]);
            assert(r@ =~= all.take(1));
        } else if !same_leg(&legs[i], &legs[i - 1]) {
            r.push(legs[i]);
        }
        i += 1;
    }
    assert(all.take(all.len() as int) =~= all);
    r
}

/// The lanes above `key`, none if nothing is above it.
pub open spec fn lanes_at<I>(lanes: Map<I, Seq<LaneView<I>>>, key: I) -> Seq<LaneView<I>> {
    if lanes.dom().contains(key) {
        lanes[key]
    } else {
        Seq::empty()
    }
}

/// The lane without the member `node`.
pub open spec fn without_member<I>(lane: LaneView<I>, node: I) -> LaneView<I> {
    LaneView { members: lane.members.filter(|m: I| m != node), ..lane }
}

/// The lanes without the member `node`, and without lanes that nobody is left in.
pub open spec fn lanes_without<I>(list: Seq<LaneView<I>>, node: I) -> Seq<LaneView<I>> {
    list.map_values(|l: LaneView<I>| without_member(l, node)).filter(
        |l: LaneView<I>| l.members.len() > 0,
    )
}

/// The table after `node` has left the lanes above `key`.
pub open spec fn left_lanes<I>(
    lanes: Map<I, Seq<LaneView<I>>>,
    node: I,
    key: I,
) -> Map<I, Seq<LaneView<I>>> {
    if !lanes.dom().contains(key) {
        lanes
    } else {
        let kept = lanes_without(lanes[key], node);
        if kept.len() == 0 {
            lanes.remove(key)
        } else {
            lanes.insert(key, kept)
        }
    }
}

/// Whether a lane is the one that carries this: lanes that carry some of the legs are told apart by
/// the legs, the others by how much they carry.
pub open spec fn carries<I>(lane: LaneView<I>, carry: LaneCarry, legs: Seq<(I, usize)>) -> bool {
    match carry {
        LaneCarry::Count(_) => lane.carry is Count && lane.legs == legs,
        _ => lane.carry == carry,
    }
}

/// The list with one more member in the lane at `i`.
pub open spec fn grown<I>(list: Seq<LaneView<I>>, i: int, node: I) -> Seq<LaneView<I>> {
    list.update(i, LaneView { members: list[i].members.push(node), ..list[i] })
}

/// The list after `node` has entered the lane that carries this, a new one if there is none.
pub open spec fn lanes_with<I>(
    list: Seq<LaneView<I>>,
    node: I,
    carry: LaneCarry,
    legs: Seq<(I, usize)>,
) -> Seq<LaneView<I>> {
    match first_where(list, |l: LaneView<I>| carries(l, carry, legs)) {
        Some(i) => grown(list, i, node),
        None => list.push(LaneView { members: seq![node], carry, legs }),
    }
}

/// The table after `node` has entered the lane above `key` that carries this.
pub open spec fn entered_lanes<I>(
    lanes: Map<I, Seq<LaneView<I>>>,
    node: I,
    key: I,
    carry: LaneCarry,
    legs: Seq<(I, usize)>,
) -> Map<I, Seq<LaneView<I>>> {
    lanes.insert(key, lanes_with(lanes_at(lanes, key), node, carry, legs))
}

/// Where in the list the lane of `node` is.
pub open spec fn lane_position<I>(list: Seq<LaneView<I>>, node: I) -> Option<int> {
    first_where(list, |l: LaneView<I>| l.members.contains(node))
}

/// The lane of `node` above `key`.
pub open spec fn lane_of<I>(lanes: Map<I, Seq<LaneView<I>>>, key: I, node: I) -> Option<
    LaneView<I>,
> {
    match lane_position(lanes_at(lanes, key), node) {
        Some(i) => Some(lanes_at(lanes, key)[i]),
        None => None,
    }
}

/// The table after `node` has entered the lane of `mate` above `key`, which there is.
pub open spec fn joined_lanes<I>(
    lanes: Map<I, Seq<LaneView<I>>>,
    node: I,
    mate: I,
    key: I,
) -> Map<I, Seq<LaneView<I>>> {
    let list = lanes_at(lanes, key);
    lanes.insert(key, grown(list, lane_position(list, mate)->0, node))
}

/// The lane without the member `node`.
fn member_removed<I: Place>(lane: LaneRec<I>, node: I) -> (r: LaneRec<I>)
    ensures
        r@ == without_member(lane@, node),
{
    let mut members: Vec<I> = Vec::new();
    let ghost all = lane.members@;
    let ghost keep = |m: I| m != node;
    let mut i: usize = 0;
    proof {
        lemma_filter_none(all, keep);
    }
    while i < lane.members.len()
        invariant
            i <= lane.members@.len(),
            all == lane.members@,
            keep == (|m: I| m != node),
            members@ == all.take(i as int).filter(keep),
        decreases lane.members.len() - i,
    {
        proof {
            lemma_filter_take(all, keep, i as int);
        }
        if !lane.members[i].same(&node) {
            members.push(lane.members[i]);
        }
        i += 1;
    }
    proof {
        lemma_take_all(all);
    }
    LaneRec { members, carry: lane.carry, legs: lane.legs }
}

impl<I: Place> LaneTable<I> {
    /// `node` leaves the lanes above `key`.
    pub fn remove_member(&mut self, node: I, key: I)
        ensures
            final(self)@ == left_lanes(old(self)@, node, key),
    {
        let ghost before = self@;
        proof {
            key.lemma_model();
        }
        match self.table.remove(&key) {
            None => {
                assert(self@ =~= before);
            },
            Some(lanes) => {
                let ghost list = lanes_view(lanes@);
                assert(before[key] == list);
                let ghost given = lanes@;
                let ghost thin = |l: LaneView<I>| without_member(l, node);
                let ghost keep = |l: LaneView<I>| l.members.len() > 0;
                let ghost thinned = list.map_values(thin);
                let mut kept: Vec<LaneRec<I>> = Vec::new();
                proof {
                    lemma_filter_none(thinned, keep);
                    assert(lanes_view(kept@) =~= thinned.take(0).filter(keep));
                }
                for lane in it: lanes
                    invariant
                        it.seq() == given,
                        list == lanes_view(given),
                        thin == (|l: LaneView<I>| without_member(l, node)),
                        keep == (|l: LaneView<I>| l.members.len() > 0),
                        thinned == list.map_values(thin),
                        lanes_view(kept@) == thinned.take(it.index() as int).filter(keep),
                {
                    proof {
                        lemma_filter_take(thinned, keep, it.index() as int);
                    }
                    let lane = member_removed(lane, node);
                    assert(lane@ == thinned[it.index() as int]);
                    if lane.members.len() > 0 {
                        let ghost so_far = kept@;
                        kept.push(lane);
                        assert(lanes_view(kept@) =~= lanes_view(so_far).push(lane@));
                    }
                }
                proof {
                    lemma_take_all(thinned);
                    assert(lanes_view(kept@) == lanes_without(list, node));
                    assert(lanes_view(kept@).len() == kept@.len());
                }
                if kept.len() > 0 {
                    self.table.insert(key, kept);
                    assert(self@ =~= before.insert(key, lanes_view(kept@)));
                } else {
                    assert(self@ =~= before.remove(key));
                }
            },
        }
    }

    /// Takes the lanes above `key` out of the table.
    fn take_lanes(&mut self, key: I) -> (r: Vec<LaneRec<I>>)
        ensures
            lanes_view(r@) == lanes_at(old(self)@, key),
            final(self)@ == old(self)@.remove(key),
    {
        let ghost before = self@;
        proof {
            key.lemma_model();
        }
        let r = match self.table.remove(&key) {
            Some(lanes) => lanes,
            None => Vec::new(),
        };
        assert(self@ =~= before.remove(key));
        assert(lanes_view(r@) =~= lanes_at(before, key));
        r
    }

    /// Puts the lanes above `key`, in place of those that are there.
    pub fn replace(&mut self, key: I, lanes: Vec<LaneRec<I>>)
        ensures
            final(self)@ == old(self)@.insert(key, lanes_view(lanes@)),
    {
        let ghost before = self@;
        proof {
            key.lemma_model();
        }
        self.table.insert(key, lanes);
        assert(self@ =~= before.insert(key, lanes_view(lanes@)));
    }

    /// `node` enters the lane above `key` that carries this, a new one if there is none.
    pub fn insert_member(&mut self, node: I, key: I, carry: LaneCarry, legs: Vec<(I, usize)>)
        ensures
            final(self)@ == entered_lanes(old(self)@, node, key, carry, legs@),
    {
        let ghost before = self@;
        let mut lanes = self.take_lanes(key);
        let ghost list = lanes_view(lanes@);
        let ghost test = |l: LaneView<I>| carries(l, carry, legs@);
        let mut i: usize = 0;
        while i < lanes.len()
            invariant
                i <= lanes@.len(),
                list == lanes_view(lanes@),
                test == (|l: LaneView<I>| carries(l, carry, legs@)),
                list == lanes_at(before, key),
                before == old(self)@,
                self@ == before.remove(key),
                first_among(list, test, i as int) is None,
            decreases lanes.len() - i,
        {
            let lane = &lanes[i];
            assert(list[i as int] == lane@);
            let found: bool = match carry {
                LaneCarry::Count(_) => match lane.carry {
                    LaneCarry::Count(_) => same_legs(&lane.legs, &legs),
                    _ => false,
                },
                _ => lane.carry == carry,
            };
            if found {
                proof {
                    lemma_first_found(list, test, i as int);
                }
                lanes[i].members.push(node);
                assert(lanes_view(lanes@) =~= grown(list, i as int, node));
                self.replace(key, lanes);
                assert(self@ =~= entered_lanes(before, node, key, carry, legs@));
                return;
            }
            i += 1;
        }
        let mut members: Vec<I> = Vec::new();
        members.push(node);
        assert(members@ =~= seq![node]);
        lanes.push(LaneRec { members, carry, legs });
        assert(lanes_view(lanes@) =~= list.push(
            LaneView { members: seq![node], carry, legs: legs@ },
        ));
        self.replace(key, lanes);
        assert(self@ =~= entered_lanes(before, node, key, carry, legs@));
    }

    /// `node` enters the lane of `mate` above `key`; the result is whether there is one.
    pub fn join_member(&mut self, node: I, mate: I, key: I) -> (joined: bool)
        ensures
            joined == (lane_of(old(self)@, key, mate) is Some),
            joined ==> final(self)@ == joined_lanes(old(self)@, node, mate, key),
            !joined ==> final(self)@ == old(self)@,
    {
        let ghost before = self@;
        proof {
            key.lemma_model();
        }
        if !self.table.contains_key(&key) {
            assert(lanes_at(before, key).len() == 0);
            return false;
        }
        let mut lanes = self.take_lanes(key);
        let ghost list = lanes_view(lanes@);
        let ghost test = |l: LaneView<I>| l.members.contains(mate);
        let mut i: usize = 0;
        while i < lanes.len()
            invariant
                i <= lanes@.len(),
                list == lanes_view(lanes@),
                test == (|l: LaneView<I>| l.members.contains(mate)),
                list == lanes_at(before, key),
                before == old(self)@,
                self@ == before.remove(key),
                first_among(list, test, i as int) is None,
            decreases lanes.len() - i,
        {
            assert(list[i as int] == lanes@[i as int]@);
            if list_contains(&lanes[i].members, &mate) {
                proof {
                    lemma_first_found(list, test, i as int);
                }
                lanes[i].members.push(node);
                assert(lanes_view(lanes@) =~= grown(list, i as int, node));
                self.replace(key, lanes);
                assert(self@ =~= joined_lanes(before, node, mate, key));
                return true;
            }
            i += 1;
        }
        self.replace(key, lanes);
        assert(self@ =~= before);
        false
    }

    /// The lane of `node` above `key`.
    pub fn find(&self, key: I, node: I) -> (r: Option<&LaneRec<I>>)
        ensures
            r is Some <==> lane_of(self@, key, node) is Some,
            r matches Some(lane) ==> lane_of(self@, key, node) == Some(lane@),
    {
        proof {
            key.lemma_model();
        }
        match self.table.get(&key) {
            None => {
                assert(lanes_at(self@, key).len() == 0);
                None
            },
            Some(lanes) => {
                let ghost list = lanes_view(lanes@);
                assert(lanes_at(self@, key) == list);
                let ghost test = |l: LaneView<I>| l.members.contains(node);
                let mut i: usize = 0;
                while i < lanes.len()
                    invariant
                        i <= lanes@.len(),
                        list == lanes_view(lanes@),
                        list == lanes_at(self@, key),
                        test == (|l: LaneView<I>| l.members.contains(node)),
                        first_among(list, test, i as int) is None,
                    decreases lanes.len() - i,
                {
                    assert(list[i as int] == lanes@[i as int]@);
                    if list_contains(&lanes[i].members, &node) {
                        proof {
                            lemma_first_found(list, test, i as int);
                        }
                        return Some(&lanes[i]);
                    }
                    i += 1;
                }
                None
            },
        }
    }
}

/// A change of single lanes that leaves their members alone.
pub trait LaneEdit<I: Place> {
    /// The lane after the change.
    spec fn edited(&self, lane: LaneView<I>) -> LaneView<I>;

    /// Makes the change.
    fn edit(&self, lane: &LaneRec<I>) -> (r: LaneRec<I>)
        ensures
            r@ == self.edited(lane@),
    ;
}

/// The table after a change of each of its lanes.
pub open spec fn edited_lanes<I: Place, E: LaneEdit<I>>(
    lanes: Map<I, Seq<LaneView<I>>>,
    edit: E,
) -> Map<I, Seq<LaneView<I>>> {
    lanes.map_values(|list: Seq<LaneView<I>>| list.map_values(|l: LaneView<I>| edit.edited(l)))
}

/// The list after a change of each of its lanes.
fn edit_list<I: Place, E: LaneEdit<I>>(lanes: &Vec<LaneRec<I>>, edit: &E) -> (r: Vec<LaneRec<I>>)
    ensures
        lanes_view(r@) == lanes_view(lanes@).map_values(|l: LaneView<I>| edit.edited(l)),
{
    let ghost f = |l: LaneView<I>| edit.edited(l);
    let ghost goal = lanes_view(lanes@).map_values(f);
    let mut r: Vec<LaneRec<I>> = Vec::new();
    let mut i: usize = 0;
    while i < lanes.len()
        invariant
            i <= lanes@.len(),
            f == (|l: LaneView<I>| edit.edited(l)),
            goal == lanes_view(lanes@).map_values(f),
            lanes_view(r@) =~= goal.take(i as int),
        decreases lanes.len() - i,
    {
        let ghost before = r@;
        let lane = edit.edit(&lanes[i]);
        assert(lane@ == goal[i as int]);
        r.push(lane);
        assert(lanes_view(r@) =~= lanes_view(before).push(lane@));
        i += 1;
    }
    r
}

impl<I: Place> LaneTable<I> {
    /// Changes each lane.
    pub fn edit_all<E: LaneEdit<I>>(&mut self, edit: &E)
        ensures
            final(self)@ == edited_lanes(old(self)@, *edit),
    {
        let ghost before = self@;
        let ghost f = |list: Seq<LaneView<I>>|
            list.map_values(|l: LaneView<I>| edit.edited(l));
        let mut table: SortedMap<I, Vec<LaneRec<I>>> = SortedMap::new();
        let n: usize = self.table.len();
        let ghost keys = self.table.keys();
        let ghost values = self.table.values();
        let mut i: usize = 0;
        while i < n
            invariant
                i <= n,
                n == keys.len(),
                n == values.len(),
                keys == self.table.keys(),
                values == self.table.values(),
                f == (|list: Seq<LaneView<I>>|
                    list.map_values(|l: LaneView<I>| edit.edited(l))),
                increasing::<I>(keys),
                table@.dom() =~= keys.take(i as int).to_set(),
                forall|j: int|
                    0 <= j < i ==> lanes_view((#[trigger] table@[keys[j]])@) == f(
                        lanes_view(values[j]@),
                    ),
            decreases n - i,
        {
            let key = *self.table.key_at(i);
            proof {
                key.lemma_model();
            }
            let lanes = edit_list(self.table.value_at(i), edit);
            let ghost so_far = table@;
            table.insert(key, lanes);
            proof {
                let now = keys.take(i + 1);
                assert(now =~= keys.take(i as int).push(key));
                assert forall|x: I| now.to_set().contains(x) <==> keys.take(
                    i as int,
                ).to_set().contains(x) || x == key by {
                    lemma_push_contains(keys.take(i as int), key, x);
                }
                assert forall|j: int| 0 <= j < i + 1 implies lanes_view(
                    (#[trigger] table@[keys[j]])@,
                ) == f(lanes_view(values[j]@)) by {
                    if j < i {
                        I::lt_irreflexive(key);
                        assert(I::lt(keys[j], keys[i as int]));
                        assert(keys[j] != key);
                        assert(table@[keys[j]] == so_far[keys[j]]);
                    }
                }
            }
            i += 1;
        }
        proof {
            lemma_take_all(keys);
            let goal = edited_lanes(before, *edit);
            assert(goal.dom() =~= self.table@.dom());
            assert(self.table@.dom() =~= keys.to_set());
            assert forall|k: I| goal.dom().contains(k) implies lanes_view(
                (#[trigger] table@[k])@,
            ) == goal[k] by {
                assert(keys.contains(k));
                let j = choose|j: int| 0 <= j < keys.len() && keys[j] == k;
                assert(self.table@[keys[j]] == values[j]);
            }
        }
        self.table = table;
        assert(self@ =~= edited_lanes(before, *edit));
    }
}

/// Whether a leg is this one.
pub open spec fn is_leg<I>(leg: (I, usize)) -> spec_fn((I, usize)) -> bool {
    |l: (I, usize)| l == leg
}

/// The legs after the first of them that is `old` has become `new`, ascending and each once.
pub open spec fn renamed_legs<I: Place>(
    legs: Seq<(I, usize)>,
    old_leg: (I, usize),
    new_leg: (I, usize),
) -> Seq<(I, usize)> {
    match first_where(legs, is_leg(old_leg)) {
        Some(at) => deduped(sorted::<(I, usize)>(legs.update(at, new_leg))),
        None => legs,
    }
}

/// The legs after the first of them that is `old` has become `new`, if one is.
pub fn rename_in_legs<I: Place>(
    legs: &Vec<(I, usize)>,
    old_leg: (I, usize),
    new_leg: (I, usize),
) -> (r: Option<Vec<(I, usize)>>)
    ensures
        r is Some <==> legs@.contains(old_leg),
        r matches Some(renamed) ==> renamed@ == renamed_legs(legs@, old_leg, new_leg),
        r is None ==> legs@ == renamed_legs(legs@, old_leg, new_leg),
{
    let ghost test = is_leg(old_leg);
    let ghost all = legs@;
    let mut i: usize = 0;
    while i < legs.len()
        invariant
            i <= legs@.len(),
            all == legs@,
            test == is_leg(old_leg),
            first_among(all, test, i as int) is None,
        decreases legs.len() - i,
    {
        if same_leg(&legs[i], &old_leg) {
            proof {
                lemma_first_found(all, test, i as int);
            }
            let mut renamed = clone_legs(legs);
            renamed.set(i, new_leg);
            let renamed = sort_legs(renamed);
            return Some(dedup_legs(&renamed));
        }
        i += 1;
    }
    proof {
        lemma_first_among(all, test, all.len() as int);
    }
    None
}

/// How much is carried by as many legs as there are, where not all or none are.
pub open spec fn recounted<I>(carry: LaneCarry, legs: Seq<(I, usize)>) -> LaneCarry {
    match carry {
        LaneCarry::Count(_) => LaneCarry::Count(legs.len() as usize),
        other => other,
    }
}

/// How much is carried by as many legs as there are, where not all or none are.
pub fn recount(carry: LaneCarry, n: usize) -> (r: LaneCarry)
    ensures
        r == (match carry {
            LaneCarry::Count(_) => LaneCarry::Count(n),
            other => other,
        }),
{
    match carry {
        LaneCarry::Count(_) => LaneCarry::Count(n),
        other => other,
    }
}

/// A leg gets a new name.
pub struct RenameLeg<I> {
    /// The name that the leg had.
    pub old_leg: (I, usize),
    /// The name that the leg has now.
    pub new_leg: (I, usize),
}

impl<I: Place> LaneEdit<I> for RenameLeg<I> {
    open spec fn edited(&self, lane: LaneView<I>) -> LaneView<I> {
        if lane.legs.contains(self.old_leg) {
            let legs = renamed_legs(lane.legs, self.old_leg, self.new_leg);
            LaneView { members: lane.members, carry: recounted(lane.carry, legs), legs }
        } else {
            lane
        }
    }

    fn edit(&self, lane: &LaneRec<I>) -> (r: LaneRec<I>) {
        match rename_in_legs(&lane.legs, self.old_leg, self.new_leg) {
            Some(legs) => LaneRec {
                members: clone_list(&lane.members),
                carry: recount(lane.carry, legs.len()),
                legs,
            },
            None => LaneRec {
                members: clone_list(&lane.members),
                carry: lane.carry,
                legs: clone_legs(&lane.legs),
            },
        }
    }
}

/// The leg, if it is still there once the one at `slot` of `node` is gone: those behind it move up.
pub open spec fn moved_up<I>(leg: (I, usize), node: I, slot: usize) -> (I, usize) {
    if leg.0 == node && leg.1 > slot {
        (leg.0, (leg.1 - 1) as usize)
    } else {
        leg
    }
}

/// The legs once the one at `slot` of `node` is gone.
pub open spec fn legs_less<I>(legs: Seq<(I, usize)>, node: I, slot: usize) -> Seq<(I, usize)> {
    legs.filter(|l: (I, usize)| l != (node, slot)).map_values(
        |l: (I, usize)| moved_up(l, node, slot),
    )
}

/// The leg at `slot` of `node` goes, and those behind it move up.
pub struct DropLeg<I> {
    /// Where the leg comes from.
    pub node: I,
    /// Which parent of that node it is.
    pub slot: usize,
}

impl<I: Place> LaneEdit<I> for DropLeg<I> {
    open spec fn edited(&self, lane: LaneView<I>) -> LaneView<I> {
        let legs = legs_less(lane.legs, self.node, self.slot);
        LaneView { members: lane.members, carry: recounted(lane.carry, legs), legs }
    }

    fn edit(&self, lane: &LaneRec<I>) -> (r: LaneRec<I>) {
        let ghost all = lane.legs@;
        let ghost keep = |l: (I, usize)| l != (self.node, self.slot);
        let ghost up = |l: (I, usize)| moved_up(l, self.node, self.slot);
        let mut legs: Vec<(I, usize)> = Vec::new();
        let mut i: usize = 0;
        proof {
            lemma_filter_none(all, keep);
        }
        while i < lane.legs.len()
            invariant
                i <= lane.legs@.len(),
                all == lane.legs@,
                keep == (|l: (I, usize)| l != (self.node, self.slot)),
                up == (|l: (I, usize)| moved_up(l, self.node, self.slot)),
                legs@ =~= all.take(i as int).filter(keep).map_values(up),
            decreases lane.legs.len() - i,
        {
            proof {
                lemma_filter_take(all, keep, i as int);
            }
            let leg = lane.legs[i];
            if leg.0.same(&self.node) {
                if leg.1 > self.slot {
                    legs.push((leg.0, leg.1 - 1));
                } else if leg.1 < self.slot {
                    legs.push(leg);
                }
            } else {
                legs.push(leg);
            }
            i += 1;
        }
        proof {
            lemma_take_all(all);
        }
        LaneRec { members: clone_list(&lane.members), carry: recount(lane.carry, legs.len()), legs }
    }
}

/// How often `node` is a member of one of the first `n` lanes.
pub open spec fn memberships<I>(list: Seq<LaneView<I>>, node: I, n: int) -> nat
    decreases n,
{
    if n <= 0 {
        0
    } else {
        memberships(list, node, n - 1) + list[n - 1].members.to_multiset().count(node)
    }
}

/// Each node is a member of one lane exactly if it has a place, once, above that place, and no lane
/// is without members.
pub open spec fn lanes_agree<I>(
    lanes: Map<I, Seq<LaneView<I>>>,
    place_of: spec_fn(I) -> Option<I>,
) -> bool {
    &&& forall|key: I, node: I| #[trigger]
        memberships(lanes_at(lanes, key), node, lanes_at(lanes, key).len() as int) == if place_of(
            node,
        ) == Some(key) {
            1nat
        } else {
            0nat
        }
    &&& forall|key: I| #[trigger]
        lanes.dom().contains(key) ==> lanes[key].len() > 0 && forall|i: int|
            0 <= i < lanes[key].len() ==> (#[trigger] lanes[key][i]).members.len() > 0
}

/// The memberships in the first lanes depend on the members of those lanes alone.
proof fn lemma_memberships_frame<I>(
    a: Seq<LaneView<I>>,
    b: Seq<LaneView<I>>,
    node: I,
    n: int,
)
    requires
        n <= a.len(),
        n <= b.len(),
        forall|i: int| 0 <= i < n ==> (#[trigger] a[i]).members == b[i].members,
    ensures
        memberships(a, node, n) == memberships(b, node, n),
    decreases n,
{
    if n > 0 {
        lemma_memberships_frame(a, b, node, n - 1);
        assert(a[n - 1].members == b[n - 1].members);
    }
}

/// One more lane adds what it holds of the node.
pub proof fn lemma_memberships_push<I>(list: Seq<LaneView<I>>, lane: LaneView<I>, node: I)
    ensures
        memberships(list.push(lane), node, (list.len() + 1) as int) == memberships(
            list,
            node,
            list.len() as int,
        ) + lane.members.to_multiset().count(node),
{
    lemma_memberships_frame(list.push(lane), list, node, list.len() as int);
}

proof fn lemma_filter_count<I>(s: Seq<I>, node: I, x: I)
    ensures
        s.filter(|m: I| m != node).to_multiset().count(x) == if x == node {
            0
        } else {
            s.to_multiset().count(x)
        },
    decreases s.len(),
{
    broadcast use vstd::seq_lib::group_to_multiset_ensures;

    reveal(Seq::filter);
    if s.len() > 0 {
        lemma_filter_count(s.drop_last(), node, x);
        assert(s =~= s.drop_last().push(s.last()));
    } else {
        assert(s =~= Seq::empty());
        assert(s.filter(|m: I| m != node) =~= Seq::empty());
    }
}

proof fn lemma_lanes_without<I>(list: Seq<LaneView<I>>, node: I, x: I)
    ensures
        memberships(lanes_without(list, node), x, lanes_without(list, node).len() as int)
            == if x == node {
            0
        } else {
            memberships(list, x, list.len() as int)
        },
        forall|i: int|
            0 <= i < lanes_without(list, node).len() ==> (#[trigger] lanes_without(
                list,
                node,
            )[i]).members.len() > 0,
    decreases list.len(),
{
    broadcast use vstd::seq_lib::group_to_multiset_ensures;

    reveal(Seq::filter);
    let thin = |l: LaneView<I>| without_member(l, node);
    let keep = |l: LaneView<I>| l.members.len() > 0;
    let thinned = list.map_values(thin);
    if list.len() > 0 {
        let d = list.drop_last();
        lemma_lanes_without(d, node, x);
        assert(list =~= d.push(list.last()));
        assert(thinned.drop_last() =~= d.map_values(thin));
        lemma_memberships_push(d, list.last(), x);
        let last = without_member(list.last(), node);
        assert(thinned.last() == last);
        lemma_filter_count(list.last().members, node, x);
        if last.members.len() > 0 {
            assert(lanes_without(list, node) == lanes_without(d, node).push(last));
            lemma_memberships_push(lanes_without(d, node), last, x);
        } else {
            assert(lanes_without(list, node) == lanes_without(d, node));
            assert(last.members =~= Seq::empty());
        }
    } else {
        assert(lanes_without(list, node).len() == 0);
    }
}

proof fn lemma_grown_from<I>(list: Seq<LaneView<I>>, i: int, node: I, x: I, n: int)
    requires
        0 <= i < list.len(),
        0 <= n <= list.len(),
    ensures
        memberships(grown(list, i, node), x, n) == memberships(list, x, n) + if x == node && i < n {
            1nat
        } else {
            0nat
        },
    decreases n,
{
    broadcast use vstd::seq_lib::group_to_multiset_ensures;

    if n > 0 {
        lemma_grown_from(list, i, node, x, n - 1);
        let g = grown(list, i, node);
        if n - 1 == i {
            assert(g[n - 1].members == list[i].members.push(node));
        } else {
            assert(g[n - 1] == list[n - 1]);
        }
    }
}

proof fn lemma_lanes_with<I>(
    list: Seq<LaneView<I>>,
    node: I,
    carry: LaneCarry,
    legs: Seq<(I, usize)>,
    x: I,
)
    ensures
        ({
            let now = lanes_with(list, node, carry, legs);
            memberships(now, x, now.len() as int) == memberships(list, x, list.len() as int) + if x
                == node {
                1nat
            } else {
                0nat
            }
        }),
        lanes_with(list, node, carry, legs).len() > 0,
        (forall|i: int| 0 <= i < list.len() ==> (#[trigger] list[i]).members.len() > 0)
            ==> forall|i: int|
            0 <= i < lanes_with(list, node, carry, legs).len() ==> (#[trigger] lanes_with(
                list,
                node,
                carry,
                legs,
            )[i]).members.len() > 0,
{
    broadcast use vstd::seq_lib::group_to_multiset_ensures;

    let test = |l: LaneView<I>| carries(l, carry, legs);
    lemma_first_among(list, test, list.len() as int);
    match first_where(list, test) {
        Some(i) => {
            lemma_grown_from(list, i, node, x, list.len() as int);
        },
        None => {
            let lane = LaneView { members: seq![node], carry, legs };
            lemma_memberships_push(list, lane, x);
            assert(seq![node] =~= Seq::<I>::empty().push(node));
        },
    }
}

/// Lanes agree with the places after a node has left its lane and has no place any more.
pub proof fn lemma_left_lanes_agree<I>(
    lanes: Map<I, Seq<LaneView<I>>>,
    place_of: spec_fn(I) -> Option<I>,
    node: I,
    key: I,
)
    requires
        lanes_agree(lanes, place_of),
        place_of(node) == Some(key),
    ensures
        lanes_agree(
            left_lanes(lanes, node, key),
            |n: I|
                if n == node {
                    None
                } else {
                    place_of(n)
                },
        ),
{
    let after = left_lanes(lanes, node, key);
    let place_after = |n: I|
        if n == node {
            None
        } else {
            place_of(n)
        };
    let list = lanes_at(lanes, key);
    assert(memberships(list, node, list.len() as int) == 1);
    assert(lanes.dom().contains(key));
    assert forall|k: I, x: I| #[trigger]
        memberships(lanes_at(after, k), x, lanes_at(after, k).len() as int) == if place_after(x)
            == Some(k) {
            1nat
        } else {
            0nat
        } by {
        assert(memberships(lanes_at(lanes, k), x, lanes_at(lanes, k).len() as int) == if place_of(
            x,
        ) == Some(k) {
            1nat
        } else {
            0nat
        });
        if k == key {
            lemma_lanes_without(lanes[key], node, x);
            let kept = lanes_without(lanes[key], node);
            if kept.len() == 0 {
                assert(lanes_at(after, k) =~= kept);
            } else {
                assert(lanes_at(after, k) == kept);
            }
        } else {
            assert(lanes_at(after, k) == lanes_at(lanes, k));
        }
    }
    assert forall|k: I| #[trigger] after.dom().contains(k) implies after[k].len() > 0 && forall|
        i: int,
    |
        0 <= i < after[k].len() ==> (#[trigger] after[k][i]).members.len() > 0 by {
        if k == key {
            lemma_lanes_without(lanes[key], node, node);
        } else {
            assert(lanes.dom().contains(k));
            assert(after[k] == lanes[k]);
        }
    }
}

/// Lanes agree with the places after a node without a place has got one and entered a lane there.
pub proof fn lemma_entered_lanes_agree<I>(
    lanes: Map<I, Seq<LaneView<I>>>,
    place_of: spec_fn(I) -> Option<I>,
    node: I,
    key: I,
    carry: LaneCarry,
    legs: Seq<(I, usize)>,
)
    requires
        lanes_agree(lanes, place_of),
        place_of(node) is None,
    ensures
        lanes_agree(
            entered_lanes(lanes, node, key, carry, legs),
            |n: I|
                if n == node {
                    Some(key)
                } else {
                    place_of(n)
                },
        ),
{
    let list = lanes_at(lanes, key);
    let now = lanes_with(list, node, carry, legs);
    assert(lanes.dom().contains(key) ==> list == lanes[key]);
    assert forall|x: I| #[trigger]
        memberships(now, x, now.len() as int) == memberships(list, x, list.len() as int) + if x
            == node {
            1nat
        } else {
            0nat
        } by {
        lemma_lanes_with(list, node, carry, legs, x);
    }
    lemma_lanes_with(list, node, carry, legs, node);
    lemma_replaced_agree(lanes, place_of, node, key, now);
}

/// Lanes agree with the places after a node without a place has got the place of a mate and entered
/// the lane of the mate.
pub proof fn lemma_joined_lanes_agree<I>(
    lanes: Map<I, Seq<LaneView<I>>>,
    place_of: spec_fn(I) -> Option<I>,
    node: I,
    mate: I,
    key: I,
)
    requires
        lanes_agree(lanes, place_of),
        place_of(node) is None,
        lane_of(lanes, key, mate) is Some,
    ensures
        lanes_agree(
            joined_lanes(lanes, node, mate, key),
            |n: I|
                if n == node {
                    Some(key)
                } else {
                    place_of(n)
                },
        ),
{
    let list = lanes_at(lanes, key);
    let test = |l: LaneView<I>| l.members.contains(mate);
    lemma_first_among(list, test, list.len() as int);
    let i = lane_position(list, mate)->0;
    let now = grown(list, i, node);
    assert(lanes.dom().contains(key) ==> list == lanes[key]);
    assert forall|x: I| #[trigger]
        memberships(now, x, now.len() as int) == memberships(list, x, list.len() as int) + if x
            == node {
            1nat
        } else {
            0nat
        } by {
        lemma_grown_from(list, i, node, x, list.len() as int);
    }
    assert forall|j: int| 0 <= j < now.len() implies (#[trigger] now[j]).members.len() > 0 by {
        if j != i {
            assert(now[j] == list[j]);
        }
    }
    lemma_replaced_agree(lanes, place_of, node, key, now);
}

proof fn lemma_replaced_agree<I>(
    lanes: Map<I, Seq<LaneView<I>>>,
    place_of: spec_fn(I) -> Option<I>,
    node: I,
    key: I,
    now: Seq<LaneView<I>>,
)
    requires
        lanes_agree(lanes, place_of),
        place_of(node) is None,
        now.len() > 0,
        forall|j: int| 0 <= j < now.len() ==> (#[trigger] now[j]).members.len() > 0,
        forall|x: I| #[trigger]
            memberships(now, x, now.len() as int) == memberships(
                lanes_at(lanes, key),
                x,
                lanes_at(lanes, key).len() as int,
            ) + if x == node {
                1nat
            } else {
                0nat
            },
    ensures
        lanes_agree(
            lanes.insert(key, now),
            |n: I|
                if n == node {
                    Some(key)
                } else {
                    place_of(n)
                },
        ),
{
    let after = lanes.insert(key, now);
    let place_after = |n: I|
        if n == node {
            Some(key)
        } else {
            place_of(n)
        };
    assert forall|k: I, x: I| #[trigger]
        memberships(lanes_at(after, k), x, lanes_at(after, k).len() as int) == if place_after(x)
            == Some(k) {
            1nat
        } else {
            0nat
        } by {
        assert(memberships(lanes_at(lanes, k), x, lanes_at(lanes, k).len() as int) == if place_of(
            x,
        ) == Some(k) {
            1nat
        } else {
            0nat
        });
        if k == key {
            assert(lanes_at(after, k) == now);
            assert(memberships(now, x, now.len() as int) == memberships(
                lanes_at(lanes, key),
                x,
                lanes_at(lanes, key).len() as int,
            ) + if x == node {
                1nat
            } else {
                0nat
            });
        } else {
            assert(lanes_at(after, k) == lanes_at(lanes, k));
        }
    }
    assert forall|k: I| #[trigger] after.dom().contains(k) implies after[k].len() > 0 && forall|
        i: int,
    |
        0 <= i < after[k].len() ==> (#[trigger] after[k][i]).members.len() > 0 by {
        if k != key {
            assert(lanes.dom().contains(k));
            assert(after[k] == lanes[k]);
        }
    }
}

/// Lanes agree with the places after a change that leaves the members alone.
pub proof fn lemma_edited_lanes_agree<I: Place, E: LaneEdit<I>>(
    lanes: Map<I, Seq<LaneView<I>>>,
    place_of: spec_fn(I) -> Option<I>,
    edit: E,
)
    requires
        lanes_agree(lanes, place_of),
        forall|l: LaneView<I>| (#[trigger] edit.edited(l)).members == l.members,
    ensures
        lanes_agree(edited_lanes(lanes, edit), place_of),
{
    let after = edited_lanes(lanes, edit);
    assert forall|k: I, x: I| #[trigger]
        memberships(lanes_at(after, k), x, lanes_at(after, k).len() as int) == if place_of(x)
            == Some(k) {
            1nat
        } else {
            0nat
        } by {
        let list = lanes_at(lanes, k);
        assert(memberships(list, x, list.len() as int) == if place_of(x) == Some(k) {
            1nat
        } else {
            0nat
        });
        if lanes.dom().contains(k) {
            lemma_memberships_frame(lanes_at(after, k), list, x, list.len() as int);
        }
    }
    assert forall|k: I| #[trigger] after.dom().contains(k) implies after[k].len() > 0 && forall|
        i: int,
    |
        0 <= i < after[k].len() ==> (#[trigger] after[k][i]).members.len() > 0 by {
        assert(lanes.dom().contains(k));
        assert forall|i: int| 0 <= i < after[k].len() implies (#[trigger] after[k][i]).members.len()
            > 0 by {
            assert(lanes[k][i].members.len() > 0);
        }
    }
}

/// Two memberships of one lane or of two lanes are more than one.
proof fn lemma_one_lane<I>(list: Seq<LaneView<I>>, node: I, i: int, n: int)
    requires
        0 <= i < n <= list.len(),
        list[i].members.contains(node),
    ensures
        memberships(list, node, n) >= 1,
        forall|j: int|
            0 <= j < n && j != i && (#[trigger] list[j]).members.contains(node) ==> memberships(
                list,
                node,
                n,
            ) >= 2,
    decreases n,
{
    broadcast use vstd::seq_lib::group_to_multiset_ensures;

    if i < n - 1 {
        lemma_one_lane(list, node, i, n - 1);
        if list[n - 1].members.contains(node) {
            assert(list[n - 1].members.to_multiset().count(node) > 0);
        }
    } else {
        assert(list[n - 1].members.to_multiset().count(node) > 0);
        assert forall|j: int|
            0 <= j < n && j != i && (#[trigger] list[j]).members.contains(
                node,
            ) implies memberships(list, node, n) >= 2 by {
            lemma_one_lane(list, node, j, n - 1);
        }
    }
}

/// Where lanes agree with the places, a node with a place is found in a lane above it, and in no
/// other lane.
pub proof fn lemma_lane_found<I>(
    lanes: Map<I, Seq<LaneView<I>>>,
    place_of: spec_fn(I) -> Option<I>,
    node: I,
    key: I,
    i: int,
)
    requires
        lanes_agree(lanes, place_of),
        place_of(node) == Some(key),
        0 <= i < lanes_at(lanes, key).len(),
        lanes_at(lanes, key)[i].members.contains(node),
    ensures
        lane_of(lanes, key, node) == Some(lanes_at(lanes, key)[i]),
{
    let list = lanes_at(lanes, key);
    let test = |l: LaneView<I>| l.members.contains(node);
    lemma_first_among(list, test, list.len() as int);
    assert(memberships(list, node, list.len() as int) == 1);
    lemma_one_lane(list, node, i, list.len() as int);
    let j = lane_position(list, node)->0;
    if lane_position(list, node) is None {
        assert(!test(list[i]));
    } else if j != i {
        assert(test(list[j]));
        assert(list[j].members.contains(node));
    }
}

} // verus!
