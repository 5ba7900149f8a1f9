//! What can be reached from a node by going from one node to the next.

use crate::collections::SortedSet;
use crate::lanes::Place;
use crate::seqs::lemma_push_contains;
use vstd::prelude::*;

verus! {

/// Nodes that lead to other nodes.
pub trait Successors<K: Place> {
    /// The nodes are in a state in which they can be asked.
    spec fn valid(&self) -> bool;

    /// Where the node leads to.
    spec fn next(&self, x: K) -> Seq<K>;

    /// What there is to be led to.
    spec fn universe(&self) -> Set<K>;

    /// Every node leads into the universe, which is finite.
    proof fn lemma_universe(&self)
        requires
            self.valid(),
        ensures
            self.universe().finite(),
            forall|x: K, y: K| #[trigger]
                self.next(x).contains(y) ==> self.universe().contains(y),
    ;

    /// Where the node leads to.
    fn successors(&self, x: K) -> (r: Vec<K>)
        requires
            self.valid(),
        ensures
            r@ == self.next(x),
    ;
}

/// The path goes from each of its nodes to one that it leads to.
pub open spec fn is_path<K>(next: spec_fn(K) -> Seq<K>, path: Seq<K>) -> bool {
    &&& path.len() > 0
    &&& forall|i: int| 0 < i < path.len() ==> next(path[i - 1]).contains(#[trigger] path[i])
}

/// A path from one of `entries` ends at `x`.
pub open spec fn reachable<K>(next: spec_fn(K) -> Seq<K>, entries: Seq<K>, x: K) -> bool {
    exists|path: Seq<K>|
        #![trigger is_path(next, path)]
        is_path(next, path) && entries.contains(path[0]) && path.last() == x
}

/// What the nodes lead to, as a function.
pub open spec fn steps_of<K: Place, G: Successors<K>>(graph: G) -> spec_fn(K) -> Seq<K> {
    |x: K| graph.next(x)
}

/// Whatever a node of the set leads to is in the set.
pub open spec fn closed_under<K>(next: spec_fn(K) -> Seq<K>, set: Set<K>) -> bool {
    forall|x: K, y: K| set.contains(x) && #[trigger] next(x).contains(y) ==> set.contains(y)
}

/// An entry is reachable.
pub proof fn lemma_entry_reachable<K>(next: spec_fn(K) -> Seq<K>, entries: Seq<K>, x: K)
    requires
        entries.contains(x),
    ensures
        reachable(next, entries, x),
{
    let path = seq![x];
    assert(is_path(next, path));
    assert(path[0] == x && path.last() == x);
}

/// What a reachable node leads to is reachable.
pub proof fn lemma_step_reachable<K>(next: spec_fn(K) -> Seq<K>, entries: Seq<K>, x: K, y: K)
    requires
        reachable(next, entries, x),
        next(x).contains(y),
    ensures
        reachable(next, entries, y),
{
    let path = choose|path: Seq<K>|
        #![trigger is_path(next, path)]
        is_path(next, path) && entries.contains(path[0]) && path.last() == x;
    let longer = path.push(y);
    assert forall|i: int| 0 < i < longer.len() implies next(longer[i - 1]).contains(
        #[trigger] longer[i],
    ) by {
        if i < path.len() {
            assert(longer[i] == path[i]);
        }
    }
    assert(is_path(next, longer));
    assert(longer[0] == path[0] && longer.last() == y);
}

proof fn lemma_path_stays<K>(next: spec_fn(K) -> Seq<K>, set: Set<K>, path: Seq<K>, i: int)
    requires
        closed_under(next, set),
        is_path(next, path),
        set.contains(path[0]),
        0 <= i < path.len(),
    ensures
        set.contains(path[i]),
    decreases i,
{
    if i > 0 {
        lemma_path_stays(next, set, path, i - 1);
        assert(next(path[i - 1]).contains(path[i]));
    }
}

/// A set that no step leads out of holds all that is reachable from its nodes.
pub proof fn lemma_closed_reachable<K>(
    next: spec_fn(K) -> Seq<K>,
    set: Set<K>,
    entries: Seq<K>,
    x: K,
)
    requires
        closed_under(next, set),
        forall|e: K| entries.contains(e) ==> set.contains(e),
        reachable(next, entries, x),
    ensures
        set.contains(x),
{
    let path = choose|path: Seq<K>|
        #![trigger is_path(next, path)]
        is_path(next, path) && entries.contains(path[0]) && path.last() == x;
    lemma_path_stays(next, set, path, path.len() - 1);
}

proof fn lemma_smaller<K>(all: Set<K>, seen: Set<K>, x: K)
    requires
        all.finite(),
        all.contains(x),
        !seen.contains(x),
    ensures
        all.difference(seen.insert(x)).len() < all.difference(seen).len(),
{
    assert(all.difference(seen.insert(x)) =~= all.difference(seen).remove(x));
    assert(all.difference(seen).contains(x));
    assert(all.difference(seen).subset_of(all));
    vstd::set_lib::lemma_set_subset_finite(all, all.difference(seen));
}

/// Add to what was seen all that is reachable from the entries. Nothing that was seen is left
/// again.
pub fn visit_all<K: Place, G: Successors<K>>(graph: &G, entries: &Vec<K>, seen: &mut SortedSet<K>)
    requires
        graph.valid(),
        closed_under(steps_of::<K, G>(*graph), old(seen)@),
    ensures
        closed_under(steps_of::<K, G>(*graph), final(seen)@),
        forall|x: K|
            final(seen)@.contains(x) <==> old(seen)@.contains(x) || reachable(
                steps_of::<K, G>(*graph),
                entries@,
                x,
            ),
{
    let ghost next = steps_of::<K, G>(*graph);
    let ghost before = seen@;
    let ghost all = graph.universe().union(entries@.to_set());
    let mut stack: Vec<K> = crate::lanes::clone_list(entries);
    proof {
        graph.lemma_universe();
        assert forall|x: K| stack@.contains(x) implies reachable(next, entries@, x) by {
            lemma_entry_reachable(next, entries@, x);
        }
    }
    while stack.len() > 0
        invariant
            graph.valid(),
            next == steps_of::<K, G>(*graph),
            all == graph.universe().union(entries@.to_set()),
            all.finite(),
            forall|x: K, y: K| #[trigger]
                graph.next(x).contains(y) ==> graph.universe().contains(y),
            forall|x: K| stack@.contains(x) ==> all.contains(x),
            forall|x: K| stack@.contains(x) ==> reachable(next, entries@, x),
            forall|x: K|
                seen@.contains(x) ==> before.contains(x) || reachable(next, entries@, x),
            forall|x: K| before.contains(x) ==> seen@.contains(x),
            forall|x: K| entries@.contains(x) ==> seen@.contains(x) || stack@.contains(x),
            forall|x: K, y: K|
                seen@.contains(x) && #[trigger] next(x).contains(y) ==> seen@.contains(y)
                    || stack@.contains(y),
        decreases all.difference(seen@).len(), stack@.len(),
    {
        let ghost held = stack@;
        let ghost seen_before = seen@;
        let x = stack.pop().unwrap();
        proof {
            x.lemma_model();
            assert(held =~= stack@.push(x));
            assert forall|y: K|
                #![trigger held.contains(y)]
                #![trigger stack@.contains(y)]
                held.contains(y) <==> stack@.contains(y) || x == y by {
                lemma_push_contains(stack@, x, y);
            }
            assert(held.contains(x));
            assert(reachable(next, entries@, x));
            assert(all.contains(x));
        }
        if seen.insert(x) {
            let ghost left = stack@;
            let mut more: Vec<K> = graph.successors(x);
            stack.append(&mut more);
            proof {
                lemma_smaller(all, seen_before, x);
                assert(next(x) == graph.next(x));
                assert forall|y: K|
                    #![trigger stack@.contains(y)]
                    #![trigger left.contains(y)]
                    #![trigger next(x).contains(y)]
                    stack@.contains(y) <==> left.contains(y) || next(x).contains(y) by {
                    lemma_add_contains(left, next(x), y);
                }
                assert forall|y: K| next(x).contains(y) implies reachable(next, entries@, y) by {
                    lemma_step_reachable(next, entries@, x, y);
                }
            }
        } else {
            assert(seen@ =~= seen_before);
        }
    }
    proof {
        assert forall|x: K| reachable(next, entries@, x) implies seen@.contains(x) by {
            lemma_closed_reachable(next, seen@, entries@, x);
        }
    }
}

/// Two lists put together hold what either of them holds.
pub proof fn lemma_add_contains<A>(a: Seq<A>, b: Seq<A>, x: A)
    ensures
        (a + b).contains(x) <==> a.contains(x) || b.contains(x),
{
    let s = a + b;
    if a.contains(x) {
        let i = choose|i: int| 0 <= i < a.len() && a[i] == x;
        assert(s[i] == x);
    }
    if b.contains(x) {
        let i = choose|i: int| 0 <= i < b.len() && b[i] == x;
        assert(s[a.len() + i] == x);
    }
    if s.contains(x) {
        let i = choose|i: int| 0 <= i < s.len() && s[i] == x;
        if i < a.len() {
            assert(a[i] == x);
        } else {
            assert(b[i - a.len()] == x);
        }
    }
}

} // verus!
