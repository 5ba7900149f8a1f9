//! The topological order of a commit graph, and the generations that follow from it.

use crate::commit::CommitView;
use crate::commit_graph::{
    child_list, child_occurrences, last_index, lemma_last_index, linked, CommitGraph,
};
use crate::generation_laws::law_lined_up;
use crate::names::ObjectId;
use vstd::prelude::*;
use vstd::set_lib::*;

verus! {

/// How many of the first `n` parents of the commit at `idx` are in the graph.
pub open spec fn present_parents(commits: Seq<CommitView>, idx: int, n: int) -> nat
    decreases n,
{
    if n <= 0 {
        0
    } else {
        let before = present_parents(commits, idx, n - 1);
        if last_index(commits, commits[idx].parent_ids[n - 1]) is Some {
            before + 1
        } else {
            before
        }
    }
}

/// For each commit how many of its parents are in the graph.
pub open spec fn parent_counts(commits: Seq<CommitView>) -> Seq<nat> {
    Seq::new(
        commits.len(),
        |i: int| present_parents(commits, i, commits[i].parent_ids.len() as int),
    )
}

/// The positions among the first `n` that wait for no parent.
pub open spec fn free_positions(waiting: Seq<nat>, n: int) -> Seq<usize>
    decreases n,
{
    if n <= 0 {
        Seq::empty()
    } else {
        let before = free_positions(waiting, n - 1);
        if waiting[n - 1] == 0 {
            before.push((n - 1) as usize)
        } else {
            before
        }
    }
}

/// The first `n` of `kids` wait for one parent less, and line up when it was the last one.
pub open spec fn release(
    waiting: Seq<nat>,
    order: Seq<usize>,
    kids: Seq<usize>,
    n: int,
) -> (Seq<nat>, Seq<usize>)
    decreases n,
{
    if n <= 0 {
        (waiting, order)
    } else {
        let (w, o) = release(waiting, order, kids, n - 1);
        let c = kids[n - 1] as int;
        if w[c] == 0 {
            (w, o)
        } else {
            let w2 = w.update(c, (w[c] - 1) as nat);
            (
                w2,
                if w2[c] == 0 {
                    o.push(c as usize)
                } else {
                    o
                },
            )
        }
    }
}

/// The order in which the commits line up, of which those before `head` have released their
/// children.
pub open spec fn drain(
    kids: Seq<Seq<usize>>,
    waiting: Seq<nat>,
    order: Seq<usize>,
    head: int,
    fuel: nat,
) -> Seq<usize>
    decreases fuel,
{
    if fuel == 0 || head >= order.len() {
        order
    } else {
        let k = kids[order[head] as int];
        let (w, o) = release(waiting, order, k, k.len() as int);
        drain(kids, w, o, head + 1, (fuel - 1) as nat)
    }
}

/// The children of each commit.
pub open spec fn child_lists(
    commits: Seq<CommitView>,
    connected: Option<Set<(ObjectId, ObjectId)>>,
) -> Seq<Seq<usize>> {
    Seq::new(commits.len(), |p: int| child_list(commits, connected, commits.len() as int, p))
}

/// The positions of the commits, parents before their children; a commit that waits for a parent
/// that never comes is left out.
pub open spec fn topological_order(
    commits: Seq<CommitView>,
    connected: Option<Set<(ObjectId, ObjectId)>>,
) -> Seq<usize> {
    let counts = parent_counts(commits);
    drain(
        child_lists(commits, connected),
        counts,
        free_positions(counts, commits.len() as int),
        0,
        commits.len(),
    )
}

/// The parent at `pos` of the commit at `idx` holds the commit up no longer: it is not in the graph,
/// or it is connected with the commit and in `done`.
pub open spec fn settles(
    commits: Seq<CommitView>,
    connected: Option<Set<(ObjectId, ObjectId)>>,
    idx: int,
    pos: int,
    done: Seq<usize>,
) -> bool {
    let parent = commits[idx].parent_ids[pos];
    last_index(commits, parent) matches Some(p) ==> linked(connected, commits[idx].id, parent)
        && done.contains(p)
}

/// No parent holds the commit at `idx` up, once those in `done` have come.
pub open spec fn ready(
    commits: Seq<CommitView>,
    connected: Option<Set<(ObjectId, ObjectId)>>,
    idx: int,
    done: Seq<usize>,
) -> bool {
    forall|pos: int|
        0 <= pos < commits[idx].parent_ids.len() ==> #[trigger] settles(
            commits,
            connected,
            idx,
            pos,
            done,
        )
}

/// Parents come before their children in `order`, and are connected with them.
pub open spec fn parents_first(
    commits: Seq<CommitView>,
    connected: Option<Set<(ObjectId, ObjectId)>>,
    order: Seq<usize>,
) -> bool {
    forall|k: int, pos: int|
        0 <= k < order.len() && 0 <= pos < commits[order[k] as int].parent_ids.len()
            ==> #[trigger] settles(commits, connected, order[k] as int, pos, order.take(k))
}

/// `order` holds exactly the commits that no parent holds up. So it leaves out a commit whose
/// connection to a parent in the graph is cut, and what is above it.
pub open spec fn lines_up_when_ready(
    commits: Seq<CommitView>,
    connected: Option<Set<(ObjectId, ObjectId)>>,
    order: Seq<usize>,
) -> bool {
    forall|c: int|
        0 <= c < commits.len() ==> (#[trigger] order.contains(c as usize) <==> ready(
            commits,
            connected,
            c,
            order,
        ))
}

/// One more than the highest generation among the first `n` parents of the commit at `idx` that are
/// in the graph, and zero if none is.
pub open spec fn above_parents(
    commits: Seq<CommitView>,
    generations: Seq<u32>,
    idx: int,
    n: int,
) -> nat
    decreases n,
{
    if n <= 0 {
        0
    } else {
        let before = above_parents(commits, generations, idx, n - 1);
        match last_index(commits, commits[idx].parent_ids[n - 1]) {
            Some(p) => if generations[p as int] + 1 > before {
                (generations[p as int] + 1) as nat
            } else {
                before
            },
            None => before,
        }
    }
}

/// The generations after the first `n` commits of `order` were put above their parents.
pub open spec fn settled(
    commits: Seq<CommitView>,
    generations: Seq<u32>,
    order: Seq<usize>,
    n: int,
) -> Seq<u32>
    decreases n,
{
    if n <= 0 {
        generations
    } else {
        let g = settled(commits, generations, order, n - 1);
        let idx = last_index(commits, commits[order[n - 1] as int].id)->0 as int;
        g.update(
            idx,
            above_parents(commits, g, idx, commits[idx].parent_ids.len() as int) as u32,
        )
    }
}

/// The generations after all commits that the topological order holds were put above their parents.
pub open spec fn recomputed(
    commits: Seq<CommitView>,
    connected: Option<Set<(ObjectId, ObjectId)>>,
    generations: Seq<u32>,
) -> Seq<u32> {
    let order = topological_order(commits, connected);
    settled(commits, generations, order, order.len() as int)
}

proof fn lemma_occurrences_bounded(
    commits: Seq<CommitView>,
    connected: Option<Set<(ObjectId, ObjectId)>>,
    idx: int,
    n: int,
    p: int,
)
    requires
        0 <= idx <= usize::MAX,
    ensures
        ({
            let s = child_occurrences(commits, connected, idx, n, p);
            forall|i: int| 0 <= i < s.len() ==> #[trigger] s[i] == idx
        }),
    decreases n,
{
    if n > 0 {
        lemma_occurrences_bounded(commits, connected, idx, n - 1, p);
        let before = child_occurrences(commits, connected, idx, n - 1, p);
        let s = child_occurrences(commits, connected, idx, n, p);
        assert(s == before || s == before.push(idx as usize));
    } else {
        assert(child_occurrences(commits, connected, idx, n, p).len() == 0);
    }
}

/// Children are positions of the graph.
pub proof fn lemma_children_bounded(
    commits: Seq<CommitView>,
    connected: Option<Set<(ObjectId, ObjectId)>>,
    n: int,
    p: int,
)
    requires
        n <= usize::MAX,
    ensures
        ({
            let s = child_list(commits, connected, n, p);
            forall|i: int| 0 <= i < s.len() ==> #[trigger] s[i] < n
        }),
    decreases n,
{
    if n > 0 {
        lemma_children_bounded(commits, connected, n - 1, p);
        lemma_occurrences_bounded(
            commits,
            connected,
            n - 1,
            commits[n - 1].parent_ids.len() as int,
            p,
        );
        let before = child_list(commits, connected, n - 1, p);
        let s = child_list(commits, connected, n, p);
        let own = child_occurrences(
            commits,
            connected,
            n - 1,
            commits[n - 1].parent_ids.len() as int,
            p,
        );
        assert(s == before + own);
    } else {
        assert(child_list(commits, connected, n, p).len() == 0);
    }
}

/// A list of different positions below `n` has at most `n` entries.
pub proof fn lemma_positions_fit(s: Seq<usize>, n: nat)
    requires
        s.no_duplicates(),
        forall|i: int| 0 <= i < s.len() ==> #[trigger] s[i] < n,
    ensures
        s.len() <= n,
{
    let ints = s.map_values(|x: usize| x as int);
    assert(ints.no_duplicates());
    ints.unique_seq_to_set();
    let all = set_int_range(0, n as int);
    lemma_int_range(0, n as int);
    assert forall|x: int| ints.to_set().contains(x) implies all.contains(x) by {
        let i = choose|i: int| 0 <= i < ints.len() && ints[i] == x;
        assert(s[i] == x);
    }
    lemma_len_subset(ints.to_set(), all);
}

/// A list that holds no position twice; the positions in it wait for no parent.
pub open spec fn lined_up(waiting: Seq<nat>, order: Seq<usize>, n: int) -> bool {
    &&& waiting.len() == n
    &&& order.no_duplicates()
    &&& forall|i: int| 0 <= i < order.len() ==> #[trigger] order[i] < n
    &&& forall|i: int| 0 <= i < order.len() ==> waiting[#[trigger] order[i] as int] == 0
}

proof fn lemma_release_step(
    waiting: Seq<nat>,
    order: Seq<usize>,
    c: usize,
    n: int,
)
    requires
        lined_up(waiting, order, n),
        c < n,
        waiting[c as int] > 0,
    ensures
        ({
            let w2 = waiting.update(c as int, (waiting[c as int] - 1) as nat);
            lined_up(
                w2,
                if w2[c as int] == 0 {
                    order.push(c)
                } else {
                    order
                },
                n,
            )
        }),
{
    let w2 = waiting.update(c as int, (waiting[c as int] - 1) as nat);
    let o2 = if w2[c as int] == 0 {
        order.push(c)
    } else {
        order
    };
    assert forall|i: int| 0 <= i < order.len() implies order[i] != c by {
        if order[i] == c {
            assert(waiting[order[i] as int] == 0);
        }
    }
    assert forall|i: int| 0 <= i < o2.len() implies w2[#[trigger] o2[i] as int] == 0 by {
        if i < order.len() {
            assert(waiting[order[i] as int] == 0);
        }
    }
}

/// Those of the first `n` positions that wait for nothing are lined up.
pub proof fn lemma_free_positions(waiting: Seq<nat>, n: int)
    requires
        0 <= n <= waiting.len(),
        waiting.len() <= usize::MAX,
    ensures
        lined_up(waiting, free_positions(waiting, n), waiting.len() as int),
        forall|i: int|
            0 <= i < free_positions(waiting, n).len() ==> #[trigger] free_positions(waiting, n)[i]
                < n,
        forall|c: int|
            0 <= c < n && #[trigger] waiting[c] == 0 ==> free_positions(waiting, n).contains(
                c as usize,
            ),
    decreases n,
{
    if n > 0 {
        lemma_free_positions(waiting, n - 1);
        let before = free_positions(waiting, n - 1);
        let now = free_positions(waiting, n);
        assert forall|c: int| 0 <= c < n && #[trigger] waiting[c] == 0 implies now.contains(
            c as usize,
        ) by {
            if c == n - 1 {
                assert(now[now.len() - 1] == c);
            } else {
                assert(before.contains(c as usize));
                let i = choose|i: int| 0 <= i < before.len() && before[i] == c as usize;
                assert(now[i] == c as usize);
            }
        }
    }
}

proof fn lemma_release_bounded(
    waiting: Seq<nat>,
    order: Seq<usize>,
    kids: Seq<usize>,
    j: int,
    n: int,
)
    requires
        lined_up(waiting, order, n),
        forall|i: int| 0 <= i < kids.len() ==> #[trigger] kids[i] < n,
        0 <= j <= kids.len(),
    ensures
        lined_up(release(waiting, order, kids, j).0, release(waiting, order, kids, j).1, n),
        order.is_prefix_of(release(waiting, order, kids, j).1),
    decreases j,
{
    if j > 0 {
        lemma_release_bounded(waiting, order, kids, j - 1, n);
        let (w, o) = release(waiting, order, kids, j - 1);
        let c = kids[j - 1];
        if w[c as int] > 0 {
            lemma_release_step(w, o, c, n);
        }
    }
}

proof fn lemma_drain_bounded(
    commits: Seq<CommitView>,
    connected: Option<Set<(ObjectId, ObjectId)>>,
    waiting: Seq<nat>,
    order: Seq<usize>,
    head: int,
    fuel: nat,
)
    requires
        commits.len() <= usize::MAX,
        lined_up(waiting, order, commits.len() as int),
        0 <= head,
    ensures
        ({
            let r = drain(child_lists(commits, connected), waiting, order, head, fuel);
            forall|i: int| 0 <= i < r.len() ==> #[trigger] r[i] < commits.len()
        }),
    decreases fuel,
{
    let n = commits.len() as int;
    let lists = child_lists(commits, connected);
    if fuel > 0 && head < order.len() {
        let p = order[head] as int;
        let kids = child_list(commits, connected, n, p);
        assert(lists[p] == kids);
        lemma_children_bounded(commits, connected, n, p);
        lemma_release_bounded(waiting, order, kids, kids.len() as int, n);
        let (w, o) = release(waiting, order, kids, kids.len() as int);
        lemma_drain_bounded(commits, connected, w, o, head + 1, (fuel - 1) as nat);
        assert(drain(lists, waiting, order, head, fuel) == drain(
            lists,
            w,
            o,
            head + 1,
            (fuel - 1) as nat,
        ));
    } else {
        assert(drain(lists, waiting, order, head, fuel) == order);
    }
}

/// The topological order holds positions of the graph.
pub proof fn lemma_topological_bounded(
    commits: Seq<CommitView>,
    connected: Option<Set<(ObjectId, ObjectId)>>,
)
    requires
        commits.len() <= usize::MAX,
    ensures
        forall|i: int|
            0 <= i < topological_order(commits, connected).len() ==> #[trigger] topological_order(
                commits,
                connected,
            )[i] < commits.len(),
{
    let counts = parent_counts(commits);
    lemma_free_positions(counts, commits.len() as int);
    lemma_drain_bounded(
        commits,
        connected,
        counts,
        free_positions(counts, commits.len() as int),
        0,
        commits.len(),
    );
}

impl CommitGraph {
    /// The commits in topological order, parents before their children. A commit whose connection
    /// to a parent in the graph is cut waits for that parent in vain: it is left out, and so are the
    /// commits above it and those on a cycle.
    #[verifier::loop_isolation(false)]
    pub fn toposort_parents_first(&self) -> (r: Vec<ObjectId>)
        requires
            self.wf(),
        ensures
            r@ == topological_order(self.commits(), self.links()).map_values(
                |i: usize| self.commits()[i as int].id,
            ),
            r@.len() <= self.nodes@.len(),
            parents_first(
                self.commits(),
                self.links(),
                topological_order(self.commits(), self.links()),
            ),
            lines_up_when_ready(
                self.commits(),
                self.links(),
                topological_order(self.commits(), self.links()),
            ),
    {
        proof {
            law_lined_up(self.commits(), self.links());
        }
        let ghost commits = self.commits();
        let ghost n = commits.len() as int;
        let ghost kids = child_lists(commits, self.links());
        let ghost counts = parent_counts(commits);
        let mut waiting: Vec<usize> = Vec::new();
        let mut idx: usize = 0;
        while idx < self.nodes.len()
            invariant
                idx <= self.nodes@.len(),
                waiting@.len() == idx,
                forall|i: int| 0 <= i < idx ==> #[trigger] waiting@[i] == counts[i],
            decreases self.nodes.len() - idx,
        {
            let parent_ids = &self.nodes[idx].commit.parent_ids;
            assert(commits[idx as int].parent_ids == parent_ids@);
            let mut count: usize = 0;
            let mut pos: usize = 0;
            while pos < parent_ids.len()
                invariant
                    pos <= parent_ids@.len(),
                    count <= pos,
                    count == present_parents(commits, idx as int, pos as int),
                decreases parent_ids.len() - pos,
            {
                if self.by_id.contains_key(&parent_ids[pos]) {
                    count += 1;
                }
                pos += 1;
            }
            waiting.push(count);
            idx += 1;
        }
        let ghost mut w: Seq<nat> = counts;
        let mut order: Vec<usize> = Vec::new();
        idx = 0;
        while idx < self.nodes.len()
            invariant
                idx <= self.nodes@.len(),
                order@ == free_positions(counts, idx as int),
            decreases self.nodes.len() - idx,
        {
            if waiting[idx] == 0 {
                order.push(idx);
            }
            idx += 1;
        }
        let mut head: usize = 0;
        let mut out: Vec<ObjectId> = Vec::new();
        proof {
            lemma_free_positions(counts, n);
            lemma_positions_fit(order@, n as nat);
        }
        let ghost full = topological_order(commits, self.links());
        while head < order.len()
            invariant
                w.len() == n,
                waiting@.len() == n,
                forall|i: int| 0 <= i < n ==> #[trigger] waiting@[i] == w[i],
                head <= order@.len() <= n,
                lined_up(w, order@, n),
                full == drain(kids, w, order@, head as int, (n - head) as nat),
                out@ =~= order@.take(head as int).map_values(|i: usize| commits[i as int].id),
            decreases n - head,
        {
            let idx: usize = order[head];
            let ghost before = order@;
            out.push(self.nodes[idx].commit.id);
            let children = &self.children[idx];
            assert(kids[idx as int] == children@);
            proof {
                lemma_children_bounded(commits, self.links(), n, idx as int);
            }
            let ghost w0 = w;
            let mut k: usize = 0;
            while k < children.len()
                invariant
                    k <= children@.len(),
                    w.len() == n,
                    waiting@.len() == n,
                    forall|i: int| 0 <= i < n ==> #[trigger] waiting@[i] == w[i],
                    (w, order@) == release(w0, before, children@, k as int),
                    lined_up(w, order@, n),
                    before.is_prefix_of(order@),
                decreases children.len() - k,
            {
                let child: usize = children[k];
                assert(kids[idx as int][k as int] < n);
                if waiting[child] > 0 {
                    proof {
                        lemma_release_step(w, order@, child, n);
                        w = w.update(child as int, (w[child as int] - 1) as nat);
                    }
                    waiting.set(child, waiting[child] - 1);
                    if waiting[child] == 0 {
                        order.push(child);
                    }
                }
                k += 1;
            }
            proof {
                lemma_positions_fit(order@, n as nat);
                assert(order@.take(head + 1) =~= before.take(head as int).push(idx)) by {
                    assert(order@[head as int] == before[head as int]);
                }
            }
            head += 1;
        }
        assert(order@.take(order@.len() as int) =~= order@);
        out
    }
}

/// No generation is above `bound`.
pub open spec fn generations_within(generations: Seq<u32>, bound: int) -> bool {
    forall|i: int| 0 <= i < generations.len() ==> #[trigger] generations[i] <= bound
}

impl CommitGraph {
    /// All fields but the nodes are those of `other`, and the commits of the nodes are too.
    pub open spec fn same_but_generations(self, other: CommitGraph) -> bool {
        &&& self.commits() == other.commits()
        &&& self.by_id == other.by_id
        &&& self.children == other.children
        &&& self.entrypoint == other.entrypoint
        &&& self.entrypoint_ref == other.entrypoint_ref
        &&& self.managed_ws_commits == other.managed_ws_commits
        &&& self.connected == other.connected
        &&& self.hard_limit_hit == other.hard_limit_hit
        &&& self.traversal_tips == other.traversal_tips
        &&& self.explicit_tips == other.explicit_tips
    }

    /// One more than the highest generation among the parents of the commit at `idx` that are in
    /// the graph, and zero if none is.
    fn generation_above_parents(&self, idx: usize) -> (r: u32)
        requires
            self.wf(),
            idx < self.nodes@.len(),
            generations_within(self.generations(), u32::MAX - 1),
        ensures
            r == above_parents(
                self.commits(),
                self.generations(),
                idx as int,
                self.commits()[idx as int].parent_ids.len() as int,
            ),
            forall|b: int| #[trigger]
                generations_within(self.generations(), b) && 0 <= b ==> r <= b + 1,
    {
        let ghost commits = self.commits();
        let parent_ids = &self.nodes[idx].commit.parent_ids;
        assert(commits[idx as int].parent_ids == parent_ids@);
        let mut r: u32 = 0;
        let mut pos: usize = 0;
        while pos < parent_ids.len()
            invariant
                self.wf(),
                commits == self.commits(),
                idx < self.nodes@.len(),
                parent_ids@ == commits[idx as int].parent_ids,
                generations_within(self.generations(), u32::MAX - 1),
                pos <= parent_ids@.len(),
                r == above_parents(commits, self.generations(), idx as int, pos as int),
                forall|b: int| #[trigger]
                    generations_within(self.generations(), b) && 0 <= b ==> r <= b + 1,
            decreases parent_ids.len() - pos,
        {
            proof {
                lemma_last_index(commits, parent_ids@[pos as int]);
            }
            match self.by_id.get(&parent_ids[pos]) {
                Some(p) => {
                    assert(self.generations()[*p as int] == self.nodes@[*p as int].generation);
                    let above: u32 = self.nodes[*p].generation + 1;
                    if above > r {
                        r = above;
                    }
                },
                None => {},
            }
            pos += 1;
        }
        r
    }

    /// Puts each commit of the topological order above its parents.
    #[verifier::loop_isolation(false)]
    pub(crate) fn recompute_generations(&mut self)
        requires
            old(self).wf(),
            generations_within(old(self).generations(), u32::MAX - old(self).nodes@.len()),
        ensures
            final(self).wf(),
            final(self).same_but_generations(*old(self)),
            final(self).generations() == recomputed(
                old(self).commits(),
                old(self).links(),
                old(self).generations(),
            ),
            forall|b: int| #[trigger]
                generations_within(old(self).generations(), b) && 0 <= b ==> generations_within(
                    final(self).generations(),
                    b + old(self).nodes@.len(),
                ),
    {
        let order = self.toposort_parents_first();
        let ghost commits = self.commits();
        let ghost g0 = self.generations();
        let ghost n = self.nodes@.len();
        let ghost topo = topological_order(commits, self.links());
        proof {
            lemma_topological_bounded(commits, self.links());
        }
        let mut k: usize = 0;
        while k < order.len()
            invariant
                k <= order@.len() <= n,
                self.wf(),
                self.same_but_generations(*old(self)),
                n == self.nodes@.len(),
                self.generations() == settled(commits, g0, topo, k as int),
                forall|b: int| #[trigger]
                    generations_within(g0, b) && 0 <= b ==> generations_within(
                        self.generations(),
                        b + k,
                    ),
            decreases order.len() - k,
        {
            let id = order[k];
            assert(topo[k as int] < n);
            assert(commits[topo[k as int] as int].id == id);
            proof {
                lemma_last_index(commits, id);
            }
            let idx: usize = *self.by_id.get(&id).unwrap();
            assert(g0[idx as int] <= u32::MAX - n);
            assert(generations_within(self.generations(), u32::MAX - n + k));
            let generation: u32 = self.generation_above_parents(idx);
            let ghost before = *self;
            self.nodes[idx].generation = generation;
            proof {
                assert(self.commits() =~= before.commits());
                assert(self.generations() =~= before.generations().update(idx as int, generation));
                assert forall|b: int| #[trigger]
                    generations_within(g0, b) && 0 <= b implies generations_within(
                    self.generations(),
                    b + k + 1,
                ) by {
                    assert(generations_within(before.generations(), b + k));
                }
            }
            k += 1;
        }
    }
}

} // verus!
