//! What the generations of a commit graph without cycles are.

use crate::commit::CommitView;
use crate::commit_graph::{child_at, child_list, child_occurrences, last_index, lemma_last_index};
use crate::generations::{
    above_parents, child_lists, drain, free_positions, generations_within, lemma_children_bounded,
    lemma_free_positions, lemma_positions_fit, lemma_topological_bounded, lines_up_when_ready,
    parent_counts, parents_first, present_parents, ready, recomputed, release, settled, settles,
    topological_order,
};
use crate::names::ObjectId;
use vstd::prelude::*;
use vstd::seq_lib::*;

verus! {

/// No id occurs twice.
pub open spec fn distinct_ids(commits: Seq<CommitView>) -> bool {
    forall|i: int, j: int|
        0 <= i < j < commits.len() ==> (#[trigger] commits[i]).id != (#[trigger] commits[j]).id
}

/// Each commit has a higher rank than its parents.
pub open spec fn ranked(commits: Seq<CommitView>, rank: Seq<nat>) -> bool {
    &&& rank.len() == commits.len()
    &&& forall|i: int, pos: int|
        0 <= i < commits.len() && 0 <= pos < commits[i].parent_ids.len() ==> (last_index(
            commits,
            #[trigger] commits[i].parent_ids[pos],
        ) matches Some(p) ==> rank[p as int] < rank[i])
}

/// No commit is among its own ancestors.
pub open spec fn acyclic(commits: Seq<CommitView>) -> bool {
    exists|rank: Seq<nat>| ranked(commits, rank)
}

/// Each commit has a generation one above the highest one among its parents, and zero without
/// parents in the graph.
pub open spec fn generations_settled(commits: Seq<CommitView>, generations: Seq<u32>) -> bool {
    &&& generations.len() == commits.len()
    &&& forall|i: int|
        0 <= i < commits.len() ==> #[trigger] generations[i] == above_parents(
            commits,
            generations,
            i,
            commits[i].parent_ids.len() as int,
        )
}

/// How many of the first `n` parents of the commit at `idx` are in the graph and not in `done`, or
/// not connected with it.
spec fn left(
    commits: Seq<CommitView>,
    connected: Option<Set<(ObjectId, ObjectId)>>,
    idx: int,
    n: int,
    done: Seq<usize>,
) -> nat
    decreases n,
{
    if n <= 0 {
        0
    } else {
        let before = left(commits, connected, idx, n - 1, done);
        if settles(commits, connected, idx, n - 1, done) {
            before
        } else {
            before + 1
        }
    }
}

proof fn lemma_left_nothing_done(
    commits: Seq<CommitView>,
    connected: Option<Set<(ObjectId, ObjectId)>>,
    idx: int,
    n: int,
)
    ensures
        left(commits, connected, idx, n, Seq::empty()) == present_parents(commits, idx, n),
    decreases n,
{
    if n > 0 {
        lemma_left_nothing_done(commits, connected, idx, n - 1);
    }
}

proof fn lemma_left_one_more(
    commits: Seq<CommitView>,
    connected: Option<Set<(ObjectId, ObjectId)>>,
    idx: int,
    n: int,
    done: Seq<usize>,
    p: usize,
)
    requires
        !done.contains(p),
    ensures
        left(commits, connected, idx, n, done) == left(
            commits,
            connected,
            idx,
            n,
            done.push(p),
        ) + child_occurrences(
            commits,
            connected,
            idx,
            n,
            p as int,
        ).len(),
    decreases n,
{
    if n > 0 {
        lemma_left_one_more(commits, connected, idx, n - 1, done, p);
        let now = done.push(p);
        assert forall|q: usize| now.contains(q) <==> done.contains(q) || q == p by {
            if done.contains(q) {
                let i = choose|i: int| 0 <= i < done.len() && done[i] == q;
                assert(now[i] == q);
            }
            assert(now[done.len() as int] == p);
            if now.contains(q) && q != p {
                let i = choose|i: int| 0 <= i < now.len() && now[i] == q;
                assert(done[i] == q);
            }
        }
        let before = child_occurrences(commits, connected, idx, n - 1, p as int);
        assert(child_occurrences(commits, connected, idx, n, p as int) == if child_at(
            commits,
            connected,
            idx,
            n - 1,
            p as int,
        ) {
            before.push(idx as usize)
        } else {
            before
        });
    } else {
        assert(child_occurrences(commits, connected, idx, n, p as int).len() == 0);
    }
}

proof fn lemma_none_left(
    commits: Seq<CommitView>,
    connected: Option<Set<(ObjectId, ObjectId)>>,
    idx: int,
    n: int,
    done: Seq<usize>,
)
    ensures
        left(commits, connected, idx, n, done) == 0 <==> forall|pos: int|
            0 <= pos < n ==> #[trigger] settles(commits, connected, idx, pos, done),
    decreases n,
{
    if n > 0 {
        lemma_none_left(commits, connected, idx, n - 1, done);
        if left(commits, connected, idx, n, done) == 0 {
            assert forall|pos: int| 0 <= pos < n implies #[trigger] settles(
                commits,
                connected,
                idx,
                pos,
                done,
            ) by {
                if pos < n - 1 {
                    assert(left(commits, connected, idx, n - 1, done) == 0);
                }
            }
        } else if left(commits, connected, idx, n - 1, done) == 0 {
            assert(!settles(commits, connected, idx, n - 1, done));
        } else {
            let pos = choose|pos: int|
                0 <= pos < n - 1 && !#[trigger] settles(commits, connected, idx, pos, done);
            assert(0 <= pos < n);
        }
    }
}

/// A list that holds nothing but `x` holds it as often as it is long.
proof fn lemma_all_same(s: Seq<usize>, x: usize, y: usize)
    requires
        forall|i: int| 0 <= i < s.len() ==> #[trigger] s[i] == x,
    ensures
        s.to_multiset().count(y) == if x == y {
            s.len()
        } else {
            0
        },
    decreases s.len(),
{
    broadcast use vstd::seq_lib::group_to_multiset_ensures;

    if s.len() > 0 {
        lemma_all_same(s.drop_last(), x, y);
        assert(s =~= s.drop_last().push(x));
    } else {
        assert(s =~= Seq::empty());
    }
}

proof fn lemma_occurrences_all_same(
    commits: Seq<CommitView>,
    connected: Option<Set<(ObjectId, ObjectId)>>,
    idx: int,
    n: int,
    p: int,
)
    requires
        0 <= idx <= usize::MAX,
    ensures
        forall|i: int|
            0 <= i < child_occurrences(commits, connected, idx, n, p).len()
                ==> #[trigger] child_occurrences(commits, connected, idx, n, p)[i] == idx as usize,
    decreases n,
{
    if n > 0 {
        lemma_occurrences_all_same(commits, connected, idx, n - 1, p);
        let before = child_occurrences(commits, connected, idx, n - 1, p);
        let s = child_occurrences(commits, connected, idx, n, p);
        assert(s == before || s == before.push(idx as usize));
    } else {
        assert(child_occurrences(commits, connected, idx, n, p).len() == 0);
    }
}

/// A commit is among the children of another as often as it names the other as a parent.
proof fn lemma_child_count(
    commits: Seq<CommitView>,
    connected: Option<Set<(ObjectId, ObjectId)>>,
    n: int,
    p: int,
    c: int,
)
    requires
        0 <= n <= commits.len() <= usize::MAX,
        0 <= c < commits.len(),
    ensures
        child_list(commits, connected, n, p).to_multiset().count(c as usize) == if c < n {
            child_occurrences(commits, connected, c, commits[c].parent_ids.len() as int, p).len()
        } else {
            0
        },
    decreases n,
{
    broadcast use vstd::seq_lib::group_to_multiset_ensures;

    if n > 0 {
        lemma_child_count(commits, connected, n - 1, p, c);
        let before = child_list(commits, connected, n - 1, p);
        let own = child_occurrences(
            commits,
            connected,
            n - 1,
            commits[n - 1].parent_ids.len() as int,
            p,
        );
        assert(child_list(commits, connected, n, p) == before + own);
        lemma_multiset_commutative(before, own);
        lemma_occurrences_all_same(
            commits,
            connected,
            n - 1,
            commits[n - 1].parent_ids.len() as int,
            p,
        );
        lemma_all_same(own, (n - 1) as usize, c as usize);
    } else {
        assert(child_list(commits, connected, n, p) =~= Seq::empty());
    }
}

/// How many parents the commit at `idx` has.
spec fn degree(commits: Seq<CommitView>, idx: int) -> int {
    commits[idx].parent_ids.len() as int
}

/// `order` is a start of a topological order, and `waiting` says for each commit how many of its
/// parents are not in `done`, less those that were counted off already.
spec fn sorting(
    commits: Seq<CommitView>,
    connected: Option<Set<(ObjectId, ObjectId)>>,
    waiting: Seq<nat>,
    order: Seq<usize>,
    done: Seq<usize>,
    off: spec_fn(int) -> nat,
) -> bool {
    let n = commits.len();
    &&& waiting.len() == n
    &&& order.no_duplicates()
    &&& forall|i: int| 0 <= i < order.len() ==> #[trigger] order[i] < n
    &&& forall|c: int|
        0 <= c < n ==> #[trigger] waiting[c] + off(c) == left(
            commits,
            connected,
            c,
            degree(commits, c),
            done,
        )
    &&& forall|c: int| 0 <= c < n ==> (#[trigger] waiting[c] == 0 <==> order.contains(c as usize))
    &&& parents_first(commits, connected, order)
}

proof fn lemma_take_push(s: Seq<usize>, x: usize, k: int)
    requires
        0 <= k <= s.len(),
    ensures
        s.push(x).take(k) == s.take(k),
{
    assert(s.push(x).take(k) =~= s.take(k));
}

/// The children of the first of `order` that has not released its children are released.
proof fn lemma_release(
    commits: Seq<CommitView>,
    connected: Option<Set<(ObjectId, ObjectId)>>,
    waiting: Seq<nat>,
    order: Seq<usize>,
    head: int,
    j: int,
)
    requires
        commits.len() <= usize::MAX,
        0 <= head < order.len(),
        sorting(commits, connected, waiting, order, order.take(head), |c: int| 0nat),
        0 <= j <= child_list(commits, connected, commits.len() as int, order[head] as int).len(),
    ensures
        ({
            let kids = child_list(commits, connected, commits.len() as int, order[head] as int);
            let (w, o) = release(waiting, order, kids, j);
            &&& order.is_prefix_of(o)
            &&& sorting(
                commits,
                connected,
                w,
                o,
                order.take(head),
                |c: int| kids.take(j).to_multiset().count(c as usize),
            )
        }),
    decreases j,
{
    broadcast use vstd::seq_lib::group_to_multiset_ensures;

    let n = commits.len() as int;
    let p = order[head];
    let kids = child_list(commits, connected, n, p as int);
    let done = order.take(head);
    let off = |c: int| kids.take(j).to_multiset().count(c as usize);
    let (w, o) = release(waiting, order, kids, j);
    if j == 0 {
        assert(kids.take(0) =~= Seq::empty());
        assert forall|c: int| 0 <= c < n implies #[trigger] w[c] + off(c) == left(
            commits,
            connected,
            c,
            degree(commits, c),
            done,
        ) by {
            assert(waiting[c] + (|c: int| 0nat)(c) == left(
                commits,
                connected,
                c,
                degree(commits, c),
                done,
            ));
        }
    } else {
        lemma_release(commits, connected, waiting, order, head, j - 1);
        let (w1, o1) = release(waiting, order, kids, j - 1);
        let off1 = |c: int| kids.take(j - 1).to_multiset().count(c as usize);
        let k = kids[j - 1];
        lemma_children_bounded(commits, connected, n, p as int);
        assert(k < n);
        assert(kids.take(j) =~= kids.take(j - 1).push(k));
        assert forall|c: int| 0 <= c < n implies #[trigger] off(c) == off1(c) + if c == k {
            1nat
        } else {
            0nat
        } by {}
        // What is still to be counted off for the child is at most what it waits for.
        assert(!done.contains(p)) by {
            if done.contains(p) {
                let i = choose|i: int| 0 <= i < done.len() && done[i] == p;
                assert(order[i] == order[head]);
            }
        }
        lemma_left_one_more(commits, connected, k as int, degree(commits, k as int), done, p);
        lemma_child_count(commits, connected, n, p as int, k as int);
        lemma_prefix_count(kids, j, k);
        assert(w1[k as int] + off1(k as int) == left(
            commits,
            connected,
            k as int,
            degree(commits, k as int),
            done,
        ));
        assert(off(k as int) <= kids.to_multiset().count(k));
        assert(w1[k as int] > 0);
        assert(w == w1.update(k as int, (w1[k as int] - 1) as nat));
        assert forall|c: int| 0 <= c < n implies #[trigger] w[c] + off(c) == left(
            commits,
            connected,
            c,
            degree(commits, c),
            done,
        ) by {
            assert(w1[c] + off1(c) == left(commits, connected, c, degree(commits, c), done));
            assert(off(c) == off1(c) + if c == k {
                1nat
            } else {
                0nat
            });
        }
        if w[k as int] == 0 {
            assert(o == o1.push(k));
            assert(!o1.contains(k)) by {
                assert(w1[k as int] != 0);
            }
            assert forall|c: int| 0 <= c < n implies (#[trigger] w[c] == 0 <==> o.contains(
                c as usize,
            )) by {
                if c == k {
                    assert(o[o1.len() as int] == k);
                } else {
                    assert(w1[c] == w[c]);
                    if o1.contains(c as usize) {
                        let i = choose|i: int| 0 <= i < o1.len() && o1[i] == c as usize;
                        assert(o[i] == c as usize);
                    }
                    if o.contains(c as usize) {
                        let i = choose|i: int| 0 <= i < o.len() && o[i] == c as usize;
                        assert(o1[i] == c as usize);
                    }
                }
            }
            let next = done.push(p);
            assert(next =~= order.take(head + 1));
            assert(left(commits, connected, k as int, degree(commits, k as int), next) == 0);
            lemma_none_left(commits, connected, k as int, degree(commits, k as int), next);
            assert forall|i: int, pos: int|
                0 <= i < o.len() && 0 <= pos < commits[o[i] as int].parent_ids.len() implies #[trigger] settles(
                commits,
                connected,
                o[i] as int,
                pos,
                o.take(i),
            ) by {
                lemma_take_push(o1, k, i);
                if i < o1.len() {
                    assert(o1[i] == o[i]);
                    assert(settles(commits, connected, o1[i] as int, pos, o1.take(i)));
                } else {
                    assert(o[i] == k);
                    assert(o.take(i) =~= o1);
                    let parent = commits[k as int].parent_ids[pos];
                    assert(settles(commits, connected, k as int, pos, next));
                    match last_index(commits, parent) {
                        Some(q) => {
                            assert(next.contains(q));
                            let m = choose|m: int| 0 <= m < next.len() && next[m] == q;
                            assert(order[m] == q);
                            assert(o1[m] == q);
                            assert(o.take(i)[m] == q);
                        },
                        None => {},
                    }
                }
            }
        } else {
            assert(o == o1);
            assert forall|c: int| 0 <= c < n implies (#[trigger] w[c] == 0 <==> o.contains(
                c as usize,
            )) by {
                assert(w1[c] == 0 <==> o1.contains(c as usize));
            }
        }
    }
}

proof fn lemma_prefix_count(s: Seq<usize>, j: int, x: usize)
    requires
        0 <= j <= s.len(),
    ensures
        s.take(j).to_multiset().count(x) <= s.to_multiset().count(x),
{
    assert(s =~= s.take(j) + s.skip(j));
    lemma_multiset_commutative(s.take(j), s.skip(j));
}

proof fn lemma_drain(
    commits: Seq<CommitView>,
    connected: Option<Set<(ObjectId, ObjectId)>>,
    waiting: Seq<nat>,
    order: Seq<usize>,
    head: int,
)
    requires
        commits.len() <= usize::MAX,
        0 <= head <= order.len(),
        sorting(commits, connected, waiting, order, order.take(head), |c: int| 0nat),
    ensures
        ({
            let r = drain(
                child_lists(commits, connected),
                waiting,
                order,
                head,
                (commits.len() - head) as nat,
            );
            &&& r.no_duplicates()
            &&& forall|i: int| 0 <= i < r.len() ==> #[trigger] r[i] < commits.len()
            &&& parents_first(commits, connected, r)
            &&& forall|c: int|
                0 <= c < commits.len() && #[trigger] left(
                    commits,
                    connected,
                    c,
                    degree(commits, c),
                    r,
                ) == 0 ==> r.contains(c as usize)
        }),
    decreases commits.len() - head,
{
    let n = commits.len();
    lemma_positions_fit(order, n);
    if head >= order.len() {
        assert(order.take(head) =~= order);
        assert forall|c: int|
            0 <= c < n && #[trigger] left(commits, connected, c, degree(commits, c), order)
                == 0 implies order.contains(c as usize) by {
            assert(waiting[c] + (|c: int| 0nat)(c) == left(
                commits,
                connected,
                c,
                degree(commits, c),
                order,
            ));
        }
    } else {
        let p = order[head];
        let kids = child_list(commits, connected, n as int, p as int);
        assert(child_lists(commits, connected)[p as int] == kids);
        lemma_release(commits, connected, waiting, order, head, kids.len() as int);
        let (w, o) = release(waiting, order, kids, kids.len() as int);
        assert(o.take(head + 1) =~= order.take(head).push(p));
        assert(kids.take(kids.len() as int) =~= kids);
        let done = order.take(head);
        assert(!done.contains(p)) by {
            if done.contains(p) {
                let i = choose|i: int| 0 <= i < done.len() && done[i] == p;
                assert(order[i] == order[head]);
            }
        }
        assert forall|c: int| 0 <= c < n implies #[trigger] w[c] + (|c: int| 0nat)(c) == left(
            commits,
            connected,
            c,
            degree(commits, c),
            o.take(head + 1),
        ) by {
            let off = |c: int| kids.take(kids.len() as int).to_multiset().count(c as usize);
            assert(w[c] + off(c) == left(commits, connected, c, degree(commits, c), done));
            lemma_left_one_more(commits, connected, c, degree(commits, c), done, p);
            lemma_child_count(commits, connected, n as int, p as int, c);
        }
        lemma_drain(commits, connected, w, o, head + 1);
    }
}

proof fn lemma_all_lined_up(commits: Seq<CommitView>, rank: Seq<nat>, r: Seq<usize>, c: int)
    requires
        commits.len() <= usize::MAX,
        ranked(commits, rank),
        0 <= c < commits.len(),
        forall|c: int|
            0 <= c < commits.len() && ready(commits, None, c, r) ==> #[trigger] r.contains(
                c as usize,
            ),
    ensures
        r.contains(c as usize),
    decreases rank[c],
{
    assert forall|pos: int| 0 <= pos < degree(commits, c) implies #[trigger] settles(
        commits,
        None,
        c,
        pos,
        r,
    ) by {
        match last_index(commits, commits[c].parent_ids[pos]) {
            Some(p) => {
                lemma_last_index(commits, commits[c].parent_ids[pos]);
                assert(rank[p as int] < rank[c]);
                lemma_all_lined_up(commits, rank, r, p as int);
            },
            None => {},
        }
    }
    assert(ready(commits, None, c, r));
}

/// The topological order holds no position twice, and parents before their children. It holds
/// exactly the positions of those commits of whose parents in the graph each is connected with the
/// commit and in the order itself: a commit whose connection to such a parent is cut is left out,
/// and so is everything above it.
pub proof fn law_lined_up(
    commits: Seq<CommitView>,
    connected: Option<Set<(ObjectId, ObjectId)>>,
)
    requires
        commits.len() <= usize::MAX,
    ensures
        topological_order(commits, connected).no_duplicates(),
        parents_first(commits, connected, topological_order(commits, connected)),
        forall|i: int|
            0 <= i < topological_order(commits, connected).len() ==> #[trigger] topological_order(
                commits,
                connected,
            )[i] < commits.len(),
        lines_up_when_ready(commits, connected, topological_order(commits, connected)),
{
    let counts = parent_counts(commits);
    let n = commits.len() as int;
    let free = free_positions(counts, n);
    lemma_free_positions(counts, n);
    assert(free.take(0) =~= Seq::empty());
    assert forall|c: int| 0 <= c < n implies #[trigger] counts[c] + (|c: int| 0nat)(c) == left(
        commits,
        connected,
        c,
        degree(commits, c),
        free.take(0),
    ) by {
        lemma_left_nothing_done(commits, connected, c, degree(commits, c));
    }
    assert forall|c: int| 0 <= c < n implies (#[trigger] counts[c] == 0 <==> free.contains(
        c as usize,
    )) by {
        if free.contains(c as usize) {
            let i = choose|i: int| 0 <= i < free.len() && free[i] == c as usize;
            assert(counts[free[i] as int] == 0);
        }
    }
    assert forall|k: int, pos: int|
        0 <= k < free.len() && 0 <= pos < commits[free[k] as int].parent_ids.len() implies #[trigger] settles(
        commits,
        connected,
        free[k] as int,
        pos,
        free.take(k),
    ) by {
        let c = free[k] as int;
        assert(counts[c] == 0);
        lemma_left_nothing_done(commits, connected, c, degree(commits, c));
        lemma_none_left(commits, connected, c, degree(commits, c), Seq::empty());
        assert(settles(commits, connected, c, pos, Seq::empty()));
    }
    lemma_drain(commits, connected, counts, free, 0);
    let r = topological_order(commits, connected);
    assert forall|c: int| 0 <= c < n implies (#[trigger] r.contains(c as usize) <==> ready(
        commits,
        connected,
        c,
        r,
    )) by {
        lemma_none_left(commits, connected, c, degree(commits, c), r);
        if ready(commits, connected, c, r) {
            assert forall|pos: int| 0 <= pos < degree(commits, c) implies #[trigger] settles(
                commits,
                connected,
                c,
                pos,
                r,
            ) by {}
            assert(left(commits, connected, c, degree(commits, c), r) == 0);
        }
        if r.contains(c as usize) {
            let k = choose|k: int| 0 <= k < r.len() && r[k] == c as usize;
            assert forall|pos: int| 0 <= pos < commits[c].parent_ids.len() implies #[trigger] settles(
                commits,
                connected,
                c,
                pos,
                r,
            ) by {
                assert(settles(commits, connected, r[k] as int, pos, r.take(k)));
                match last_index(commits, commits[c].parent_ids[pos]) {
                    Some(p) => {
                        let m = choose|m: int| 0 <= m < k && r.take(k)[m] == p;
                        assert(r[m] == p);
                    },
                    None => {},
                }
            }
        }
    }
}

/// Without cycles, the topological order of a graph that follows every connection holds each
/// position exactly once, parents before their children.
pub proof fn law_topological_order(commits: Seq<CommitView>)
    requires
        commits.len() <= usize::MAX,
        acyclic(commits),
    ensures
        topological_order(commits, None).no_duplicates(),
        parents_first(commits, None, topological_order(commits, None)),
        forall|i: int|
            0 <= i < topological_order(commits, None).len() ==> #[trigger] topological_order(
                commits,
                None,
            )[i] < commits.len(),
        forall|c: int|
            0 <= c < commits.len() ==> #[trigger] topological_order(commits, None).contains(
                c as usize,
            ),
{
    law_lined_up(commits, None);
    let r = topological_order(commits, None);
    let rank = choose|rank: Seq<nat>| ranked(commits, rank);
    assert forall|c: int| 0 <= c < commits.len() implies #[trigger] r.contains(c as usize) by {
        lemma_all_lined_up(commits, rank, r, c);
    }
}

/// What comes above the parents depends on the generations of the parents alone.
proof fn lemma_above_frame(
    commits: Seq<CommitView>,
    a: Seq<u32>,
    b: Seq<u32>,
    idx: int,
    n: int,
)
    requires
        forall|pos: int|
            0 <= pos < n ==> (last_index(
                commits,
                #[trigger] commits[idx].parent_ids[pos],
            ) matches Some(p) ==> a[p as int] == b[p as int]),
    ensures
        above_parents(commits, a, idx, n) == above_parents(commits, b, idx, n),
    decreases n,
{
    if n > 0 {
        lemma_above_frame(commits, a, b, idx, n - 1);
        assert(last_index(commits, commits[idx].parent_ids[n - 1]) matches Some(p) ==> a[p as int]
            == b[p as int]);
    }
}

proof fn lemma_above_bound(
    commits: Seq<CommitView>,
    g: Seq<u32>,
    idx: int,
    n: int,
    bound: nat,
)
    requires
        commits.len() <= usize::MAX,
        g.len() == commits.len(),
        generations_within(g, bound as int),
    ensures
        above_parents(commits, g, idx, n) <= bound + 1,
    decreases n,
{
    if n > 0 {
        lemma_above_bound(commits, g, idx, n - 1, bound);
        lemma_last_index(commits, commits[idx].parent_ids[n - 1]);
    }
}

proof fn lemma_own_index(commits: Seq<CommitView>, i: int)
    requires
        commits.len() <= usize::MAX,
        distinct_ids(commits),
        0 <= i < commits.len(),
    ensures
        last_index(commits, commits[i].id) == Some(i as usize),
{
    lemma_last_index(commits, commits[i].id);
    let j = last_index(commits, commits[i].id)->0 as int;
    assert(commits[j].id == commits[i].id);
}

proof fn lemma_settled(commits: Seq<CommitView>, g0: Seq<u32>, order: Seq<usize>, k: int)
    requires
        commits.len() <= u32::MAX,
        commits.len() <= usize::MAX,
        distinct_ids(commits),
        g0.len() == commits.len(),
        generations_within(g0, 0),
        order.no_duplicates(),
        parents_first(commits, None, order),
        forall|i: int| 0 <= i < order.len() ==> #[trigger] order[i] < commits.len(),
        0 <= k <= order.len(),
    ensures
        settled(commits, g0, order, k).len() == commits.len(),
        generations_within(settled(commits, g0, order, k), k),
        forall|j: int|
            0 <= j < k ==> settled(commits, g0, order, k)[#[trigger] order[j] as int]
                == above_parents(
                commits,
                settled(commits, g0, order, k),
                order[j] as int,
                degree(commits, order[j] as int),
            ),
    decreases k,
{
    if k > 0 {
        lemma_settled(commits, g0, order, k - 1);
        lemma_positions_fit(order, commits.len());
        let g = settled(commits, g0, order, k - 1);
        let idx = order[k - 1] as int;
        lemma_own_index(commits, idx);
        lemma_above_bound(commits, g, idx, degree(commits, idx), (k - 1) as nat);
        let now = settled(commits, g0, order, k);
        assert(now == g.update(
            idx,
            above_parents(commits, g, idx, degree(commits, idx)) as u32,
        ));
        assert forall|j: int| 0 <= j < k implies now[#[trigger] order[j] as int] == above_parents(
            commits,
            now,
            order[j] as int,
            degree(commits, order[j] as int),
        ) by {
            let c = order[j] as int;
            assert forall|pos: int| 0 <= pos < degree(commits, c) implies (last_index(
                commits,
                #[trigger] commits[c].parent_ids[pos],
            ) matches Some(p) ==> g[p as int] == now[p as int]) by {
                assert(settles(commits, None, order[j] as int, pos, order.take(j)));
                match last_index(commits, commits[c].parent_ids[pos]) {
                    Some(p) => {
                        let m = choose|m: int| 0 <= m < j && order.take(j)[m] == p;
                        assert(order[m] == p);
                        assert(order[m] != order[k - 1]);
                    },
                    None => {},
                }
            }
            lemma_above_frame(commits, g, now, c, degree(commits, c));
            if j < k - 1 {
                assert(order[j] != order[k - 1]);
            }
        }
    }
}

/// Without cycles and repeated ids, the generations of a graph that follows every connection are
/// the lengths of the longest ways down to a commit without parents: zero there, and one more than
/// the highest generation among the parents everywhere else.
pub proof fn law_generations(commits: Seq<CommitView>)
    requires
        commits.len() <= u32::MAX,
        commits.len() <= usize::MAX,
        distinct_ids(commits),
        acyclic(commits),
    ensures
        generations_settled(
            commits,
            recomputed(commits, None, Seq::new(commits.len(), |i: int| 0u32)),
        ),
{
    let order = topological_order(commits, None);
    let g0 = Seq::new(commits.len(), |i: int| 0u32);
    law_topological_order(commits);
    lemma_settled(commits, g0, order, order.len() as int);
    let g = recomputed(commits, None, g0);
    assert forall|i: int| 0 <= i < commits.len() implies #[trigger] g[i] == above_parents(
        commits,
        g,
        i,
        commits[i].parent_ids.len() as int,
    ) by {
        assert(order.contains(i as usize));
        let j = choose|j: int| 0 <= j < order.len() && order[j] == i as usize;
        assert(g[order[j] as int] == above_parents(
            commits,
            g,
            order[j] as int,
            degree(commits, order[j] as int),
        ));
    }
}

proof fn lemma_settled_stays(commits: Seq<CommitView>, g: Seq<u32>, order: Seq<usize>, k: int)
    requires
        commits.len() <= usize::MAX,
        generations_settled(commits, g),
        forall|i: int| 0 <= i < order.len() ==> #[trigger] order[i] < commits.len(),
        0 <= k <= order.len(),
    ensures
        settled(commits, g, order, k) == g,
    decreases k,
{
    if k > 0 {
        lemma_settled_stays(commits, g, order, k - 1);
        assert(order[k - 1] < commits.len());
        let id = commits[order[k - 1] as int].id;
        lemma_last_index(commits, id);
        let idx = last_index(commits, id)->0 as int;
        assert(g[idx] == above_parents(commits, g, idx, degree(commits, idx)));
        assert(settled(commits, g, order, k) =~= g);
    }
}

/// Generations that say how far each commit is from a root stay what they are when they are
/// computed again, whichever connections count by then.
pub proof fn law_settled_generations_stay(
    commits: Seq<CommitView>,
    connected: Option<Set<(ObjectId, ObjectId)>>,
    generations: Seq<u32>,
)
    requires
        commits.len() <= usize::MAX,
        generations_settled(commits, generations),
    ensures
        recomputed(commits, connected, generations) == generations,
{
    lemma_topological_bounded(commits, connected);
    let order = topological_order(commits, connected);
    lemma_settled_stays(commits, generations, order, order.len() as int);
}

/// The generation of the commit with the id.
pub open spec fn generation_of(commits: Seq<CommitView>, id: ObjectId) -> u32 {
    recomputed(
        commits,
        None,
        Seq::new(commits.len(), |i: int| 0u32),
    )[last_index(commits, id)->0 as int]
}

/// Both lists hold the same commits.
pub open spec fn same_commits(a: Seq<CommitView>, b: Seq<CommitView>) -> bool {
    forall|c: CommitView| #[trigger] a.contains(c) <==> b.contains(c)
}

proof fn lemma_found_in_both(a: Seq<CommitView>, b: Seq<CommitView>, id: ObjectId)
    requires
        a.len() <= usize::MAX,
        b.len() <= usize::MAX,
        distinct_ids(a),
        distinct_ids(b),
        same_commits(a, b),
    ensures
        last_index(a, id) is Some <==> last_index(b, id) is Some,
        last_index(a, id) matches Some(i) ==> i < a.len() && a[i as int].id == id && (last_index(
            b,
            id,
        ) matches Some(j) && j < b.len() && b[j as int] == a[i as int]),
{
    lemma_last_index(a, id);
    lemma_last_index(b, id);
    if last_index(a, id) is Some {
        let i = last_index(a, id)->0 as int;
        assert(a.contains(a[i]));
        let j = choose|j: int| 0 <= j < b.len() && b[j] == a[i];
        lemma_own_index(b, j);
    }
    if last_index(b, id) is Some {
        let j = last_index(b, id)->0 as int;
        assert(a.contains(b[j]));
        let i = choose|i: int| 0 <= i < a.len() && a[i] == b[j];
        lemma_own_index(a, i);
    }
}

proof fn lemma_above_alike(
    a: Seq<CommitView>,
    b: Seq<CommitView>,
    ga: Seq<u32>,
    gb: Seq<u32>,
    i: int,
    j: int,
    n: int,
)
    requires
        a.len() <= usize::MAX,
        b.len() <= usize::MAX,
        distinct_ids(a),
        distinct_ids(b),
        same_commits(a, b),
        0 <= i < a.len(),
        0 <= j < b.len(),
        a[i] == b[j],
        n <= a[i].parent_ids.len(),
        forall|pos: int|
            0 <= pos < n ==> (last_index(a, #[trigger] a[i].parent_ids[pos]) matches Some(p)
                ==> ga[p as int] == gb[last_index(b, a[i].parent_ids[pos])->0 as int]),
    ensures
        above_parents(a, ga, i, n) == above_parents(b, gb, j, n),
    decreases n,
{
    if n > 0 {
        lemma_above_alike(a, b, ga, gb, i, j, n - 1);
        let parent = a[i].parent_ids[n - 1];
        lemma_found_in_both(a, b, parent);
        assert(last_index(a, parent) matches Some(p) ==> ga[p as int] == gb[last_index(
            b,
            parent,
        )->0 as int]);
    }
}

proof fn lemma_generations_alike(
    a: Seq<CommitView>,
    b: Seq<CommitView>,
    ga: Seq<u32>,
    gb: Seq<u32>,
    rank: Seq<nat>,
    i: int,
)
    requires
        a.len() <= usize::MAX,
        b.len() <= usize::MAX,
        distinct_ids(a),
        distinct_ids(b),
        same_commits(a, b),
        ranked(a, rank),
        generations_settled(a, ga),
        generations_settled(b, gb),
        0 <= i < a.len(),
    ensures
        ga[i] == gb[last_index(b, a[i].id)->0 as int],
    decreases rank[i],
{
    lemma_own_index(a, i);
    lemma_found_in_both(a, b, a[i].id);
    let j = last_index(b, a[i].id)->0 as int;
    assert forall|pos: int| 0 <= pos < a[i].parent_ids.len() implies (last_index(
        a,
        #[trigger] a[i].parent_ids[pos],
    ) matches Some(p) ==> ga[p as int] == gb[last_index(b, a[i].parent_ids[pos])->0 as int]) by {
        let parent = a[i].parent_ids[pos];
        lemma_found_in_both(a, b, parent);
        match last_index(a, parent) {
            Some(p) => {
                assert(rank[p as int] < rank[i]);
                lemma_generations_alike(a, b, ga, gb, rank, p as int);
            },
            None => {},
        }
    }
    lemma_above_alike(a, b, ga, gb, i, j, a[i].parent_ids.len() as int);
    assert(gb[j] == above_parents(b, gb, j, b[j].parent_ids.len() as int));
}

/// The same commits without cycles have the same generations in whatever order they are given.
pub proof fn law_generations_in_any_order(a: Seq<CommitView>, b: Seq<CommitView>, id: ObjectId)
    requires
        a.len() <= u32::MAX,
        a.len() <= usize::MAX,
        b.len() <= u32::MAX,
        b.len() <= usize::MAX,
        distinct_ids(a),
        distinct_ids(b),
        acyclic(a),
        same_commits(a, b),
        last_index(a, id) is Some,
    ensures
        last_index(b, id) is Some,
        generation_of(a, id) == generation_of(b, id),
{
    let rank = choose|rank: Seq<nat>| ranked(a, rank);
    lemma_found_in_both(a, b, id);
    let there = Seq::new(
        b.len(),
        |j: int| rank[last_index(a, b[j].id)->0 as int],
    );
    assert forall|j: int, pos: int|
        0 <= j < b.len() && 0 <= pos < b[j].parent_ids.len() implies (last_index(
        b,
        #[trigger] b[j].parent_ids[pos],
    ) matches Some(q) ==> there[q as int] < there[j]) by {
        let parent = b[j].parent_ids[pos];
        lemma_own_index(b, j);
        lemma_found_in_both(a, b, b[j].id);
        lemma_found_in_both(a, b, parent);
        let i = last_index(a, b[j].id)->0 as int;
        assert(a[i] == b[j]);
        match last_index(b, parent) {
            Some(q) => {
                let p = last_index(a, parent)->0 as int;
                assert(b[q as int].id == parent);
                assert(last_index(a, a[i].parent_ids[pos]) == Some(p as usize));
                assert(rank[p] < rank[i]);
            },
            None => {},
        }
    }
    assert(ranked(b, there));
    law_generations(a);
    law_generations(b);
    lemma_generations_alike(
        a,
        b,
        recomputed(a, None, Seq::new(a.len(), |i: int| 0u32)),
        recomputed(b, None, Seq::new(b.len(), |i: int| 0u32)),
        rank,
        last_index(a, id)->0 as int,
    );
}

} // verus!
