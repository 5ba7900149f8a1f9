//! What a graph of commits says about parents, children and segments.

use crate::commit::CommitView;
use crate::commit_graph::{
    child_at, child_list, child_occurrences, last_index, lemma_last_index, linked, CommitGraph,
};
use crate::generation_laws::distinct_ids;
use crate::names::{local_branch_name, ObjectId};
use crate::native_creation::lemma_own_index;
use vstd::prelude::*;

verus! {

/// The commit with an id is the last one that has it.
pub proof fn law_last_commit(commits: Seq<CommitView>, id: ObjectId, i: usize)
    requires
        commits.len() <= usize::MAX,
    ensures
        last_index(commits, id) == Some(i) <==> i < commits.len() && commits[i as int].id == id
            && forall|j: int| i < j < commits.len() ==> (#[trigger] commits[j]).id != id,
    decreases commits.len(),
{
    if commits.len() > 0 {
        let d = commits.drop_last();
        let n = commits.len() - 1;
        law_last_commit(d, id, i);
        lemma_last_index(d, id);
        assert(commits[n] == commits.last());
        assert forall|j: int| i < j < n implies #[trigger] d[j] == commits[j] by {}
        if forall|j: int| i < j < commits.len() ==> (#[trigger] commits[j]).id != id {
            assert forall|j: int| i < j < d.len() implies (#[trigger] d[j]).id != id by {
                assert(commits[j].id != id);
            }
        }
        if forall|j: int| i < j < d.len() ==> (#[trigger] d[j]).id != id {
            assert forall|j: int| i < j < n implies (#[trigger] commits[j]).id != id by {
                assert(d[j].id != id);
            }
        }
    }
}

/// The children of a commit are, in the order of the graph, the commits that it is a parent of, over
/// connections that the traversal followed; each as often as it is.
#[verifier::rlimit(40)]
pub proof fn law_children(
    commits: Seq<CommitView>,
    links: Option<Set<(ObjectId, ObjectId)>>,
    n: int,
    p: int,
    c: usize,
)
    requires
        distinct_ids(commits),
        0 <= n <= commits.len() <= usize::MAX,
        0 <= p < commits.len(),
    ensures
        ({
            let list = child_list(commits, links, n, p);
            &&& list.contains(c) <==> c < n && commits[c as int].parent_ids.contains(commits[p].id)
                && linked(links, commits[c as int].id, commits[p].id)
            &&& list.filter(|x: usize| x == c).len() == if c < n && linked(
                links,
                commits[c as int].id,
                commits[p].id,
            ) {
                commits[c as int].parent_ids.filter(|id: ObjectId| id == commits[p].id).len()
            } else {
                0
            }
            &&& forall|i: int, j: int|
                0 <= i < j < list.len() ==> #[trigger] list[i] <= #[trigger] list[j]
            &&& forall|i: int| 0 <= i < list.len() ==> #[trigger] list[i] < n
        }),
    decreases n,
{
    let is = |x: usize| x == c;
    if n > 0 {
        law_children(commits, links, n - 1, p, c);
        let k = n - 1;
        let parents = commits[k].parent_ids;
        let before = child_list(commits, links, k, p);
        let own = child_occurrences(commits, links, k, parents.len() as int, p);
        let list = child_list(commits, links, n, p);
        lemma_occurrences_of(commits, links, k, parents.len() as int, p);
        crate::reach::lemma_add_contains(before, own, c);
        Seq::filter_distributes_over_add(before, own, is);
        assert(parents.take(parents.len() as int) =~= parents);
        if own.len() > 0 {
            assert(own[0] == k as usize);
            assert(own.contains(own[0]));
        }
        if own.contains(c) {
            let i = choose|i: int| 0 <= i < own.len() && own[i] == c;
            assert(own[i] == k as usize);
        }
        if c == k {
            lemma_filter_whole(own, is);
        } else {
            lemma_filter_nothing(own, is);
        }
        lemma_filter_found(parents, commits[p].id);
        assert forall|i: int, j: int| 0 <= i < j < list.len() implies #[trigger] list[i]
            <= #[trigger] list[j] by {
            if j < before.len() {
                assert(list[i] == before[i] && list[j] == before[j]);
            } else {
                assert(list[j] == own[j - before.len()]);
                if i < before.len() {
                    assert(list[i] == before[i]);
                } else {
                    assert(list[i] == own[i - before.len()]);
                }
            }
        }
        assert forall|i: int| 0 <= i < list.len() implies #[trigger] list[i] < n by {
            if i < before.len() {
                assert(list[i] == before[i]);
            } else {
                assert(list[i] == own[i - before.len()]);
            }
        }
    } else {
        reveal(Seq::filter);
    }
}

proof fn lemma_filter_whole(s: Seq<usize>, keep: spec_fn(usize) -> bool)
    requires
        forall|i: int| 0 <= i < s.len() ==> keep(#[trigger] s[i]),
    ensures
        s.filter(keep).len() == s.len(),
    decreases s.len(),
{
    reveal(Seq::filter);
    if s.len() > 0 {
        let d = s.drop_last();
        assert forall|i: int| 0 <= i < d.len() implies keep(#[trigger] d[i]) by {
            assert(d[i] == s[i]);
        }
        lemma_filter_whole(d, keep);
        assert(keep(s[s.len() - 1]));
    }
}

proof fn lemma_filter_nothing(s: Seq<usize>, keep: spec_fn(usize) -> bool)
    requires
        forall|i: int| 0 <= i < s.len() ==> !keep(#[trigger] s[i]),
    ensures
        s.filter(keep).len() == 0,
    decreases s.len(),
{
    reveal(Seq::filter);
    if s.len() > 0 {
        let d = s.drop_last();
        assert forall|i: int| 0 <= i < d.len() implies !keep(#[trigger] d[i]) by {
            assert(d[i] == s[i]);
        }
        lemma_filter_nothing(d, keep);
        assert(!keep(s[s.len() - 1]));
    }
}

proof fn lemma_filter_found(ids: Seq<ObjectId>, id: ObjectId)
    ensures
        ids.filter(|x: ObjectId| x == id).len() > 0 <==> ids.contains(id),
{
    let keep = |x: ObjectId| x == id;
    crate::seqs::lemma_filter_contains(ids, keep, id);
    let kept = ids.filter(keep);
    if kept.len() > 0 {
        assert(kept.contains(kept[0]));
        crate::seqs::lemma_filter_contains(ids, keep, kept[0]);
    }
}

proof fn lemma_occurrences_of(
    commits: Seq<CommitView>,
    links: Option<Set<(ObjectId, ObjectId)>>,
    k: int,
    n: int,
    p: int,
)
    requires
        distinct_ids(commits),
        0 <= k < commits.len() <= usize::MAX,
        0 <= p < commits.len(),
        0 <= n <= commits[k].parent_ids.len(),
    ensures
        ({
            let own = child_occurrences(commits, links, k, n, p);
            &&& forall|i: int| 0 <= i < own.len() ==> #[trigger] own[i] == k as usize
            &&& own.len() == if linked(links, commits[k].id, commits[p].id) {
                commits[k].parent_ids.take(n).filter(|id: ObjectId| id == commits[p].id).len()
            } else {
                0
            }
        }),
    decreases n,
{
    let keep = |id: ObjectId| id == commits[p].id;
    let parents = commits[k].parent_ids;
    if n > 0 {
        lemma_occurrences_of(commits, links, k, n - 1, p);
        crate::seqs::lemma_filter_take(parents, keep, n - 1);
        let parent = parents[n - 1];
        lemma_own_index(commits, p);
        lemma_last_index(commits, parent);
        assert(child_at(commits, links, k, n - 1, p) <==> parent == commits[p].id && linked(
            links,
            commits[k].id,
            commits[p].id,
        ));
    } else {
        crate::seqs::lemma_filter_none(parents, keep);
    }
}

/// The first parent of a commit is its first one, if that is in the graph and the traversal followed
/// the connection.
pub proof fn law_first_parent(graph: CommitGraph, k: int, parent: ObjectId)
    requires
        graph.wf(),
        distinct_ids(graph.commits()),
        0 <= k < graph.commits().len(),
    ensures
        ({
            let commits = graph.commits();
            graph.first_parent_of(commits[k].id) == Some(parent) <==> {
                &&& commits[k].parent_ids.len() > 0
                &&& commits[k].parent_ids[0] == parent
                &&& exists|j: int| 0 <= j < commits.len() && #[trigger] commits[j].id == parent
                &&& graph.links() matches Some(set) ==> set.contains((commits[k].id, parent))
            }
        }),
{
    lemma_own_index(graph.commits(), k);
    lemma_last_index(graph.commits(), parent);
    if graph.commits()[k].parent_ids.len() > 0 {
        lemma_last_index(graph.commits(), graph.commits()[k].parent_ids[0]);
    }
}

/// A segment starts at a commit exactly if a local branch is on it, it is a merge, two commits are its
/// children, or it is a parent of one twice.
pub proof fn law_boundary(graph: CommitGraph, k: int)
    requires
        graph.wf(),
        distinct_ids(graph.commits()),
        0 <= k < graph.commits().len(),
    ensures
        ({
            let commits = graph.commits();
            let commit = commits[k];
            let is_child = |c: int|
                0 <= c < commits.len() && commits[c].parent_ids.contains(commit.id) && linked(
                    graph.links(),
                    commits[c].id,
                    commit.id,
                );
            graph.boundary(commit.id) <==> {
                ||| exists|i: int|
                    0 <= i < commit.refs.len() && local_branch_name(#[trigger] commit.refs[i])
                ||| commit.parent_ids.len() >= 2
                ||| exists|a: int, b: int| #[trigger] is_child(a) && #[trigger] is_child(b) && a < b
                ||| exists|a: int|
                    #![trigger commits[a]]
                    is_child(a) && commits[a].parent_ids.filter(
                        |id: ObjectId| id == commit.id,
                    ).len() >= 2
            }
        }),
{
    let commits = graph.commits();
    let commit = commits[k];
    let n = commits.len() as int;
    lemma_own_index(commits, k);
    let list = child_list(commits, graph.links(), n, k);
    let is_child = |c: int|
        0 <= c < commits.len() && commits[c].parent_ids.contains(commit.id) && linked(
            graph.links(),
            commits[c].id,
            commit.id,
        );
    if list.len() > 1 {
        law_children(commits, graph.links(), n, k, list[0]);
        law_children(commits, graph.links(), n, k, list[1]);
        assert(list.contains(list[0]) && list.contains(list[1]));
        let (a, b) = (list[0] as int, list[1] as int);
        assert(is_child(a) && is_child(b));
        if a == b {
            lemma_two_alike(list, list[0]);
            assert(commits[a].parent_ids.filter(|id: ObjectId| id == commit.id).len() >= 2);
        }
    }
    if exists|a: int, b: int| #[trigger] is_child(a) && #[trigger] is_child(b) && a < b {
        let (a, b) = choose|a: int, b: int| #[trigger]
            is_child(a) && #[trigger] is_child(b) && a < b;
        law_children(commits, graph.links(), n, k, a as usize);
        law_children(commits, graph.links(), n, k, b as usize);
        let i = choose|i: int| 0 <= i < list.len() && list[i] == a as usize;
        let j = choose|j: int| 0 <= j < list.len() && list[j] == b as usize;
        assert(i != j);
    }
    assert forall|a: int| #![trigger commits[a]]
        is_child(a) && commits[a].parent_ids.filter(|id: ObjectId| id == commit.id).len()
            >= 2 implies list.len() > 1 by {
        law_children(commits, graph.links(), n, k, a as usize);
        lemma_no_longer(list, |x: usize| x == a as usize);
    }
}

proof fn lemma_no_longer(s: Seq<usize>, keep: spec_fn(usize) -> bool)
    ensures
        s.filter(keep).len() <= s.len(),
    decreases s.len(),
{
    reveal(Seq::filter);
    if s.len() > 0 {
        lemma_no_longer(s.drop_last(), keep);
    }
}

proof fn lemma_two_alike(s: Seq<usize>, c: usize)
    requires
        s.len() > 1,
        s[0] == c,
        s[1] == c,
    ensures
        s.filter(|x: usize| x == c).len() >= 2,
    decreases s.len(),
{
    reveal(Seq::filter);
    let keep = |x: usize| x == c;
    let d = s.drop_last();
    if s.len() > 2 {
        lemma_two_alike(d, c);
    } else {
        assert(d.len() == 1 && d[0] == c);
        assert(d.drop_last().len() == 0);
        assert(d.drop_last().filter(keep).len() == 0);
        assert(d.filter(keep).len() == 1);
    }
}

} // verus!
