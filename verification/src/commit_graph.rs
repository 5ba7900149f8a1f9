//! A commit-first graph: an arena of commits by id, with the edges from each commit to its parents
//! read off the commit, and the edges from each parent to its children derived.

use crate::collections::{SortedMap, SortedSet};
use crate::commit::{
    commits_view, names_view, ref_names, tips_view, Commit, CommitView, RefInfo, Tip,
};
use crate::generation_laws::{acyclic, ranked};
use crate::generations::{generations_within, lemma_children_bounded, recomputed};
use crate::names::{local_branch_name, ObjectId, RefName};
use crate::seqs::{lemma_filter_none, lemma_filter_take, lemma_take_all};
use vstd::prelude::*;

verus! {

/// A commit of the graph, and where it stands topologically.
#[derive(Debug)]
pub struct CommitNode {
    /// The commit.
    pub commit: Commit,
    /// The distance from a root, which is a commit without parents in the graph.
    pub generation: u32,
}

/// The commit-first graph.
pub struct CommitGraph {
    /// The commits, in the order in which they were given.
    pub nodes: Vec<CommitNode>,
    /// The position of each commit, the last one where an id occurs more than once.
    pub by_id: SortedMap<ObjectId, usize>,
    /// The positions of the children of each commit, ascending, once for each time that the child
    /// names the commit as a parent.
    pub children: Vec<Vec<usize>>,
    /// Where the traversal started.
    pub entrypoint: Option<ObjectId>,
    /// The reference that the entrypoint was checked out as.
    pub entrypoint_ref: Option<RefName>,
    /// The commits whose message marks them as managed workspace commits.
    pub managed_ws_commits: SortedSet<ObjectId>,
    /// The pairs of child and parent that the traversal connected, if it was one that can leave
    /// connections out.
    pub connected: Option<SortedSet<(ObjectId, ObjectId)>>,
    /// Whether the traversal stopped at its hard limit.
    pub hard_limit_hit: bool,
    /// The tips that the traversal started at.
    pub traversal_tips: Vec<Tip>,
    /// Whether the tips were given explicitly.
    pub explicit_tips: bool,
}

/// The last position of `id` in `commits`.
pub open spec fn last_index(commits: Seq<CommitView>, id: ObjectId) -> Option<usize>
    decreases commits.len(),
{
    if commits.len() == 0 {
        None
    } else if commits.last().id == id {
        Some((commits.len() - 1) as usize)
    } else {
        last_index(commits.drop_last(), id)
    }
}

/// The last position of each id.
pub open spec fn index_map(commits: Seq<CommitView>) -> Map<ObjectId, usize> {
    Map::new(
        |id: ObjectId| last_index(commits, id) is Some,
        |id: ObjectId| last_index(commits, id)->0,
    )
}

/// What a set of connections stands for.
pub open spec fn links(connected: Option<SortedSet<(ObjectId, ObjectId)>>) -> Option<
    Set<(ObjectId, ObjectId)>,
> {
    match connected {
        Some(set) => Some(set@),
        None => None,
    }
}

/// Whether the connection from `child` to `parent` is one that the traversal followed.
pub open spec fn linked(
    connected: Option<Set<(ObjectId, ObjectId)>>,
    child: ObjectId,
    parent: ObjectId,
) -> bool {
    connected matches Some(set) ==> set.contains((child, parent))
}

/// Whether the parent at `pos` of the commit at `idx` is the commit at `p`, over a connection
/// that the traversal followed.
pub open spec fn child_at(
    commits: Seq<CommitView>,
    connected: Option<Set<(ObjectId, ObjectId)>>,
    idx: int,
    pos: int,
    p: int,
) -> bool {
    let parent = commits[idx].parent_ids[pos];
    linked(connected, commits[idx].id, parent) && (last_index(commits, parent) matches Some(i)
        && i == p)
}

/// `idx`, once for each of its first `n` parents that is the commit at `p`.
pub open spec fn child_occurrences(
    commits: Seq<CommitView>,
    connected: Option<Set<(ObjectId, ObjectId)>>,
    idx: int,
    n: int,
    p: int,
) -> Seq<usize>
    decreases n,
{
    if n <= 0 {
        Seq::empty()
    } else {
        let before = child_occurrences(commits, connected, idx, n - 1, p);
        if child_at(commits, connected, idx, n - 1, p) {
            before.push(idx as usize)
        } else {
            before
        }
    }
}

/// The children of the commit at `p` among the first `n` commits.
pub open spec fn child_list(
    commits: Seq<CommitView>,
    connected: Option<Set<(ObjectId, ObjectId)>>,
    n: int,
    p: int,
) -> Seq<usize>
    decreases n,
{
    if n <= 0 {
        Seq::empty()
    } else {
        child_list(commits, connected, n - 1, p) + child_occurrences(
            commits,
            connected,
            n - 1,
            commits[n - 1].parent_ids.len() as int,
            p,
        )
    }
}

/// What the nodes' commits stand for.
pub open spec fn node_commits(nodes: Seq<CommitNode>) -> Seq<CommitView> {
    nodes.map_values(|n: CommitNode| n.commit@)
}

/// The generations of the nodes.
pub open spec fn node_generations(nodes: Seq<CommitNode>) -> Seq<u32> {
    nodes.map_values(|n: CommitNode| n.generation)
}

/// The last position of an id is one of it, and is there wherever the id is.
pub proof fn lemma_last_index(commits: Seq<CommitView>, id: ObjectId)
    requires
        commits.len() <= usize::MAX,
    ensures
        last_index(commits, id) matches Some(i) ==> i < commits.len() && commits[i as int].id == id,
        last_index(commits, id) is Some <==> exists|i: int|
            0 <= i < commits.len() && #[trigger] commits[i].id == id,
    decreases commits.len(),
{
    if commits.len() > 0 {
        let d = commits.drop_last();
        lemma_last_index(d, id);
        if commits.last().id == id {
            assert(commits[commits.len() - 1].id == id);
        } else {
            if last_index(d, id) is Some {
                let i = choose|i: int| 0 <= i < d.len() && #[trigger] d[i].id == id;
                assert(commits[i].id == id);
            }
            if exists|i: int| 0 <= i < commits.len() && #[trigger] commits[i].id == id {
                let i = choose|i: int| 0 <= i < commits.len() && #[trigger] commits[i].id == id;
                assert(d[i].id == id);
            }
        }
    }
}

impl CommitGraph {
    /// What the commits stand for, in node order.
    pub open spec fn commits(self) -> Seq<CommitView> {
        node_commits(self.nodes@)
    }

    /// The generations, in node order.
    pub open spec fn generations(self) -> Seq<u32> {
        node_generations(self.nodes@)
    }

    /// The connections that count, where only some do.
    pub open spec fn links(self) -> Option<Set<(ObjectId, ObjectId)>> {
        links(self.connected)
    }

    /// The position of the commit `id`.
    pub open spec fn index(self, id: ObjectId) -> Option<usize> {
        last_index(self.commits(), id)
    }

    /// The derived fields say what the commits and connections give.
    pub open spec fn wf(self) -> bool {
        &&& self.nodes@.len() <= usize::MAX
        &&& self.by_id@ == index_map(self.commits())
        &&& self.children@.len() == self.nodes@.len()
        &&& forall|p: int|
            0 <= p < self.nodes@.len() ==> (#[trigger] self.children@[p])@ == child_list(
                self.commits(),
                self.links(),
                self.nodes@.len() as int,
                p,
            )
    }

    /// The node at `id`, if present.
    pub fn node(&self, id: ObjectId) -> (r: Option<&CommitNode>)
        requires
            self.wf(),
        ensures
            r is Some <==> self.index(id) is Some,
            r matches Some(n) ==> *n == self.nodes@[self.index(id)->0 as int],
    {
        proof {
            lemma_last_index(self.commits(), id);
        }
        match self.by_id.get(&id) {
            Some(idx) => Some(&self.nodes[*idx]),
            None => None,
        }
    }
}

/// The position of each commit, for the nodes as they stand.
fn build_index(nodes: &Vec<CommitNode>) -> (r: SortedMap<ObjectId, usize>)
    ensures
        r@ == index_map(node_commits(nodes@)),
{
    let mut r: SortedMap<ObjectId, usize> = SortedMap::new();
    let ghost commits = node_commits(nodes@);
    let mut i: usize = 0;
    assert(r@ =~= index_map(commits.take(0)));
    while i < nodes.len()
        invariant
            i <= nodes@.len(),
            commits == node_commits(nodes@),
            r@ == index_map(commits.take(i as int)),
        decreases nodes.len() - i,
    {
        let ghost before = r@;
        r.insert(nodes[i].commit.id, i);
        proof {
            assert(commits.take(i + 1).drop_last() =~= commits.take(i as int));
            assert(commits.take(i + 1).last() == commits[i as int]);
            assert(r@ =~= index_map(commits.take(i + 1)));
        }
        i += 1;
    }
    assert(commits.take(commits.len() as int) =~= commits);
    r
}

/// The children of each commit, over the connections that count.
#[verifier::loop_isolation(false)]
fn build_children(
    nodes: &Vec<CommitNode>,
    by_id: &SortedMap<ObjectId, usize>,
    connected: &Option<SortedSet<(ObjectId, ObjectId)>>,
) -> (children: Vec<Vec<usize>>)
    requires
        by_id@ == index_map(node_commits(nodes@)),
    ensures
        children@.len() == nodes@.len(),
        forall|p: int|
            0 <= p < nodes@.len() ==> (#[trigger] children@[p])@ == child_list(
                node_commits(nodes@),
                links(*connected),
                nodes@.len() as int,
                p,
            ),
{
    let ghost commits = node_commits(nodes@);
    let ghost conn = links(*connected);
    let mut children: Vec<Vec<usize>> = Vec::new();
    let mut i: usize = 0;
    while i < nodes.len()
        invariant
            i <= nodes@.len(),
            children@.len() == i,
            forall|p: int| 0 <= p < i ==> (#[trigger] children@[p])@ == Seq::<usize>::empty(),
        decreases nodes.len() - i,
    {
        children.push(Vec::new());
        i += 1;
    }
    let mut idx: usize = 0;
    while idx < nodes.len()
        invariant
            idx <= nodes@.len(),
            children@.len() == nodes@.len(),
            forall|p: int|
                0 <= p < nodes@.len() ==> (#[trigger] children@[p])@ == child_list(
                    commits,
                    conn,
                    idx as int,
                    p,
                ),
        decreases nodes.len() - idx,
    {
        let ghost base = children@;
        let id = nodes[idx].commit.id;
        let parent_ids = &nodes[idx].commit.parent_ids;
        assert(commits[idx as int].parent_ids == parent_ids@);
        let mut pos: usize = 0;
        assert forall|p: int| 0 <= p < nodes@.len() implies (#[trigger] children@[p])@
            == child_list(commits, conn, idx as int, p) + child_occurrences(
            commits,
            conn,
            idx as int,
            0,
            p,
        ) by {
            assert(child_list(commits, conn, idx as int, p) + Seq::<usize>::empty() =~= child_list(
                commits,
                conn,
                idx as int,
                p,
            ));
        }
        while pos < parent_ids.len()
            invariant
                pos <= parent_ids@.len(),
                children@.len() == nodes@.len(),
                forall|p: int|
                    0 <= p < nodes@.len() ==> (#[trigger] children@[p])@ == child_list(
                        commits,
                        conn,
                        idx as int,
                        p,
                    ) + child_occurrences(commits, conn, idx as int, pos as int, p),
            decreases parent_ids.len() - pos,
        {
            let parent = parent_ids[pos];
            let follows: bool = match connected {
                Some(set) => set.contains(&(id, parent)),
                None => true,
            };
            let ghost before = children@;
            if follows {
                match by_id.get(&parent) {
                    Some(pidx) => {
                        proof {
                            lemma_last_index(commits, parent);
                        }
                        children[*pidx].push(idx);
                    },
                    None => {},
                }
            }
            assert forall|p: int| 0 <= p < nodes@.len() implies (#[trigger] children@[p])@
                == child_list(commits, conn, idx as int, p) + child_occurrences(
                commits,
                conn,
                idx as int,
                pos + 1,
                p,
            ) by {
                let list = child_list(commits, conn, idx as int, p);
                let occ = child_occurrences(commits, conn, idx as int, pos as int, p);
                assert(before[p]@ == list + occ);
                assert((list + occ).push(idx) =~= list + occ.push(idx));
                if child_at(commits, conn, idx as int, pos as int, p) {
                    assert(children@[p]@ == before[p]@.push(idx));
                } else {
                    assert(children@[p]@ == before[p]@);
                }
            }
            pos += 1;
        }
        idx += 1;
    }
    children
}

impl CommitGraph {
    /// The graph of `commits`. A commit whose parents are not among them is a root of it.
    pub fn from_commits(commits: Vec<Commit>, entrypoint: Option<ObjectId>) -> (r: CommitGraph)
        requires
            commits@.len() <= u32::MAX,
        ensures
            r.wf(),
            r.commits() == commits_view(commits@),
            r.generations() == recomputed(
                commits_view(commits@),
                None,
                Seq::new(commits@.len(), |i: int| 0u32),
            ),
            generations_within(r.generations(), commits@.len() as int),
            r.entrypoint == entrypoint,
            r.entrypoint_ref is None,
            r.managed_ws_commits@ == Set::<ObjectId>::empty(),
            r.connected is None,
            !r.hard_limit_hit,
            tips_view(r.traversal_tips@) == Seq::<Seq<char>>::empty(),
            !r.explicit_tips,
    {
        let ghost given = commits@;
        let mut nodes: Vec<CommitNode> = Vec::new();
        for commit in it: commits
            invariant
                it.seq() == given,
                nodes@.len() == it.index(),
                forall|i: int|
                    0 <= i < it.index() ==> (#[trigger] nodes@[i]).commit == given[i]
                        && nodes@[i].generation == 0,
        {
            nodes.push(CommitNode { commit, generation: 0 });
        }
        assert(node_commits(nodes@) =~= commits_view(given));
        assert(node_generations(nodes@) =~= Seq::new(given.len(), |i: int| 0u32));
        let by_id = build_index(&nodes);
        let connected: Option<SortedSet<(ObjectId, ObjectId)>> = None;
        let children = build_children(&nodes, &by_id, &connected);
        let mut graph = CommitGraph {
            nodes,
            by_id,
            children,
            entrypoint,
            entrypoint_ref: None,
            managed_ws_commits: SortedSet::new(),
            connected,
            hard_limit_hit: false,
            traversal_tips: Vec::new(),
            explicit_tips: false,
        };
        assert(generations_within(graph.generations(), 0));
        graph.recompute_generations();
        assert(tips_view(graph.traversal_tips@) =~= Seq::<Seq<char>>::empty());
        graph
    }

    /// Restricts the connections to the given pairs of child and parent.
    pub fn set_connected(&mut self, connected: SortedSet<(ObjectId, ObjectId)>)
        requires
            old(self).wf(),
            generations_within(old(self).generations(), u32::MAX - old(self).nodes@.len()),
        ensures
            final(self).wf(),
            final(self).commits() == old(self).commits(),
            final(self).connected == Some(connected),
            final(self).generations() == recomputed(
                old(self).commits(),
                Some(connected@),
                old(self).generations(),
            ),
            final(self).entrypoint == old(self).entrypoint,
            final(self).entrypoint_ref == old(self).entrypoint_ref,
            final(self).managed_ws_commits == old(self).managed_ws_commits,
            final(self).hard_limit_hit == old(self).hard_limit_hit,
            final(self).traversal_tips == old(self).traversal_tips,
            final(self).explicit_tips == old(self).explicit_tips,
    {
        let connected = Some(connected);
        self.children = build_children(&self.nodes, &self.by_id, &connected);
        self.connected = connected;
        self.recompute_generations();
    }

    /// Whether the connection from `child` to `parent` is one that the traversal followed.
    pub fn is_connected(&self, child: ObjectId, parent: ObjectId) -> (r: bool)
        ensures
            r == linked(self.links(), child, parent),
    {
        match &self.connected {
            Some(set) => set.contains(&(child, parent)),
            None => true,
        }
    }

    /// Records that the commit `id` is a managed workspace commit if its message says so. There is
    /// nothing to record of a commit whose message could not be read.
    pub fn mark_managed_ws_commit_by_message(
        &mut self,
        id: ObjectId,
        message_is_managed: Option<bool>,
    )
        requires
            old(self).wf(),
        ensures
            final(self).wf(),
            final(self).managed_ws_commits@ == if message_is_managed == Some(true) {
                old(self).managed_ws_commits@.insert(id)
            } else {
                old(self).managed_ws_commits@
            },
            final(self).nodes == old(self).nodes,
            final(self).same_but_managed(*old(self)),
    {
        if let Some(managed) = message_is_managed {
            if managed {
                self.managed_ws_commits.insert(id);
            }
        }
    }

    /// All fields but the managed workspace commits are those of `other`.
    pub open spec fn same_but_managed(self, other: CommitGraph) -> bool {
        &&& self.nodes == other.nodes
        &&& self.by_id == other.by_id
        &&& self.children == other.children
        &&& self.entrypoint == other.entrypoint
        &&& self.entrypoint_ref == other.entrypoint_ref
        &&& self.connected == other.connected
        &&& self.hard_limit_hit == other.hard_limit_hit
        &&& self.traversal_tips == other.traversal_tips
        &&& self.explicit_tips == other.explicit_tips
    }

    /// Where the traversal started.
    pub fn entrypoint(&self) -> (r: Option<ObjectId>)
        ensures
            r == self.entrypoint,
    {
        self.entrypoint
    }

    /// The reference that the entrypoint was checked out as.
    pub fn entrypoint_ref(&self) -> (r: Option<&RefName>)
        ensures
            r is Some <==> self.entrypoint_ref is Some,
            r matches Some(name) ==> Some(*name) == self.entrypoint_ref,
    {
        match &self.entrypoint_ref {
            Some(name) => Some(name),
            None => None,
        }
    }

    /// Whether `id` is a managed workspace commit.
    pub fn is_managed_ws_commit(&self, id: ObjectId) -> (r: bool)
        ensures
            r == self.managed_ws_commits@.contains(id),
    {
        self.managed_ws_commits.contains(&id)
    }

    /// The id of each commit, in node order.
    pub fn commit_ids(&self) -> (r: Vec<ObjectId>)
        ensures
            r@ == self.commits().map_values(|c: CommitView| c.id),
    {
        let mut r: Vec<ObjectId> = Vec::new();
        let mut i: usize = 0;
        while i < self.nodes.len()
            invariant
                i <= self.nodes@.len(),
                r@ =~= self.commits().take(i as int).map_values(|c: CommitView| c.id),
            decreases self.nodes.len() - i,
        {
            r.push(self.nodes[i].commit.id);
            i += 1;
        }
        proof {
            lemma_take_all(self.commits());
        }
        r
    }

    /// The parents of the commit `id`, in order, that `keep` accepts; none if the graph does not
    /// have the commit.
    pub open spec fn parents_where(
        self,
        id: ObjectId,
        keep: spec_fn(ObjectId) -> bool,
    ) -> Seq<ObjectId> {
        match self.index(id) {
            Some(idx) => self.commits()[idx as int].parent_ids.filter(keep),
            None => Seq::empty(),
        }
    }

    /// The full list of the parents of the commit `id`, the first parent first, those that are not
    /// in the graph included: who reads it keeps these. Only a parent in the graph to which the
    /// traversal cut the connection is left out.
    #[verifier::loop_isolation(false)]
    pub fn all_parent_ids(&self, id: ObjectId) -> (r: Vec<ObjectId>)
        requires
            self.wf(),
        ensures
            r@ == self.parents_where(
                id,
                |p: ObjectId| linked(self.links(), id, p) || self.index(p) is None,
            ),
    {
        let mut r: Vec<ObjectId> = Vec::new();
        let ghost keep = |p: ObjectId| linked(self.links(), id, p) || self.index(p) is None;
        if let Some(n) = self.node(id) {
            let parent_ids = &n.commit.parent_ids;
            assert(self.commits()[self.index(id)->0 as int].parent_ids == parent_ids@) by {
                lemma_last_index(self.commits(), id);
            }
            let mut i: usize = 0;
            proof {
                lemma_filter_none(parent_ids@, keep);
            }
            while i < parent_ids.len()
                invariant
                    i <= parent_ids@.len(),
                    r@ == parent_ids@.take(i as int).filter(keep),
                decreases parent_ids.len() - i,
            {
                proof {
                    lemma_filter_take(parent_ids@, keep, i as int);
                }
                if self.is_connected(id, parent_ids[i]) || !self.by_id.contains_key(
                    &parent_ids[i],
                ) {
                    r.push(parent_ids[i]);
                }
                i += 1;
            }
            proof {
                lemma_take_all(parent_ids@);
            }
        }
        r
    }

    /// The parents of the commit `id` that are in the graph, the first parent first.
    #[verifier::loop_isolation(false)]
    pub fn parents(&self, id: ObjectId) -> (r: Vec<ObjectId>)
        requires
            self.wf(),
        ensures
            r@ == self.parents_where(id, |p: ObjectId| self.index(p) is Some),
    {
        let mut r: Vec<ObjectId> = Vec::new();
        let ghost keep = |p: ObjectId| self.index(p) is Some;
        if let Some(n) = self.node(id) {
            let parent_ids = &n.commit.parent_ids;
            assert(self.commits()[self.index(id)->0 as int].parent_ids == parent_ids@) by {
                lemma_last_index(self.commits(), id);
            }
            let mut i: usize = 0;
            proof {
                lemma_filter_none(parent_ids@, keep);
            }
            while i < parent_ids.len()
                invariant
                    i <= parent_ids@.len(),
                    r@ == parent_ids@.take(i as int).filter(keep),
                decreases parent_ids.len() - i,
            {
                proof {
                    lemma_filter_take(parent_ids@, keep, i as int);
                }
                if self.by_id.contains_key(&parent_ids[i]) {
                    r.push(parent_ids[i]);
                }
                i += 1;
            }
            proof {
                lemma_take_all(parent_ids@);
            }
        }
        r
    }

    /// The commit that the reference `name` points at, if the graph has it.
    #[verifier::loop_isolation(false)]
    pub fn commit_by_ref(&self, name: &RefName) -> (r: Option<ObjectId>)
        ensures
            r matches Some(id) ==> exists|i: int|
                {
                    &&& 0 <= i < self.commits().len()
                    &&& id == (#[trigger] self.commits()[i]).id
                    &&& self.commits()[i].refs.contains(name@)
                    &&& forall|j: int|
                        0 <= j < i ==> !(#[trigger] self.commits()[j]).refs.contains(name@)
                },
            r is None ==> forall|j: int|
                0 <= j < self.commits().len() ==> !(#[trigger] self.commits()[j]).refs.contains(
                    name@,
                ),
    {
        let mut i: usize = 0;
        while i < self.nodes.len()
            invariant
                i <= self.nodes@.len(),
                forall|j: int|
                    0 <= j < i ==> !(#[trigger] self.commits()[j]).refs.contains(name@),
            decreases self.nodes.len() - i,
        {
            let refs = &self.nodes[i].commit.refs;
            assert(self.commits()[i as int].refs == ref_names(refs@));
            if refs_contain(refs, name) {
                return Some(self.nodes[i].commit.id);
            }
            i += 1;
        }
        None
    }

    /// The names of the references that point at the commit `id`.
    #[verifier::loop_isolation(false)]
    pub fn refs_at(&self, id: ObjectId) -> (r: Vec<RefName>)
        requires
            self.wf(),
        ensures
            names_view(r@) == match self.index(id) {
                Some(idx) => self.commits()[idx as int].refs,
                None => Seq::empty(),
            },
    {
        let mut r: Vec<RefName> = Vec::new();
        assert(names_view(r@) =~= Seq::empty());
        if let Some(n) = self.node(id) {
            let refs = &n.commit.refs;
            assert(self.commits()[self.index(id)->0 as int].refs == ref_names(refs@)) by {
                lemma_last_index(self.commits(), id);
            }
            let mut i: usize = 0;
            while i < refs.len()
                invariant
                    i <= refs@.len(),
                    names_view(r@) =~= ref_names(refs@).take(i as int),
                decreases refs.len() - i,
            {
                let ghost before = r@;
                r.push(refs[i].ref_name.clone());
                assert(names_view(r@) =~= names_view(before).push(refs@[i as int]@));
                i += 1;
            }
        }
        r
    }

    /// The first parent of the commit `id`, if it is in the graph and connected.
    pub open spec fn first_parent_of(self, id: ObjectId) -> Option<ObjectId> {
        match self.index(id) {
            Some(idx) => {
                let parents = self.commits()[idx as int].parent_ids;
                if parents.len() > 0 && self.index(parents[0]) is Some && linked(
                    self.links(),
                    id,
                    parents[0],
                ) {
                    Some(parents[0])
                } else {
                    None
                }
            },
            None => None,
        }
    }

    /// The first parent of the commit `id`, if it is in the graph and connected.
    pub fn first_parent(&self, id: ObjectId) -> (r: Option<ObjectId>)
        requires
            self.wf(),
        ensures
            r == self.first_parent_of(id),
    {
        proof {
            lemma_last_index(self.commits(), id);
        }
        let n = match self.node(id) {
            Some(n) => n,
            None => return None,
        };
        if n.commit.parent_ids.len() == 0 {
            return None;
        }
        let parent = n.commit.parent_ids[0];
        if self.by_id.contains_key(&parent) && self.is_connected(id, parent) {
            Some(parent)
        } else {
            None
        }
    }

    /// The positions of the children of the commit `id`.
    pub open spec fn child_positions(self, id: ObjectId) -> Seq<usize> {
        match self.index(id) {
            Some(idx) => child_list(
                self.commits(),
                self.links(),
                self.commits().len() as int,
                idx as int,
            ),
            None => Seq::empty(),
        }
    }

    /// The children of the commit `id`: the commits that name it as a parent, in node order.
    #[verifier::loop_isolation(false)]
    pub fn children(&self, id: ObjectId) -> (r: Vec<ObjectId>)
        requires
            self.wf(),
        ensures
            r@ == self.child_positions(id).map_values(|i: usize| self.commits()[i as int].id),
    {
        let mut r: Vec<ObjectId> = Vec::new();
        proof {
            lemma_last_index(self.commits(), id);
        }
        let ghost f = |i: usize| self.commits()[i as int].id;
        match self.by_id.get(&id) {
            Some(idx) => {
                let list = &self.children[*idx];
                proof {
                    lemma_children_bounded(
                        self.commits(),
                        self.links(),
                        self.commits().len() as int,
                        *idx as int,
                    );
                }
                let mut i: usize = 0;
                while i < list.len()
                    invariant
                        i <= list@.len(),
                        r@ =~= list@.take(i as int).map_values(f),
                    decreases list.len() - i,
                {
                    assert(self.child_positions(id)[i as int] < self.nodes@.len());
                    r.push(self.nodes[list[i]].commit.id);
                    i += 1;
                }
                proof {
                    lemma_take_all(list@);
                }
            },
            None => {
                assert(r@ =~= self.child_positions(id).map_values(f));
            },
        }
        r
    }

    /// Whether a segment starts at the commit `id`: a local branch points at it, it is a merge, or
    /// it has more than one child.
    pub open spec fn boundary(self, id: ObjectId) -> bool {
        match self.index(id) {
            Some(idx) => {
                let commit = self.commits()[idx as int];
                ||| exists|i: int|
                    0 <= i < commit.refs.len() && local_branch_name(#[trigger] commit.refs[i])
                ||| commit.parent_ids.len() > 1
                ||| self.child_positions(id).len() > 1
            },
            None => false,
        }
    }

    /// Whether a walk along first parents stops before it enters the commit `id`, because a
    /// segment starts there.
    #[verifier::loop_isolation(false)]
    pub fn is_segment_boundary(&self, id: ObjectId) -> (r: bool)
        requires
            self.wf(),
        ensures
            r == self.boundary(id),
    {
        proof {
            lemma_last_index(self.commits(), id);
        }
        let n = match self.node(id) {
            Some(n) => n,
            None => return false,
        };
        let ghost commit = self.commits()[self.index(id)->0 as int];
        let refs = &n.commit.refs;
        assert(commit.refs == ref_names(refs@));
        let mut has_local_branch_ref: bool = false;
        let mut i: usize = 0;
        while i < refs.len()
            invariant
                i <= refs@.len(),
                has_local_branch_ref == exists|j: int|
                    0 <= j < i && local_branch_name(#[trigger] commit.refs[j]),
            decreases refs.len() - i,
        {
            assert(commit.refs[i as int] == refs@[i as int]@);
            if refs[i].ref_name.is_local_branch() {
                has_local_branch_ref = true;
            }
            i += 1;
        }
        let is_merge: bool = n.commit.parent_ids.len() > 1;
        let is_branch_point: bool = self.children(id).len() > 1;
        has_local_branch_ref || is_merge || is_branch_point
    }

    /// The commit that follows `id` in its segment.
    pub open spec fn next_in_run(self, id: ObjectId) -> Option<ObjectId> {
        match self.first_parent_of(id) {
            Some(next) => if self.boundary(next) {
                None
            } else {
                Some(next)
            },
            None => None,
        }
    }

    /// `run` goes from `start` along first parents as far as no segment starts, and ends there.
    pub open spec fn is_run(self, start: ObjectId, run: Seq<ObjectId>) -> bool {
        &&& run.len() > 0
        &&& run[0] == start
        &&& forall|i: int|
            0 <= i < run.len() - 1 ==> self.next_in_run(#[trigger] run[i]) == Some(run[i + 1])
        &&& self.next_in_run(run[run.len() - 1]) is None
    }

    /// The commits of the segment that starts at `start`. The walk along first parents has to end,
    /// which it does unless it comes back to a commit.
    pub fn first_parent_run(&self, start: ObjectId) -> (r: Vec<ObjectId>)
        requires
            self.wf(),
            exists|run: Seq<ObjectId>| self.is_run(start, run),
        ensures
            self.is_run(start, r@),
    {
        let ghost whole = choose|run: Seq<ObjectId>| self.is_run(start, run);
        let mut run: Vec<ObjectId> = Vec::new();
        let mut cur: ObjectId = start;
        loop
            invariant_except_break
                run@.len() < whole.len(),
                whole[run@.len() as int] == cur,
                run@ =~= whole.take(run@.len() as int),
            invariant
                self.wf(),
                self.is_run(start, whole),
            ensures
                run@ == whole,
            decreases whole.len() - run@.len(),
        {
            let ghost k = run@.len() as int;
            run.push(cur);
            assert(run@ =~= whole.take(k + 1));
            match self.first_parent(cur) {
                Some(next) => {
                    if self.is_segment_boundary(next) {
                        assert(self.next_in_run(cur) is None);
                        assert(k == whole.len() - 1) by {
                            if k < whole.len() - 1 {
                                assert(self.next_in_run(whole[k]) == Some(whole[k + 1]));
                            }
                        }
                        assert(run@ =~= whole);
                        break;
                    }
                    assert(self.next_in_run(whole[k]) == Some(next));
                    cur = next;
                },
                None => {
                    assert(k == whole.len() - 1) by {
                        if k < whole.len() - 1 {
                            assert(self.next_in_run(whole[k]) == Some(whole[k + 1]));
                        }
                    }
                    assert(run@ =~= whole);
                    break;
                },
            }
        }
        run
    }

    /// The commits that a workspace reaches, in node order.
    #[verifier::loop_isolation(false)]
    pub fn in_workspace(&self) -> (r: Vec<ObjectId>)
        ensures
            r@ == self.commits().filter(|c: CommitView| c.flags.in_workspace).map_values(
                |c: CommitView| c.id,
            ),
    {
        let ghost keep = |c: CommitView| c.flags.in_workspace;
        let ghost f = |c: CommitView| c.id;
        let mut r: Vec<ObjectId> = Vec::new();
        let mut i: usize = 0;
        proof {
            lemma_filter_none(self.commits(), keep);
        }
        while i < self.nodes.len()
            invariant
                i <= self.nodes@.len(),
                r@ =~= self.commits().take(i as int).filter(keep).map_values(f),
            decreases self.nodes.len() - i,
        {
            proof {
                lemma_filter_take(self.commits(), keep, i as int);
            }
            assert(self.commits()[i as int].flags == self.nodes@[i as int].commit.flags@);
            if self.nodes[i].commit.flags.in_workspace {
                r.push(self.nodes[i].commit.id);
            }
            i += 1;
        }
        proof {
            lemma_take_all(self.commits());
        }
        r
    }
}

/// Whether one of the references has this name.
pub fn refs_contain(refs: &Vec<RefInfo>, name: &RefName) -> (r: bool)
    ensures
        r == ref_names(refs@).contains(name@),
{
    let mut i: usize = 0;
    while i < refs.len()
        invariant
            i <= refs@.len(),
            forall|j: int| 0 <= j < i ==> ref_names(refs@)[j] != name@,
        decreases refs.len() - i,
    {
        if refs[i].ref_name.same(name) {
            assert(ref_names(refs@)[i as int] == name@);
            return true;
        }
        i += 1;
    }
    false
}

/// Along first parents the rank falls, so that the walk has to end.
proof fn lemma_run_exists(graph: CommitGraph, rank: Seq<nat>, start: ObjectId)
    requires
        graph.nodes@.len() <= usize::MAX,
        ranked(graph.commits(), rank),
    ensures
        exists|run: Seq<ObjectId>| graph.is_run(start, run),
    decreases
        match graph.index(start) {
            Some(idx) => rank[idx as int] + 1,
            None => 0,
        },
{
    match graph.next_in_run(start) {
        Some(next) => {
            let commits = graph.commits();
            let idx = graph.index(start)->0 as int;
            lemma_last_index(commits, start);
            assert(commits[idx].parent_ids[0] == next);
            lemma_run_exists(graph, rank, next);
            let rest = choose|run: Seq<ObjectId>| graph.is_run(next, run);
            let run = seq![start] + rest;
            assert forall|i: int| 0 <= i < run.len() - 1 implies graph.next_in_run(
                #[trigger] run[i],
            ) == Some(run[i + 1]) by {
                if i > 0 {
                    assert(run[i] == rest[i - 1]);
                    assert(run[i + 1] == rest[i]);
                }
            }
            assert(run[run.len() - 1] == rest[rest.len() - 1]);
            assert(graph.is_run(start, run));
        },
        None => {
            assert(graph.is_run(start, seq![start]));
        },
    }
}

/// In a graph without cycles every walk along first parents ends.
pub proof fn law_runs_end(graph: CommitGraph, start: ObjectId)
    requires
        graph.wf(),
        acyclic(graph.commits()),
    ensures
        exists|run: Seq<ObjectId>| graph.is_run(start, run),
{
    let rank = choose|rank: Seq<nat>| ranked(graph.commits(), rank);
    lemma_run_exists(graph, rank, start);
}

/// A walk along first parents is determined by where it starts.
pub proof fn law_run_unique(
    graph: CommitGraph,
    start: ObjectId,
    a: Seq<ObjectId>,
    b: Seq<ObjectId>,
)
    requires
        graph.is_run(start, a),
        graph.is_run(start, b),
    ensures
        a == b,
{
    lemma_runs_agree(graph, start, a, b, if a.len() < b.len() {
        a.len() as int
    } else {
        b.len() as int
    });
    if a.len() < b.len() {
        let k = a.len() - 1;
        assert(graph.next_in_run(b[k]) == Some(b[k + 1]));
    } else if b.len() < a.len() {
        let k = b.len() - 1;
        assert(graph.next_in_run(a[k]) == Some(a[k + 1]));
    }
    assert(a =~= b);
}

proof fn lemma_runs_agree(
    graph: CommitGraph,
    start: ObjectId,
    a: Seq<ObjectId>,
    b: Seq<ObjectId>,
    n: int,
)
    requires
        graph.is_run(start, a),
        graph.is_run(start, b),
        0 < n <= a.len(),
        n <= b.len(),
    ensures
        forall|i: int| 0 <= i < n ==> a[i] == b[i],
    decreases n,
{
    if n > 1 {
        lemma_runs_agree(graph, start, a, b, n - 1);
        assert(graph.next_in_run(a[n - 2]) == Some(a[n - 1]));
        assert(graph.next_in_run(b[n - 2]) == Some(b[n - 1]));
    }
}

} // verus!
