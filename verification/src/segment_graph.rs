//! The segment graph that a traversal yields: runs of commits, connected with one another, and the
//! commit graph that it flattens into.

use crate::collections::SortedSet;
use crate::commit::{
    clone_tips, commits_view, opt_name, ref_names, tips_view, Commit, CommitView, RefInfo, Tip,
};
use crate::commit_graph::{refs_contain, CommitGraph};
use crate::generations::recomputed;
use crate::names::{ObjectId, RefName};
use crate::text::{decimal, decimal_text, join, join_text, texts};
use vstd::prelude::*;
use vstd::string::*;

verus! {

/// The position of a segment in its graph.
pub type SegmentIndex = usize;

/// A connection from a segment to another one.
#[derive(Debug, Clone, Copy)]
pub struct Connection {
    /// The commit that the connection leaves, the last one of its segment if it is not given.
    pub src_id: Option<ObjectId>,
    /// The commit that the connection reaches, if it is known.
    pub dst_id: Option<ObjectId>,
    /// The segment that the connection reaches.
    pub target: SegmentIndex,
}

/// A run of commits.
#[derive(Debug)]
pub struct Segment {
    /// The reference that names the segment.
    pub ref_info: Option<RefInfo>,
    /// The commits, from the tip down.
    pub commits: Vec<Commit>,
    /// The connections to other segments.
    pub connections: Vec<Connection>,
}

/// Which commit of the entrypoint's segment the traversal started at.
#[derive(Debug, Clone, Copy)]
pub enum EntryPointCommit {
    /// The tip of the segment.
    SegmentTip,
    /// The commit with this id, wherever it is.
    AtCommit(ObjectId),
}

/// The segments of a traversal.
#[derive(Debug)]
pub struct SegmentGraph {
    /// The segments.
    pub segments: Vec<Segment>,
    /// The segment that the traversal started at, and which commit.
    pub entrypoint: Option<(SegmentIndex, EntryPointCommit)>,
    /// Whether the traversal stopped at its hard limit.
    pub hard_limit_hit: bool,
    /// The tips that the traversal started at.
    pub traversal_tips: Vec<Tip>,
}

/// What a [`Segment`] stands for.
#[verifier::ext_equal]
pub struct SegmentView {
    /// The name of the segment.
    pub name: Option<Seq<u8>>,
    /// The commits, from the tip down.
    pub commits: Seq<CommitView>,
    /// The connections to other segments.
    pub connections: Seq<Connection>,
}

/// The name that the reference has.
pub open spec fn info_name(info: Option<RefInfo>) -> Option<Seq<u8>> {
    match info {
        Some(info) => Some(info@),
        None => None,
    }
}

impl View for Segment {
    type V = SegmentView;

    open spec fn view(&self) -> SegmentView {
        SegmentView {
            name: info_name(self.ref_info),
            commits: commits_view(self.commits@),
            connections: self.connections@,
        }
    }
}

/// What the segments stand for.
pub open spec fn segments_view(segments: Seq<Segment>) -> Seq<SegmentView> {
    segments.map_values(|s: Segment| s@)
}

/// Whether one of the commits is `id`.
pub open spec fn has_commit(commits: Seq<CommitView>, id: ObjectId) -> bool {
    exists|i: int| 0 <= i < commits.len() && #[trigger] commits[i].id == id
}

/// The first of the first `n` segments that has the commit `id`.
pub open spec fn owner_of(segments: Seq<SegmentView>, id: ObjectId, n: int) -> Option<int>
    decreases n,
{
    if n <= 0 {
        None
    } else {
        match owner_of(segments, id, n - 1) {
            Some(s) => Some(s),
            None => if has_commit(segments[n - 1].commits, id) {
                Some(n - 1)
            } else {
                None
            },
        }
    }
}

impl SegmentGraph {
    /// What the segments stand for.
    pub open spec fn view(self) -> Seq<SegmentView> {
        segments_view(self.segments@)
    }

    /// Connections lead to segments of the graph, and the entrypoint is one.
    pub open spec fn wf(self) -> bool {
        &&& forall|s: int, c: int|
            0 <= s < self.segments@.len() && 0 <= c < self.segments@[s].connections@.len()
                ==> (#[trigger] self.segments@[s].connections@[c]).target < self.segments@.len()
        &&& self.entrypoint matches Some(ep) ==> ep.0 < self.segments@.len()
    }

    /// The commit that the traversal started at, and the segment that owns it. The entrypoint's own
    /// segment comes first in the search for it.
    pub open spec fn entry_commit(self) -> Option<(ObjectId, int)> {
        match self.entrypoint {
            Some((segment, EntryPointCommit::SegmentTip)) => {
                let commits = self@[segment as int].commits;
                if commits.len() > 0 {
                    Some((commits[0].id, segment as int))
                } else {
                    None
                }
            },
            Some((segment, EntryPointCommit::AtCommit(id))) => if has_commit(
                self@[segment as int].commits,
                id,
            ) {
                Some((id, segment as int))
            } else {
                match owner_of(self@, id, self@.len() as int) {
                    Some(s) => Some((id, s)),
                    None => None,
                }
            },
            None => None,
        }
    }
}

/// Whether one of the commits is `id`.
pub fn commits_contain(commits: &Vec<Commit>, id: ObjectId) -> (r: bool)
    ensures
        r == has_commit(commits_view(commits@), id),
{
    let mut i: usize = 0;
    while i < commits.len()
        invariant
            i <= commits@.len(),
            forall|j: int| 0 <= j < i ==> (#[trigger] commits_view(commits@)[j]).id != id,
        decreases commits.len() - i,
    {
        assert(commits_view(commits@)[i as int] == commits@[i as int]@);
        if commits[i].id == id {
            assert(commits_view(commits@)[i as int].id == id);
            return true;
        }
        i += 1;
    }
    false
}

impl SegmentGraph {
    /// The commit that the traversal started at, and the segment that owns it.
    pub fn entrypoint_commit(&self) -> (r: Option<(ObjectId, SegmentIndex)>)
        requires
            self.wf(),
        ensures
            r is Some <==> self.entry_commit() is Some,
            r matches Some((id, owner)) ==> self.entry_commit() == Some((id, owner as int)) && owner
                < self.segments@.len(),
    {
        match &self.entrypoint {
            None => None,
            Some((segment, commit)) => {
                let own = &self.segments[*segment];
                assert(own@ == self@[*segment as int]);
                match commit {
                    EntryPointCommit::SegmentTip => {
                        if own.commits.len() > 0 {
                            assert(own@.commits[0] == own.commits@[0]@);
                            Some((own.commits[0].id, *segment))
                        } else {
                            None
                        }
                    },
                    EntryPointCommit::AtCommit(id) => {
                        if commits_contain(&own.commits, *id) {
                            return Some((*id, *segment));
                        }
                        let mut s: usize = 0;
                        while s < self.segments.len()
                            invariant
                                s <= self.segments@.len(),
                                owner_of(self@, *id, s as int) is None,
                                self.entry_commit() == (match owner_of(
                                    self@,
                                    *id,
                                    self@.len() as int,
                                ) {
                                    Some(s) => Some((*id, s)),
                                    None => None,
                                }),
                            decreases self.segments.len() - s,
                        {
                            assert(self@[s as int] == self.segments@[s as int]@);
                            if commits_contain(&self.segments[s].commits, *id) {
                                proof {
                                    lemma_owner_stays(
                                        self@,
                                        *id,
                                        s + 1,
                                        self@.len() as int,
                                    );
                                }
                                return Some((*id, s));
                            }
                            s += 1;
                        }
                        None
                    },
                }
            },
        }
    }
}

proof fn lemma_owner_stays(segments: Seq<SegmentView>, id: ObjectId, n: int, m: int)
    requires
        0 <= n <= m,
        owner_of(segments, id, n) is Some,
    ensures
        owner_of(segments, id, m) == owner_of(segments, id, n),
    decreases m,
{
    if n < m {
        lemma_owner_stays(segments, id, n, m - 1);
    }
}

/// The commit with the reference that names its segment in front of its own, unless it has it.
pub open spec fn named_commit(commit: CommitView, name: Option<Seq<u8>>) -> CommitView {
    match name {
        Some(name) => if commit.refs.contains(name) {
            commit
        } else {
            CommitView { refs: commit.refs.insert(0, name), ..commit }
        },
        None => commit,
    }
}

/// The commits of a segment; its name belongs to its tip.
pub open spec fn tip_named(segment: SegmentView) -> Seq<CommitView> {
    Seq::new(
        segment.commits.len(),
        |i: int|
            if i == 0 {
                named_commit(segment.commits[i], segment.name)
            } else {
                segment.commits[i]
            },
    )
}

/// The commits of all segments, one segment after the other.
pub open spec fn flat_commits(segments: Seq<SegmentView>) -> Seq<CommitView>
    decreases segments.len(),
{
    if segments.len() == 0 {
        Seq::empty()
    } else {
        flat_commits(segments.drop_last()) + tip_named(segments.last())
    }
}

/// The first `n` pairs of commits that follow each other.
pub open spec fn window_links(commits: Seq<CommitView>, n: int) -> Set<(ObjectId, ObjectId)>
    decreases n,
{
    if n <= 0 {
        Set::empty()
    } else {
        window_links(commits, n - 1).insert((commits[n - 1].id, commits[n].id))
    }
}

/// The commit that a connection to `target` reaches, through segments without commits.
pub open spec fn landing(
    segments: Seq<SegmentView>,
    target: int,
    dst: Option<ObjectId>,
    fuel: nat,
) -> Option<ObjectId>
    decreases fuel,
{
    if fuel == 0 || dst is Some {
        dst
    } else {
        let t = segments[target];
        if t.commits.len() > 0 {
            Some(t.commits[0].id)
        } else if t.connections.len() == 0 {
            None
        } else {
            landing(
                segments,
                t.connections[0].target as int,
                t.connections[0].dst_id,
                (fuel - 1) as nat,
            )
        }
    }
}

/// What the first `n` connections of a segment whose last commit is `last` connect.
pub open spec fn outgoing_links(
    segments: Seq<SegmentView>,
    connections: Seq<Connection>,
    last: ObjectId,
    n: int,
) -> Set<(ObjectId, ObjectId)>
    decreases n,
{
    if n <= 0 {
        Set::empty()
    } else {
        let before = outgoing_links(segments, connections, last, n - 1);
        let conn = connections[n - 1];
        let src = match conn.src_id {
            Some(src) => src,
            None => last,
        };
        match landing(segments, conn.target as int, conn.dst_id, segments.len()) {
            Some(dst) => before.insert((src, dst)),
            None => before,
        }
    }
}

/// What a segment connects: its commits with one another, and its last commit with others.
pub open spec fn segment_links(
    segments: Seq<SegmentView>,
    segment: SegmentView,
) -> Set<(ObjectId, ObjectId)> {
    if segment.commits.len() == 0 {
        Set::empty()
    } else {
        window_links(segment.commits, segment.commits.len() - 1).union(
            outgoing_links(
                segments,
                segment.connections,
                segment.commits.last().id,
                segment.connections.len() as int,
            ),
        )
    }
}

/// What the first `n` segments connect.
pub open spec fn graph_links(segments: Seq<SegmentView>, n: int) -> Set<(ObjectId, ObjectId)>
    decreases n,
{
    if n <= 0 {
        Set::empty()
    } else {
        graph_links(segments, n - 1).union(segment_links(segments, segments[n - 1]))
    }
}

/// Appends the commits of the segment; its name goes to its tip.
fn push_tip_named(commits: &mut Vec<Commit>, segment: &Segment)
    ensures
        commits_view(final(commits)@) == commits_view(old(commits)@) + tip_named(segment@),
{
    let ghost start = commits_view(commits@);
    let ghost named = tip_named(segment@);
    let mut i: usize = 0;
    assert(start =~= start + named.take(0));
    while i < segment.commits.len()
        invariant
            i <= segment.commits@.len(),
            named == tip_named(segment@),
            commits_view(commits@) == start + named.take(i as int),
        decreases segment.commits.len() - i,
    {
        let mut c = segment.commits[i].clone();
        assert(segment@.commits[i as int] == segment.commits@[i as int]@);
        if i == 0 {
            if let Some(ri) = &segment.ref_info {
                if !refs_contain(&c.refs, &ri.ref_name) {
                    let ghost before = c.refs@;
                    c.refs.insert(0, ri.clone());
                    assert(ref_names(c.refs@) =~= ref_names(before).insert(0, ri@));
                }
            }
        }
        assert(c@ =~= named[i as int]);
        let ghost before = commits@;
        commits.push(c);
        assert(commits_view(commits@) =~= commits_view(before).push(c@));
        assert(commits_view(commits@) =~= start + named.take(i + 1));
        i += 1;
    }
    assert(named.take(named.len() as int) =~= named);
}

/// The commit that a connection reaches, through segments without commits.
#[verifier::loop_isolation(false)]
fn landing_commit(graph: &SegmentGraph, target: SegmentIndex, dst: Option<ObjectId>) -> (r: Option<
    ObjectId,
>)
    requires
        graph.wf(),
        target < graph.segments@.len(),
    ensures
        r == landing(graph@, target as int, dst, graph@.len()),
{
    let mut target: usize = target;
    let mut dst: Option<ObjectId> = dst;
    let mut left: usize = graph.segments.len();
    let ghost goal = landing(graph@, target as int, dst, graph@.len());
    while left > 0 && dst.is_none()
        invariant
            graph.wf(),
            target < graph.segments@.len(),
            goal == landing(graph@, target as int, dst, left as nat),
        decreases left,
    {
        let t = &graph.segments[target];
        assert(graph@[target as int] == t@);
        if t.commits.len() > 0 {
            assert(t@.commits[0] == t.commits@[0]@);
            return Some(t.commits[0].id);
        }
        if t.connections.len() == 0 {
            return None;
        }
        assert(graph.segments@[target as int].connections@[0].target < graph.segments@.len());
        let next = t.connections[0];
        dst = next.dst_id;
        target = next.target;
        left -= 1;
    }
    dst
}

/// Adds what the segment connects.
fn insert_segment_links(
    connected: &mut SortedSet<(ObjectId, ObjectId)>,
    graph: &SegmentGraph,
    s: SegmentIndex,
)
    requires
        graph.wf(),
        s < graph.segments@.len(),
    ensures
        final(connected)@ == old(connected)@.union(segment_links(graph@, graph@[s as int])),
{
    let ghost start = connected@;
    let segment = &graph.segments[s];
    assert(graph@[s as int] == segment@);
    if segment.commits.len() == 0 {
        assert(connected@ =~= start.union(segment_links(graph@, graph@[s as int])));
        return;
    }
    let ghost view = segment@;
    let mut i: usize = 1;
    assert(connected@ =~= start.union(window_links(view.commits, 0)));
    while i < segment.commits.len()
        invariant
            1 <= i <= segment.commits@.len(),
            view == segment@,
            connected@ == start.union(window_links(view.commits, i - 1)),
        decreases segment.commits.len() - i,
    {
        assert(view.commits[i as int] == segment.commits@[i as int]@);
        assert(view.commits[i - 1] == segment.commits@[i - 1]@);
        connected.insert((segment.commits[i - 1].id, segment.commits[i].id));
        assert(connected@ =~= start.union(window_links(view.commits, i as int)));
        i += 1;
    }
    let ghost windows = window_links(view.commits, view.commits.len() - 1);
    let last = segment.commits[segment.commits.len() - 1].id;
    assert(view.commits.last() == segment.commits@[segment.commits@.len() - 1]@);
    let mut c: usize = 0;
    assert(connected@ =~= start.union(windows).union(
        outgoing_links(graph@, view.connections, last, 0),
    ));
    while c < segment.connections.len()
        invariant
            c <= segment.connections@.len(),
            graph.wf(),
            s < graph.segments@.len(),
            *segment == graph.segments@[s as int],
            view == segment@,
            connected@ == start.union(windows).union(
                outgoing_links(graph@, view.connections, last, c as int),
            ),
        decreases segment.connections.len() - c,
    {
        assert(graph.segments@[s as int].connections@[c as int].target < graph.segments@.len());
        let conn = segment.connections[c];
        let src = match conn.src_id {
            Some(src) => src,
            None => last,
        };
        let ghost before = outgoing_links(graph@, view.connections, last, c as int);
        if let Some(dst) = landing_commit(graph, conn.target, conn.dst_id) {
            connected.insert((src, dst));
            assert(connected@ =~= start.union(windows).union(before.insert((src, dst))));
        }
        c += 1;
    }
    assert(connected@ =~= start.union(segment_links(graph@, graph@[s as int])));
}

impl CommitGraph {
    /// The commit graph of the segments: their commits, with the connections that the traversal
    /// followed.
    pub fn from_segment_graph(graph: &SegmentGraph) -> (r: CommitGraph)
        requires
            graph.wf(),
            flat_commits(graph@).len() * 2 <= u32::MAX,
        ensures
            r.wf(),
            r.commits() == flat_commits(graph@),
            r.links() == Some(graph_links(graph@, graph@.len() as int)),
            r.generations() == recomputed(
                flat_commits(graph@),
                Some(graph_links(graph@, graph@.len() as int)),
                recomputed(
                    flat_commits(graph@),
                    None,
                    Seq::new(flat_commits(graph@).len(), |i: int| 0u32),
                ),
            ),
            r.entrypoint == match graph.entry_commit() {
                Some((id, _)) => Some(id),
                None => None,
            },
            opt_name(r.entrypoint_ref) == match graph.entry_commit() {
                Some((_, owner)) => graph@[owner].name,
                None => None,
            },
            r.managed_ws_commits@ == Set::<ObjectId>::empty(),
            r.hard_limit_hit == graph.hard_limit_hit,
            tips_view(r.traversal_tips@) == tips_view(graph.traversal_tips@),
            !r.explicit_tips,
    {
        let ep = graph.entrypoint_commit();
        let entrypoint = match &ep {
            Some((id, _)) => Some(*id),
            None => None,
        };
        let entrypoint_ref = match &ep {
            Some((_, owner)) => {
                assert(graph@[*owner as int] == graph.segments@[*owner as int]@);
                match &graph.segments[*owner].ref_info {
                    Some(ri) => Some(ri.ref_name.clone()),
                    None => None,
                }
            },
            None => None,
        };
        let mut commits: Vec<Commit> = Vec::new();
        let mut connected: SortedSet<(ObjectId, ObjectId)> = SortedSet::new();
        let ghost segs = graph@;
        let mut s: usize = 0;
        assert(commits_view(commits@) =~= flat_commits(segs.take(0)));
        while s < graph.segments.len()
            invariant
                s <= graph.segments@.len(),
                graph.wf(),
                segs == graph@,
                commits_view(commits@) == flat_commits(segs.take(s as int)),
                connected@ == graph_links(segs, s as int),
            decreases graph.segments.len() - s,
        {
            assert(segs.take(s + 1).drop_last() =~= segs.take(s as int));
            assert(segs.take(s + 1).last() == graph.segments@[s as int]@);
            push_tip_named(&mut commits, &graph.segments[s]);
            insert_segment_links(&mut connected, graph, s);
            s += 1;
        }
        assert(segs.take(segs.len() as int) =~= segs);
        assert(commits@.len() == flat_commits(segs).len());
        let mut cg = CommitGraph::from_commits(commits, entrypoint);
        cg.entrypoint_ref = entrypoint_ref;
        cg.set_connected(connected);
        cg.hard_limit_hit = graph.hard_limit_hit;
        cg.traversal_tips = clone_tips(&graph.traversal_tips);
        cg
    }
}

/// What the traversal that yields commits directly found.
pub struct NativeOutcome {
    /// The commits.
    pub commits: Vec<Commit>,
    /// Where the traversal started.
    pub entrypoint: Option<ObjectId>,
    /// The reference that the entrypoint was checked out as.
    pub entrypoint_ref: Option<RefName>,
    /// The pairs of child and parent that the traversal connected.
    pub connected: SortedSet<(ObjectId, ObjectId)>,
    /// Whether the traversal stopped at its hard limit.
    pub hard_limit_hit: bool,
    /// The tips that the traversal started at.
    pub tips: Vec<Tip>,
}

impl CommitGraph {
    /// The commit graph of what the traversal found.
    pub fn from_native_outcome(o: NativeOutcome) -> (r: CommitGraph)
        requires
            o.commits@.len() * 2 <= u32::MAX,
        ensures
            r.wf(),
            r.commits() == commits_view(o.commits@),
            r.connected == Some(o.connected),
            r.generations() == recomputed(
                commits_view(o.commits@),
                Some(o.connected@),
                recomputed(
                    commits_view(o.commits@),
                    None,
                    Seq::new(o.commits@.len(), |i: int| 0u32),
                ),
            ),
            r.entrypoint == o.entrypoint,
            r.entrypoint_ref == o.entrypoint_ref,
            r.managed_ws_commits@ == Set::<ObjectId>::empty(),
            r.hard_limit_hit == o.hard_limit_hit,
            r.traversal_tips == o.tips,
            !r.explicit_tips,
    {
        let mut cg = CommitGraph::from_commits(o.commits, o.entrypoint);
        cg.entrypoint_ref = o.entrypoint_ref;
        cg.set_connected(o.connected);
        cg.hard_limit_hit = o.hard_limit_hit;
        cg.traversal_tips = o.tips;
        cg
    }
}

/// What a divergence of two traversals is reported as; those that were started at explicit tips are
/// told apart.
pub open spec fn divergence_report(explicit_tips: bool, lines: Seq<Seq<char>>) -> Seq<char> {
    (if explicit_tips {
        "NATIVE_WALK_DIVERGENCE tips"@
    } else {
        "NATIVE_WALK_DIVERGENCE"@
    }) + " ("@ + decimal(lines.len()) + " lines):\n"@ + join(lines, "\n"@)
}

/// The report on the divergence of two traversals, if their graphs differ.
pub fn walk_divergence(native: &CommitGraph, raw: &CommitGraph) -> (r: Option<String>)
    requires
        native.wf(),
        raw.wf(),
    ensures
        r is None <==> crate::graph_diff::same_graph(*native, *raw),
        r matches Some(report) ==> report@ == divergence_report(
            native.explicit_tips,
            crate::graph_diff::graph_lines(*native, *raw),
        ),
{
    let diffs = native.diff_against(raw);
    if diffs.len() == 0 {
        return None;
    }
    let mut r = if native.explicit_tips {
        "NATIVE_WALK_DIVERGENCE tips".to_string()
    } else {
        "NATIVE_WALK_DIVERGENCE".to_string()
    };
    r.append(" (");
    r.append(decimal_text(diffs.len()).as_str());
    r.append(" lines):\n");
    r.append(join_text(&diffs, "\n").as_str());
    assert(texts(diffs@).len() == diffs@.len());
    Some(r)
}

/// The graph is that of what the traversal found.
pub open spec fn is_of_outcome(r: CommitGraph, o: NativeOutcome, explicit_tips: bool) -> bool {
    &&& r.wf()
    &&& r.commits() == commits_view(o.commits@)
    &&& r.connected == Some(o.connected)
    &&& r.generations() == recomputed(
        commits_view(o.commits@),
        Some(o.connected@),
        recomputed(
            commits_view(o.commits@),
            None,
            Seq::new(o.commits@.len(), |i: int| 0u32),
        ),
    )
    &&& r.entrypoint == o.entrypoint
    &&& r.entrypoint_ref == o.entrypoint_ref
    &&& r.managed_ws_commits@ == Set::<ObjectId>::empty()
    &&& r.hard_limit_hit == o.hard_limit_hit
    &&& r.traversal_tips == o.tips
    &&& r.explicit_tips == explicit_tips
}

/// The graph is that of the segments.
pub open spec fn is_of_segments(r: CommitGraph, graph: SegmentGraph, explicit_tips: bool) -> bool {
    &&& r.wf()
    &&& r.commits() == flat_commits(graph@)
    &&& r.links() == Some(graph_links(graph@, graph@.len() as int))
    &&& r.entrypoint == match graph.entry_commit() {
        Some((id, _)) => Some(id),
        None => None,
    }
    &&& opt_name(r.entrypoint_ref) == match graph.entry_commit() {
        Some((_, owner)) => graph@[owner].name,
        None => None,
    }
    &&& r.managed_ws_commits@ == Set::<ObjectId>::empty()
    &&& r.hard_limit_hit == graph.hard_limit_hit
    &&& tips_view(r.traversal_tips@) == tips_view(graph.traversal_tips@)
    &&& r.explicit_tips == explicit_tips
}

/// What comes of a traversal: its graph, unless the segments of another traversal are given and make
/// another graph; then the report on that.
pub open spec fn walked(
    r: Result<CommitGraph, String>,
    o: NativeOutcome,
    raw: Option<SegmentGraph>,
    explicit_tips: bool,
) -> bool {
    match r {
        Ok(g) => is_of_outcome(g, o, explicit_tips) && (raw matches Some(segments)
            ==> exists|c: CommitGraph| #[trigger]
            is_of_segments(c, segments, explicit_tips) && crate::graph_diff::same_graph(g, c)),
        Err(report) => raw matches Some(segments) && exists|g: CommitGraph, c: CommitGraph|
            #![trigger crate::graph_diff::graph_lines(g, c)]
            {
                &&& is_of_outcome(g, o, explicit_tips)
                &&& is_of_segments(c, segments, explicit_tips)
                &&& !crate::graph_diff::same_graph(g, c)
                &&& report@ == divergence_report(
                    explicit_tips,
                    crate::graph_diff::graph_lines(g, c),
                )
            },
    }
}

/// What the reference stands for.
pub open spec fn opt_segments(raw: Option<&SegmentGraph>) -> Option<SegmentGraph> {
    match raw {
        Some(graph) => Some(*graph),
        None => None,
    }
}

impl CommitGraph {
    /// The commit graph of what a traversal found. Where the segments of another traversal are
    /// given, both have to make the same graph, or else the result is the report on the differences.
    pub fn from_walk(o: NativeOutcome, raw: Option<&SegmentGraph>) -> (r: Result<
        CommitGraph,
        String,
    >)
        requires
            o.commits@.len() * 2 <= u32::MAX,
            raw matches Some(graph) ==> graph.wf() && flat_commits(graph@).len() * 2 <= u32::MAX,
        ensures
            walked(r, o, opt_segments(raw), false),
    {
        let native = CommitGraph::from_native_outcome(o);
        if let Some(graph) = raw {
            let other = CommitGraph::from_segment_graph(graph);
            if let Some(report) = walk_divergence(&native, &other) {
                return Err(report);
            }
            assert(is_of_segments(other, *graph, false));
        }
        Ok(native)
    }

    /// The commit graph of what a traversal from explicit tips found; for the rest as
    /// [`Self::from_walk`].
    pub fn from_walk_tips(o: NativeOutcome, raw: Option<&SegmentGraph>) -> (r: Result<
        CommitGraph,
        String,
    >)
        requires
            o.commits@.len() * 2 <= u32::MAX,
            raw matches Some(graph) ==> graph.wf() && flat_commits(graph@).len() * 2 <= u32::MAX,
        ensures
            walked(r, o, opt_segments(raw), true),
    {
        let mut native = CommitGraph::from_native_outcome(o);
        native.explicit_tips = true;
        if let Some(graph) = raw {
            let mut other = CommitGraph::from_segment_graph(graph);
            other.explicit_tips = true;
            if let Some(report) = walk_divergence(&native, &other) {
                return Err(report);
            }
            assert(is_of_segments(other, *graph, true));
        }
        Ok(native)
    }
}

/// What a traversal hands on to be finished.
pub struct Context {
    /// Whether the traversal stopped at its hard limit.
    pub hard_limit: bool,
    /// Whether the entrypoint's segment is to be detached.
    pub detach_entrypoint: bool,
    /// Whether the graph stays as the traversal left it.
    pub dangerously_skip_postprocessing_for_debugging: bool,
}

impl SegmentGraph {
    /// Finishes the graph that the traversal left: the hard limit is recorded, and the entrypoint's
    /// commit is the tip that the traversal started at, even where the entrypoint has moved to a
    /// segment that does not have it. The result says whether the entrypoint's segment is still to
    /// be detached.
    pub fn post_processed(self, tip: ObjectId, context: Context) -> (r: (SegmentGraph, bool))
        requires
            context.dangerously_skip_postprocessing_for_debugging,
        ensures
            r.0.segments == self.segments,
            r.0.traversal_tips == self.traversal_tips,
            r.0.hard_limit_hit == context.hard_limit,
            r.0.entrypoint == match self.entrypoint {
                Some((segment, _)) => Some((segment, EntryPointCommit::AtCommit(tip))),
                None => None,
            },
            r.1 == context.detach_entrypoint,
            self.wf() ==> r.0.wf(),
    {
        let mut graph = self;
        graph.hard_limit_hit = context.hard_limit;
        graph.update_entrypoint_commit_id(tip);
        (graph, context.detach_entrypoint)
    }

    /// Makes the tip the commit of the entrypoint.
    fn update_entrypoint_commit_id(&mut self, tip: ObjectId)
        ensures
            final(self).segments == old(self).segments,
            final(self).traversal_tips == old(self).traversal_tips,
            final(self).hard_limit_hit == old(self).hard_limit_hit,
            final(self).entrypoint == match old(self).entrypoint {
                Some((segment, _)) => Some((segment, EntryPointCommit::AtCommit(tip))),
                None => None,
            },
    {
        if let Some((segment, _)) = self.entrypoint {
            self.entrypoint = Some((segment, EntryPointCommit::AtCommit(tip)));
        }
    }
}

proof fn lemma_owner_has(segments: Seq<SegmentView>, id: ObjectId, n: int)
    requires
        n <= segments.len(),
    ensures
        owner_of(segments, id, n) matches Some(s) ==> 0 <= s < n && has_commit(
            segments[s].commits,
            id,
        ),
    decreases n,
{
    if n > 0 {
        lemma_owner_has(segments, id, n - 1);
    }
}

/// A commit of a segment is one of all commits.
pub proof fn lemma_in_flat(segments: Seq<SegmentView>, s: int, c: int)
    requires
        0 <= s < segments.len(),
        0 <= c < segments[s].commits.len(),
    ensures
        has_commit(flat_commits(segments), segments[s].commits[c].id),
    decreases segments.len(),
{
    let before = segments.drop_last();
    let tip = tip_named(segments.last());
    let all = flat_commits(segments);
    let id = segments[s].commits[c].id;
    if s == segments.len() - 1 {
        let i = flat_commits(before).len() + c;
        assert(all[i] == tip[c]);
        assert(all[i].id == id);
    } else {
        lemma_in_flat(before, s, c);
        assert(before[s] == segments[s]);
        let i = choose|i: int|
            0 <= i < flat_commits(before).len() && #[trigger] flat_commits(before)[i].id == id;
        assert(all[i] == flat_commits(before)[i]);
        assert(all[i].id == id);
    }
}

/// The commit that the traversal started at is one of all commits.
pub proof fn lemma_entry_in_flat(graph: SegmentGraph, id: ObjectId, owner: int)
    requires
        graph.wf(),
        graph.entry_commit() == Some((id, owner)),
    ensures
        has_commit(flat_commits(graph@), id),
{
    lemma_owner_has(graph@, id, graph@.len() as int);
    let commits = graph@[owner].commits;
    if graph.entrypoint matches Some((s, EntryPointCommit::SegmentTip)) {
        assert(commits[0].id == id);
    }
    assert(has_commit(commits, id));
    let c = choose|c: int| 0 <= c < commits.len() && #[trigger] commits[c].id == id;
    lemma_in_flat(graph@, owner, c);
}

impl SegmentGraph {
    /// Whether connections lead to segments of the graph, and the entrypoint is one.
    pub fn is_wf(&self) -> (r: bool)
        ensures
            r == self.wf(),
    {
        let n: usize = self.segments.len();
        if let Some((entry, _)) = self.entrypoint {
            if entry >= n {
                return false;
            }
        }
        let mut s: usize = 0;
        while s < n
            invariant
                s <= n,
                n == self.segments@.len(),
                self.entrypoint matches Some(ep) ==> ep.0 < n,
                forall|t: int, c: int|
                    0 <= t < s && 0 <= c < self.segments@[t].connections@.len() ==> (
                    #[trigger] self.segments@[t].connections@[c]).target < n,
            decreases n - s,
        {
            let connections = &self.segments[s].connections;
            let mut c: usize = 0;
            while c < connections.len()
                invariant
                    c <= connections@.len(),
                    s < n,
                    n == self.segments@.len(),
                    *connections == self.segments@[s as int].connections,
                    forall|d: int|
                        0 <= d < c ==> (#[trigger] self.segments@[s as int].connections@[d]).target
                            < n,
                decreases connections.len() - c,
            {
                if connections[c].target >= n {
                    assert(self.segments@[s as int].connections@[c as int].target >= n);
                    return false;
                }
                c += 1;
            }
            s += 1;
        }
        true
    }
}

} // verus!
