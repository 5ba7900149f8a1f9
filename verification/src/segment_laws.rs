//! What the commits and connections of a graph of segments are.

use crate::commit::CommitView;
use crate::names::ObjectId;
use crate::segment_graph::{
    flat_commits, graph_links, has_commit, landing, outgoing_links, owner_of, segment_links,
    tip_named, window_links, Connection, EntryPointCommit, SegmentGraph, SegmentView,
};
use vstd::prelude::*;

verus! {

/// How many commits the first `s` segments have.
pub open spec fn commits_before(segments: Seq<SegmentView>, s: int) -> int
    decreases s,
{
    if s <= 0 {
        0
    } else {
        commits_before(segments, s - 1) + segments[s - 1].commits.len()
    }
}

/// The commits of all segments are there once each, one segment after the other, each as it is in its
/// segment; only the tip of a segment has the name of the segment in front of its references, unless
/// it is one of them.
pub proof fn law_commits_of_segments(segments: Seq<SegmentView>, s: int, c: int)
    requires
        0 <= s < segments.len(),
        0 <= c < segments[s].commits.len(),
    ensures
        ({
            let all = flat_commits(segments);
            let at = commits_before(segments, s) + c;
            let commit = segments[s].commits[c];
            &&& all.len() == commits_before(segments, segments.len() as int)
            &&& 0 <= at < all.len()
            &&& all[at] == match segments[s].name {
                Some(name) => if c == 0 && !commit.refs.contains(name) {
                    CommitView { refs: seq![name] + commit.refs, ..commit }
                } else {
                    commit
                },
                None => commit,
            }
        }),
{
    lemma_flat_take(segments, segments.len() as int);
    assert(segments.take(segments.len() as int) =~= segments);
    lemma_flat_at(segments, segments.len() as int, s, c);
    if let Some(name) = segments[s].name {
        assert(segments[s].commits[c].refs.insert(0, name) =~= seq![name]
            + segments[s].commits[c].refs);
    }
}

proof fn lemma_flat_take(segments: Seq<SegmentView>, n: int)
    requires
        0 <= n <= segments.len(),
    ensures
        flat_commits(segments.take(n)).len() == commits_before(segments, n),
        n > 0 ==> flat_commits(segments.take(n)) == flat_commits(segments.take(n - 1)) + tip_named(
            segments[n - 1],
        ),
    decreases n,
{
    if n > 0 {
        lemma_flat_take(segments, n - 1);
        assert(segments.take(n).drop_last() =~= segments.take(n - 1));
    }
}

proof fn lemma_flat_at(segments: Seq<SegmentView>, n: int, s: int, c: int)
    requires
        0 <= s < n <= segments.len(),
        0 <= c < segments[s].commits.len(),
    ensures
        ({
            let at = commits_before(segments, s) + c;
            &&& 0 <= at < flat_commits(segments.take(n)).len()
            &&& flat_commits(segments.take(n))[at] == tip_named(segments[s])[c]
        }),
    decreases n,
{
    lemma_flat_take(segments, n);
    lemma_flat_take(segments, n - 1);
    if s < n - 1 {
        lemma_flat_at(segments, n - 1, s, c);
    } else {
        lemma_flat_take(segments, s);
    }
}

/// Whether each of the segments of the path but the last one has no commits, and first of all leads on
/// to the next one.
pub open spec fn leads_down(segments: Seq<SegmentView>, path: Seq<int>) -> bool {
    &&& path.len() > 0
    &&& forall|i: int|
        0 <= i < path.len() - 1 ==> {
            let t = segments[#[trigger] path[i]];
            &&& t.commits.len() == 0
            &&& t.connections.len() > 0
            &&& t.connections[0].dst_id is None
            &&& t.connections[0].target == path[i + 1]
        }
}

/// Whether the segment ends the way at this commit: it is its tip, or it has no commits and first of
/// all leads on to it.
pub open spec fn ends_at(segment: SegmentView, id: ObjectId) -> bool {
    if segment.commits.len() > 0 {
        segment.commits[0].id == id
    } else {
        segment.connections.len() > 0 && segment.connections[0].dst_id == Some(id)
    }
}

/// A connection reaches the commit that it names, and else the first one down from its target, over at
/// most as many segments as there are.
#[verifier::rlimit(40)]
pub proof fn law_landing(
    segments: Seq<SegmentView>,
    target: int,
    dst: Option<ObjectId>,
    fuel: nat,
    id: ObjectId,
)
    ensures
        landing(segments, target, dst, fuel) == Some(id) <==> dst == Some(id) || (dst is None
            && exists|path: Seq<int>|
            {
                &&& #[trigger] leads_down(segments, path)
                &&& path.len() <= fuel
                &&& path[0] == target
                &&& ends_at(segments[path.last()], id)
            }),
    decreases fuel,
{
    if dst is None {
        let t = segments[target];
        if fuel > 0 {
            if t.commits.len() == 0 && t.connections.len() > 0 {
                law_landing(
                    segments,
                    t.connections[0].target as int,
                    t.connections[0].dst_id,
                    (fuel - 1) as nat,
                    id,
                );
            }
            if landing(segments, target, dst, fuel) == Some(id) {
                if t.commits.len() > 0 || t.connections[0].dst_id is Some {
                    let path = seq![target];
                    assert(leads_down(segments, path));
                    assert(path.last() == target);
                } else {
                    let rest = choose|path: Seq<int>|
                        {
                            &&& #[trigger] leads_down(segments, path)
                            &&& path.len() <= fuel - 1
                            &&& path[0] == t.connections[0].target
                            &&& ends_at(segments[path.last()], id)
                        };
                    let path = seq![target] + rest;
                    assert forall|i: int| 0 <= i < path.len() - 1 implies {
                        let t = segments[#[trigger] path[i]];
                        &&& t.commits.len() == 0
                        &&& t.connections.len() > 0
                        &&& t.connections[0].dst_id is None
                        &&& t.connections[0].target == path[i + 1]
                    } by {
                        if i > 0 {
                            assert(path[i] == rest[i - 1] && path[i + 1] == rest[i]);
                        } else {
                            assert(path[1] == rest[0]);
                        }
                    }
                    assert(leads_down(segments, path));
                    assert(path.last() == rest.last());
                }
            }
        }
        if exists|path: Seq<int>|
            {
                &&& #[trigger] leads_down(segments, path)
                &&& path.len() <= fuel
                &&& path[0] == target
                &&& ends_at(segments[path.last()], id)
            } {
            let path = choose|path: Seq<int>|
                {
                    &&& #[trigger] leads_down(segments, path)
                    &&& path.len() <= fuel
                    &&& path[0] == target
                    &&& ends_at(segments[path.last()], id)
                };
            if path.len() > 1 {
                let rest = path.skip(1);
                assert(segments[path[0]].commits.len() == 0);
                assert forall|i: int| 0 <= i < rest.len() - 1 implies {
                    let t = segments[#[trigger] rest[i]];
                    &&& t.commits.len() == 0
                    &&& t.connections.len() > 0
                    &&& t.connections[0].dst_id is None
                    &&& t.connections[0].target == rest[i + 1]
                } by {
                    assert(rest[i] == path[i + 1] && rest[i + 1] == path[i + 2]);
                }
                assert(leads_down(segments, rest));
                assert(rest[0] == path[1] && rest.last() == path.last());
            }
        }
    }
}

/// Whether the two commits follow each other in the segment.
pub open spec fn follow_each_other(
    segment: SegmentView,
    child: ObjectId,
    parent: ObjectId,
) -> bool {
    exists|c: int|
        0 <= c < segment.commits.len() - 1 && (#[trigger] segment.commits[c]).id == child
            && segment.commits[c + 1].id == parent
}

/// Whether the connection goes from the one commit to the other: from that which it names, or else
/// from the last one of its segment, to that which it reaches.
pub open spec fn connects(
    segments: Seq<SegmentView>,
    segment: SegmentView,
    connection: Connection,
    child: ObjectId,
    parent: ObjectId,
) -> bool {
    &&& segment.commits.len() > 0
    &&& child == match connection.src_id {
        Some(src) => src,
        None => segment.commits[segment.commits.len() - 1].id,
    }
    &&& landing(segments, connection.target as int, connection.dst_id, segments.len()) == Some(
        parent,
    )
}

/// A commit and its parent are connected exactly if they follow each other in a segment, or a
/// connection of a segment with commits goes from the one to the other.
pub proof fn law_connections_of_segments(
    segments: Seq<SegmentView>,
    child: ObjectId,
    parent: ObjectId,
)
    ensures
        graph_links(segments, segments.len() as int).contains((child, parent)) <==> exists|s: int|
            #![trigger segments[s]]
            0 <= s < segments.len() && (follow_each_other(segments[s], child, parent) || exists|
                n: int,
            |
                0 <= n < segments[s].connections.len() && connects(
                    segments,
                    segments[s],
                    #[trigger] segments[s].connections[n],
                    child,
                    parent,
                )),
{
    lemma_graph_links(segments, segments.len() as int, child, parent);
    let all = graph_links(segments, segments.len() as int);
    if all.contains((child, parent)) {
        let s = choose|s: int|
            0 <= s < segments.len() && segment_links(segments, #[trigger] segments[s]).contains(
                (child, parent),
            );
        lemma_segment_links(segments, segments[s], child, parent);
    }
    assert forall|s: int| #![trigger segments[s]]
        0 <= s < segments.len() && (follow_each_other(segments[s], child, parent) || exists|n: int|
            0 <= n < segments[s].connections.len() && connects(
                segments,
                segments[s],
                #[trigger] segments[s].connections[n],
                child,
                parent,
            )) implies all.contains((child, parent)) by {
        lemma_segment_links(segments, segments[s], child, parent);
        assert(segment_links(segments, segments[s]).contains((child, parent)));
    }
}

proof fn lemma_graph_links(
    segments: Seq<SegmentView>,
    n: int,
    child: ObjectId,
    parent: ObjectId,
)
    requires
        0 <= n <= segments.len(),
    ensures
        graph_links(segments, n).contains((child, parent)) <==> exists|s: int|
            0 <= s < n && segment_links(segments, #[trigger] segments[s]).contains((child, parent)),
    decreases n,
{
    if n > 0 {
        lemma_graph_links(segments, n - 1, child, parent);
        if graph_links(segments, n - 1).contains((child, parent)) {
            let s = choose|s: int|
                0 <= s < n - 1 && segment_links(segments, #[trigger] segments[s]).contains(
                    (child, parent),
                );
            assert(segment_links(segments, segments[s]).contains((child, parent)));
        }
        if segment_links(segments, segments[n - 1]).contains((child, parent)) {
            assert(0 <= n - 1 < n);
        }
    }
}

proof fn lemma_segment_links(
    segments: Seq<SegmentView>,
    segment: SegmentView,
    child: ObjectId,
    parent: ObjectId,
)
    ensures
        segment_links(segments, segment).contains((child, parent)) <==> follow_each_other(
            segment,
            child,
            parent,
        ) || exists|n: int|
            0 <= n < segment.connections.len() && connects(
                segments,
                segment,
                #[trigger] segment.connections[n],
                child,
                parent,
            ),
{
    if segment.commits.len() > 0 {
        let n = segment.commits.len() - 1;
        lemma_window(segment.commits, n, child, parent);
        lemma_outgoing(segments, segment, segment.connections.len() as int, child, parent);
    }
}

proof fn lemma_window(commits: Seq<CommitView>, n: int, child: ObjectId, parent: ObjectId)
    ensures
        window_links(commits, n).contains((child, parent)) <==> exists|c: int|
            0 <= c < n && (#[trigger] commits[c]).id == child && commits[c + 1].id == parent,
    decreases n,
{
    if n > 0 {
        lemma_window(commits, n - 1, child, parent);
        if window_links(commits, n - 1).contains((child, parent)) {
            let c = choose|c: int|
                0 <= c < n - 1 && (#[trigger] commits[c]).id == child && commits[c + 1].id
                    == parent;
            assert(commits[c].id == child);
        }
        if commits[n - 1].id == child && commits[n].id == parent {
            assert(0 <= n - 1 < n);
        }
    }
}

proof fn lemma_outgoing(
    segments: Seq<SegmentView>,
    segment: SegmentView,
    n: int,
    child: ObjectId,
    parent: ObjectId,
)
    requires
        segment.commits.len() > 0,
        0 <= n <= segment.connections.len(),
    ensures
        outgoing_links(segments, segment.connections, segment.commits.last().id, n).contains(
            (child, parent),
        ) <==> exists|i: int|
            0 <= i < n && connects(
                segments,
                segment,
                #[trigger] segment.connections[i],
                child,
                parent,
            ),
    decreases n,
{
    if n > 0 {
        lemma_outgoing(segments, segment, n - 1, child, parent);
        let last = segment.commits.last().id;
        if outgoing_links(segments, segment.connections, last, n - 1).contains((child, parent)) {
            let i = choose|i: int|
                0 <= i < n - 1 && connects(
                    segments,
                    segment,
                    #[trigger] segment.connections[i],
                    child,
                    parent,
                );
            assert(connects(segments, segment, segment.connections[i], child, parent));
        }
        if connects(segments, segment, segment.connections[n - 1], child, parent) {
            assert(0 <= n - 1 < n);
        }
    }
}

/// The commit that the traversal started at is the tip of the segment of the entrypoint, or the commit
/// that is named. That is owned by the segment of the entrypoint if that has it, and else by the first
/// segment that does.
pub proof fn law_entry_commit(graph: SegmentGraph, id: ObjectId, s: int)
    requires
        graph.wf(),
    ensures
        graph.entry_commit() == Some((id, s)) <==> (graph.entrypoint matches Some((entry, at)) && {
            let first = forall|t: int| 0 <= t < s ==> !has_commit(#[trigger] graph@[t].commits, id);
            &&& 0 <= s < graph@.len()
            &&& match at {
                EntryPointCommit::SegmentTip => s == entry && graph@[s].commits.len() > 0
                    && graph@[s].commits[0].id == id,
                EntryPointCommit::AtCommit(wanted) => wanted == id && has_commit(
                    graph@[s].commits,
                    id,
                ) && (s == entry || (first && !has_commit(graph@[entry as int].commits, id))),
            }
        }),
{
    if let Some((entry, EntryPointCommit::AtCommit(wanted))) = graph.entrypoint {
        lemma_owner(graph@, wanted, graph@.len() as int);
        if let Some(owner) = owner_of(graph@, wanted, graph@.len() as int) {
            if has_commit(graph@[s].commits, wanted) && s < owner {
                assert(0 <= s ==> !has_commit(graph@[s].commits, wanted));
            }
            if has_commit(graph@[s].commits, wanted) && owner < s {
                assert(has_commit(graph@[owner].commits, wanted));
            }
        }
    }
}

proof fn lemma_owner(segments: Seq<SegmentView>, id: ObjectId, n: int)
    requires
        0 <= n <= segments.len(),
    ensures
        match owner_of(segments, id, n) {
            Some(s) => 0 <= s < n && has_commit(segments[s].commits, id) && forall|t: int|
                0 <= t < s ==> !has_commit(#[trigger] segments[t].commits, id),
            None => forall|t: int| 0 <= t < n ==> !has_commit(#[trigger] segments[t].commits, id),
        },
    decreases n,
{
    if n > 0 {
        lemma_owner(segments, id, n - 1);
    }
}

} // verus!
