//! What a ledger that was read off segments holds, in terms of the segments.

use crate::commit::CommitView;
use crate::derivation::{
    all_nodes, commits_of, commits_run, derived, descend, final_lists, heads, is_commit, links,
    mutable_entries, named_run, placed_at, placed_refs, reachable_segments, refs_run, rewired,
    run_links, runs, segment_run, segment_steps, segment_targets, ExtraRef, RunView,
};
use crate::derivation_laws::lemma_commit_in_below;
use crate::editor_graph::WALK_LIMIT;
use crate::names::ObjectId;
use crate::placements::PlacedView;
use crate::reach::{
    closed_under, lemma_closed_reachable, lemma_entry_reachable, lemma_step_reachable,
};
use crate::segment_graph::SegmentView;
use vstd::prelude::*;

verus! {

/// The commits that may be rewritten are all commits of the segments that may be changed, wherever in
/// a segment they are, and no others.
pub proof fn law_mutable_commits(
    segments: Seq<SegmentView>,
    mutable: Set<usize>,
    entry: int,
    ws: Option<ObjectId>,
    id: ObjectId,
)
    ensures
        derived(segments, mutable, entry, ws).mutable_commits.contains(id) <==> exists|
            s: int,
            i: int,
        |
            0 <= s < segments.len() && mutable.contains(s as usize) && 0 <= i
                < segments[s].commits.len() && (#[trigger] segments[s].commits[i]).id == id,
{
    let found = derived(segments, mutable, entry, ws).mutable_commits;
    assert(found == commits_of(segments, mutable, segments.len() as int));
    if exists|s: int, i: int|
        0 <= s < segments.len() && mutable.contains(s as usize) && 0 <= i
            < segments[s].commits.len() && (#[trigger] segments[s].commits[i]).id == id {
        let (s, i) = choose|s: int, i: int|
            0 <= s < segments.len() && mutable.contains(s as usize) && 0 <= i
                < segments[s].commits.len() && (#[trigger] segments[s].commits[i]).id == id;
        assert(segments[s].commits[i].id == id);
        assert(found.contains(id));
    }
}

/// The segments that may be changed are the one of the entrypoint, those of the extra references, and
/// whatever connections lead to from there; and no others: they are in every set of segments that
/// holds the entrypoint and the extra ones and that no connection leads out of.
pub proof fn law_reachable_segments(
    segments: Seq<SegmentView>,
    entry: usize,
    extra: Seq<ExtraRef>,
    s: usize,
    k: int,
    within: Set<usize>,
)
    requires
        forall|e: int| 0 <= e < extra.len() ==> (#[trigger] extra[e]).segment is Some,
    ensures
        ({
            let reached = reachable_segments(segments, mutable_entries(entry, extra));
            &&& reached.contains(entry)
            &&& forall|e: int|
                0 <= e < extra.len() ==> reached.contains((#[trigger] extra[e]).segment->0)
            &&& reached.contains(s) && s < segments.len() && 0 <= k
                < segments[s as int].connections.len() ==> reached.contains(
                segments[s as int].connections[k].target,
            )
            &&& reached.contains(s) && within.contains(entry) && (forall|e: int|
                0 <= e < extra.len() ==> within.contains((#[trigger] extra[e]).segment->0)) && (
            forall|t: int, m: int|
                0 <= t < segments.len() && within.contains(t as usize) && 0 <= m
                    < segments[t].connections.len() ==> within.contains(
                    (#[trigger] segments[t].connections[m]).target,
                )) ==> within.contains(s)
        }),
{
    let entries = mutable_entries(entry, extra);
    let next = segment_steps(segments);
    let reached = reachable_segments(segments, entries);
    assert(entries[0] == entry);
    lemma_entry_reachable(next, entries, entry);
    assert forall|e: int| 0 <= e < extra.len() implies reached.contains(
        (#[trigger] extra[e]).segment->0,
    ) by {
        assert(entries[e + 1] == extra[e].segment->0);
        lemma_entry_reachable(next, entries, extra[e].segment->0);
    }
    if reached.contains(s) && s < segments.len() && 0 <= k < segments[s as int].connections.len() {
        let to = segments[s as int].connections[k].target;
        assert(segment_targets(segments, s)[k] == to);
        assert(next(s).contains(to));
        lemma_step_reachable(next, entries, s, to);
    }
    if reached.contains(s) && within.contains(entry) && (forall|e: int|
        0 <= e < extra.len() ==> within.contains((#[trigger] extra[e]).segment->0)) && (forall|
        t: int,
        m: int,
    |
        0 <= t < segments.len() && within.contains(t as usize) && 0 <= m
            < segments[t].connections.len() ==> within.contains(
            (#[trigger] segments[t].connections[m]).target,
        )) {
        assert(closed_under(next, within)) by {
            assert forall|x: usize, y: usize| within.contains(x) && #[trigger] next(x).contains(
                y,
            ) implies within.contains(y) by {
                let to = segment_targets(segments, x);
                let m = choose|m: int| 0 <= m < to.len() && to[m] == y;
                assert(segments[x as int].connections[m].target == y);
            }
        }
        assert forall|e: usize| entries.contains(e) implies within.contains(e) by {
            let m = choose|m: int| 0 <= m < entries.len() && entries[m] == e;
            if m > 0 {
                assert(extra[m - 1].segment->0 == e);
            }
        }
        lemma_closed_reachable(next, within, entries, s);
    }
}

/// What is checked out is each segment that has the name of the one with the entrypoint.
pub proof fn law_heads(
    segments: Seq<SegmentView>,
    mutable: Set<usize>,
    entry: int,
    ws: Option<ObjectId>,
)
    requires
        0 <= entry < segments.len(),
    ensures
        ({
            let found = derived(segments, mutable, entry, ws).head_refs;
            &&& segments[entry].name is None ==> found.len() == 0
            &&& segments[entry].name matches Some(name) ==> {
                &&& found.len() > 0
                &&& forall|k: int| 0 <= k < found.len() ==> #[trigger] found[k] == name
                &&& found.len() == named_alike(segments, name).len()
            }
        }),
{
    lemma_heads(segments, segments[entry].name, segments.len() as int);
    if let Some(name) = segments[entry].name {
        assert(named_alike(segments, name).contains(entry));
        assert(named_alike(segments, name).finite()) by {
            vstd::set_lib::lemma_int_range(0, segments.len() as int);
            assert(named_alike(segments, name).subset_of(
                vstd::set_lib::set_int_range(0, segments.len() as int),
            ));
            vstd::set_lib::lemma_len_subset(
                named_alike(segments, name),
                vstd::set_lib::set_int_range(0, segments.len() as int),
            );
        }
        if named_alike(segments, name).len() == 0 {
            assert(named_alike(segments, name) =~= Set::empty());
        }
        assert(named_alike(segments, name) =~= named_upto(
            segments,
            name,
            segments.len() as int,
        ));
    }
}

/// The segments with the name.
pub open spec fn named_alike(segments: Seq<SegmentView>, name: Seq<u8>) -> Set<int> {
    Set::new(|s: int| 0 <= s < segments.len() && segments[s].name == Some(name))
}

spec fn named_upto(segments: Seq<SegmentView>, name: Seq<u8>, n: int) -> Set<int> {
    Set::new(|s: int| 0 <= s < n && segments[s].name == Some(name))
}

proof fn lemma_heads(segments: Seq<SegmentView>, name: Option<Seq<u8>>, n: int)
    requires
        0 <= n <= segments.len(),
    ensures
        name is None ==> heads(segments, name, n).len() == 0,
        name matches Some(own) ==> {
            &&& forall|k: int|
                0 <= k < heads(segments, name, n).len() ==> #[trigger] heads(segments, name, n)[k]
                    == own
            &&& named_upto(segments, own, n).finite()
            &&& heads(segments, name, n).len() == named_upto(segments, own, n).len()
        },
    decreases n,
{
    if n > 0 {
        lemma_heads(segments, name, n - 1);
        if let Some(own) = name {
            let (before, all) = (named_upto(segments, own, n - 1), named_upto(segments, own, n));
            if segments[n - 1].name == Some(own) {
                assert(all =~= before.insert(n - 1));
            } else {
                assert(all =~= before);
            }
        }
    } else if let Some(own) = name {
        assert(named_upto(segments, own, n) =~= Set::empty());
    }
}

/// The names of the first `n` segments and of the references on their commits: the name of a segment
/// comes before those on its commits, and these come as the commits have them.
pub open spec fn names_upto(segments: Seq<SegmentView>, n: int) -> Seq<Seq<u8>>
    decreases n,
{
    if n <= 0 {
        Seq::empty()
    } else {
        let own = match segments[n - 1].name {
            Some(name) => seq![name],
            None => Seq::empty(),
        };
        names_upto(segments, n - 1) + own + names_on(
            segments[n - 1].commits,
            segments[n - 1].commits.len() as int,
        )
    }
}

/// The names of the references on the first `n` commits.
pub open spec fn names_on(commits: Seq<CommitView>, n: int) -> Seq<Seq<u8>>
    decreases n,
{
    if n <= 0 {
        Seq::empty()
    } else {
        names_on(commits, n - 1) + commits[n - 1].refs
    }
}

/// The names of those of the nodes that are references.
spec fn node_names(nodes: Seq<RunView>) -> Seq<Seq<u8>>
    decreases nodes.len(),
{
    if nodes.len() == 0 {
        Seq::empty()
    } else {
        let before = node_names(nodes.drop_last());
        match nodes.last() {
            RunView::Ref { name, .. } => before.push(name),
            _ => before,
        }
    }
}

proof fn lemma_node_names_add(a: Seq<RunView>, b: Seq<RunView>)
    ensures
        node_names(a + b) == node_names(a) + node_names(b),
    decreases b.len(),
{
    if b.len() > 0 {
        lemma_node_names_add(a, b.drop_last());
        assert((a + b).drop_last() =~= a + b.drop_last());
        assert((a + b).last() == b.last());
        match b.last() {
            RunView::Ref { name, .. } => {
                assert((node_names(a) + node_names(b.drop_last())).push(name) =~= node_names(a)
                    + node_names(b.drop_last()).push(name));
            },
            _ => {},
        }
    } else {
        assert(a + b =~= a);
        assert(node_names(a) + node_names(b) =~= node_names(a));
    }
}

proof fn lemma_refs_run_names(names: Seq<Seq<u8>>, mutable: bool)
    ensures
        node_names(refs_run(names, mutable)) == names,
    decreases names.len(),
{
    let run = refs_run(names, mutable);
    if names.len() > 0 {
        lemma_refs_run_names(names.drop_last(), mutable);
        assert(run.drop_last() =~= refs_run(names.drop_last(), mutable));
        assert(names.drop_last().push(names.last()) =~= names);
    } else {
        assert(node_names(run) =~= names);
    }
}

proof fn lemma_commits_run_names(commits: Seq<CommitView>, mutable: bool, n: int)
    requires
        0 <= n <= commits.len(),
    ensures
        node_names(commits_run(commits, mutable, n)) == names_on(commits, n),
    decreases n,
{
    if n > 0 {
        lemma_commits_run_names(commits, mutable, n - 1);
        let commit = commits[n - 1];
        let own = refs_run(commit.refs, mutable);
        let last = RunView::Commit { id: commit.id, parent_ids: commit.parent_ids };
        lemma_refs_run_names(commit.refs, mutable);
        assert(own.push(last).drop_last() =~= own);
        lemma_node_names_add(commits_run(commits, mutable, n - 1), own.push(last));
    } else {
        assert(node_names(commits_run(commits, mutable, n)) =~= names_on(commits, n));
    }
}

proof fn lemma_runs_names(segments: Seq<SegmentView>, mutable: Set<usize>, n: int)
    requires
        0 <= n <= segments.len(),
    ensures
        node_names(runs(segments, mutable, n)) == names_upto(segments, n),
    decreases n,
{
    if n > 0 {
        lemma_runs_names(segments, mutable, n - 1);
        let segment = segments[n - 1];
        let may = mutable.contains((n - 1) as usize);
        let (first, rest) = (
            named_run(segment.name, may),
            commits_run(segment.commits, may, segment.commits.len() as int),
        );
        lemma_commits_run_names(segment.commits, may, segment.commits.len() as int);
        lemma_node_names_add(first, rest);
        let own = match segment.name {
            Some(name) => seq![name],
            None => Seq::empty(),
        };
        assert(node_names(first) =~= own) by {
            reveal_with_fuel(node_names, 2);
            if segment.name is Some {
                assert(first.drop_last() =~= Seq::empty());
            }
        }
        let run = segment_run(segment, may);
        assert(node_names(run) == own + node_names(rest)) by {
            if (first + rest).len() == 0 {
                reveal_with_fuel(node_names, 2);
                assert(run.drop_last() =~= Seq::empty());
                assert(first + rest =~= Seq::empty());
                assert(node_names(run) =~= Seq::empty());
                assert(own + node_names(rest) =~= node_names(first + rest));
            }
        }
        lemma_node_names_add(runs(segments, mutable, n - 1), run);
        assert(names_upto(segments, n) =~= names_upto(segments, n - 1) + (own + node_names(rest)));
    } else {
        assert(node_names(runs(segments, mutable, n)) =~= names_upto(segments, n));
    }
}

proof fn lemma_placed_names(nodes: Seq<RunView>, lists: Seq<Seq<usize>>, n: int)
    requires
        0 <= n <= nodes.len(),
    ensures
        placed_refs(nodes, lists, n).map_values(|r: PlacedView| r.name) == node_names(
            nodes.take(n),
        ),
    decreases n,
{
    let named = |r: PlacedView| r.name;
    if n > 0 {
        lemma_placed_names(nodes, lists, n - 1);
        assert(nodes.take(n).drop_last() =~= nodes.take(n - 1));
        let (before, all) = (placed_refs(nodes, lists, n - 1), placed_refs(nodes, lists, n));
        if nodes[n - 1] is Ref {
            assert(all.map_values(named) =~= before.map_values(named).push(
                nodes[n - 1]->Ref_name,
            ));
        }
    } else {
        assert(placed_refs(nodes, lists, n).map_values(named) =~= node_names(nodes.take(n)));
    }
}

/// The ledger has each name once for each time that it is there: those of the segments in their
/// order, each one followed by those on the commits of the segment.
pub proof fn law_ledger_names(
    segments: Seq<SegmentView>,
    mutable: Set<usize>,
    entry: int,
    ws: Option<ObjectId>,
)
    ensures
        derived(segments, mutable, entry, ws).refs.map_values(|r: PlacedView| r.name)
            == names_upto(segments, segments.len() as int),
{
    let nodes = all_nodes(segments, mutable);
    let lists = final_lists(segments, mutable, ws);
    lemma_placed_names(nodes, lists, nodes.len() as int);
    assert(nodes.take(nodes.len() as int) =~= nodes);
    lemma_runs_names(segments, mutable, segments.len() as int);
}

/// Where in the run of a segment the commit at `c` starts: with the references on it, and then the
/// commit.
spec fn commit_offset(segment: SegmentView, c: int) -> int {
    (if segment.name is Some {
        1int
    } else {
        0int
    }) + commits_run(segment.commits, true, c).len()
}

proof fn lemma_commits_run_len(commits: Seq<CommitView>, a: bool, b: bool, c: int)
    ensures
        commits_run(commits, a, c).len() == commits_run(commits, b, c).len(),
    decreases c,
{
    if c > 0 {
        lemma_commits_run_len(commits, a, b, c - 1);
    }
}

proof fn lemma_commits_run_at(commits: Seq<CommitView>, mutable: bool, c: int, n: int)
    requires
        0 <= c < n <= commits.len(),
    ensures
        ({
            let run = commits_run(commits, mutable, n);
            let off = commits_run(commits, mutable, c).len() as int;
            let refs = commits[c].refs;
            &&& off + refs.len() < run.len()
            &&& c + 1 == n ==> run.len() == off + refs.len() + 1
            &&& commits_run(commits, mutable, c + 1).len() == off + refs.len() + 1
            &&& forall|j: int|
                0 <= j < refs.len() ==> #[trigger] run[off + j] == (RunView::Ref {
                    name: refs[j],
                    mutable,
                })
            &&& run[off + refs.len()] == (RunView::Commit {
                id: commits[c].id,
                parent_ids: commits[c].parent_ids,
            })
        }),
    decreases n,
{
    let off = commits_run(commits, mutable, c).len() as int;
    let refs = commits[c].refs;
    let run = commits_run(commits, mutable, n);
    let own = refs_run(commits[n - 1].refs, mutable).push(
        RunView::Commit { id: commits[n - 1].id, parent_ids: commits[n - 1].parent_ids },
    );
    assert(run == commits_run(commits, mutable, n - 1) + own);
    if c < n - 1 {
        lemma_commits_run_at(commits, mutable, c, n - 1);
        let before = commits_run(commits, mutable, n - 1);
        assert forall|j: int| 0 <= j < refs.len() implies #[trigger] run[off + j] == (
        RunView::Ref { name: refs[j], mutable }) by {
            assert(before[off + j] == (RunView::Ref { name: refs[j], mutable }));
        }
    } else {
        assert forall|j: int| 0 <= j < refs.len() implies #[trigger] run[off + j] == (
        RunView::Ref { name: refs[j], mutable }) by {
            assert(run[off + j] == own[j]);
        }
    }
}

/// The nodes of a segment.
proof fn lemma_run_at(segment: SegmentView, mutable: bool, c: int)
    requires
        0 <= c < segment.commits.len(),
    ensures
        ({
            let run = segment_run(segment, mutable);
            let off = commit_offset(segment, c);
            let refs = segment.commits[c].refs;
            &&& 0 <= off
            &&& off + refs.len() < run.len()
            &&& c + 1 == segment.commits.len() ==> run.len() == off + refs.len() + 1
            &&& commit_offset(segment, c + 1) == off + refs.len() + 1
            &&& forall|j: int|
                0 <= j < refs.len() ==> #[trigger] run[off + j] == (RunView::Ref {
                    name: refs[j],
                    mutable,
                })
            &&& run[off + refs.len()] == (RunView::Commit {
                id: segment.commits[c].id,
                parent_ids: segment.commits[c].parent_ids,
            })
            &&& segment.name matches Some(name) ==> run[0] == (RunView::Ref { name, mutable })
            &&& c == 0 ==> off == if segment.name is Some {
                1int
            } else {
                0int
            }
        }),
{
    let n = segment.commits.len() as int;
    lemma_commits_run_at(segment.commits, mutable, c, n);
    lemma_commits_run_len(segment.commits, true, mutable, c);
    lemma_commits_run_len(segment.commits, true, mutable, c + 1);
    let first = named_run(segment.name, mutable);
    let rest = commits_run(segment.commits, mutable, n);
    let run = segment_run(segment, mutable);
    let off = commits_run(segment.commits, mutable, c).len() as int;
    let refs = segment.commits[c].refs;
    assert(run == first + rest);
    assert forall|j: int| 0 <= j < refs.len() implies #[trigger] run[commit_offset(segment, c) + j]
        == (RunView::Ref { name: refs[j], mutable }) by {
        assert(rest[off + j] == (RunView::Ref { name: refs[j], mutable }));
    }
    if c == 0 {
        assert(commits_run(segment.commits, true, 0).len() == 0);
    }
}

/// The nodes and lists of a segment, among all.
proof fn lemma_segment_at(
    segments: Seq<SegmentView>,
    mutable: Set<usize>,
    s: int,
    n: int,
    k: int,
)
    requires
        0 <= s < n <= segments.len(),
        0 <= k < segment_run(segments[s], mutable.contains(s as usize)).len(),
    ensures
        ({
            let start = runs(segments, mutable, s).len() as int;
            &&& start + k < runs(segments, mutable, n).len()
            &&& runs(segments, mutable, n)[start + k] == segment_run(
                segments[s],
                mutable.contains(s as usize),
            )[k]
            &&& links(segments, mutable, n).len() == runs(segments, mutable, n).len()
            &&& links(segments, mutable, n)[start + k] == run_links(segments, mutable, s)[k]
        }),
    decreases n,
{
    lemma_links_len(segments, mutable, n);
    lemma_links_len(segments, mutable, n - 1);
    if s < n - 1 {
        lemma_segment_at(segments, mutable, s, n - 1, k);
    }
}

proof fn lemma_links_len(segments: Seq<SegmentView>, mutable: Set<usize>, n: int)
    ensures
        links(segments, mutable, n).len() == runs(segments, mutable, n).len(),
    decreases n,
{
    if n > 0 {
        lemma_links_len(segments, mutable, n - 1);
    }
}

/// What is not a commit keeps what it leads to.
proof fn lemma_rewired_others(
    nodes: Seq<RunView>,
    lists: Seq<Seq<usize>>,
    ws: Option<ObjectId>,
    n: int,
    i: int,
)
    requires
        0 <= n <= nodes.len() <= usize::MAX,
        lists.len() == nodes.len(),
        0 <= i < nodes.len(),
        !is_commit(nodes[i]),
    ensures
        rewired(nodes, lists, ws, n).len() == lists.len(),
        rewired(nodes, lists, ws, n)[i] == lists[i],
    decreases n,
{
    if n > 0 {
        lemma_rewired_others(nodes, lists, ws, n - 1, i);
        if let RunView::Commit { id, .. } = nodes[n - 1] {
            lemma_commit_in_below(nodes, id, nodes.len() as int);
            crate::derivation::lemma_commit_found(nodes, n - 1, nodes.len() as int);
        }
    }
}

/// Down a row of references to the commit behind them.
proof fn lemma_descend_row(
    nodes: Seq<RunView>,
    lists: Seq<Seq<usize>>,
    cursor: int,
    below: Option<usize>,
    m: int,
    fuel: nat,
)
    requires
        0 <= m < fuel,
        0 <= cursor,
        cursor + m + 1 < nodes.len() <= usize::MAX,
        forall|i: int|
            0 <= i <= m ==> #[trigger] lists[cursor + i] == seq![(cursor + i + 1) as usize],
        forall|i: int| 1 <= i <= m ==> #[trigger] nodes[cursor + i] is Ref,
        is_commit(nodes[cursor + m + 1]),
    ensures
        descend(nodes, lists, cursor as usize, below, fuel) == Some(
            (
                (cursor + m + 1) as usize,
                if below is Some || m == 0 {
                    below
                } else {
                    Some((cursor + 1) as usize)
                },
            ),
        ),
    decreases m,
{
    assert(lists[cursor + 0] == seq![(cursor + 0 + 1) as usize]);
    if m > 0 {
        assert(nodes[cursor + 1] is Ref);
        let under = if below is None {
            Some((cursor + 1) as usize)
        } else {
            below
        };
        assert forall|i: int| 0 <= i <= m - 1 implies #[trigger] lists[(cursor + 1) + i] == seq![
            (cursor + 1 + i + 1) as usize,
        ] by {
            assert(lists[cursor + (i + 1)] == seq![(cursor + (i + 1) + 1) as usize]);
        }
        assert forall|i: int| 1 <= i <= m - 1 implies #[trigger] nodes[(cursor + 1) + i] is Ref by {
            assert(nodes[cursor + (i + 1)] is Ref);
        }
        lemma_descend_row(nodes, lists, cursor + 1, under, m - 1, (fuel - 1) as nat);
    }
}

/// A node that is a reference is in the ledger.
proof fn lemma_is_placed(nodes: Seq<RunView>, lists: Seq<Seq<usize>>, b: int, n: int) -> (k: int)
    requires
        0 <= b < n <= nodes.len(),
        nodes[b] is Ref,
    ensures
        0 <= k < placed_refs(nodes, lists, n).len(),
        placed_refs(nodes, lists, n)[k] == placed_at(nodes, lists, b),
    decreases n,
{
    if b < n - 1 {
        lemma_is_placed(nodes, lists, b, n - 1)
    } else {
        placed_refs(nodes, lists, n - 1).len() as int
    }
}

/// The references in a row above a commit of a segment: the one at `at` and the `m` ones behind it.
#[verifier::rlimit(40)]
proof fn lemma_row(
    segments: Seq<SegmentView>,
    mutable: Set<usize>,
    ws: Option<ObjectId>,
    s: int,
    c: int,
    at: int,
)
    requires
        0 <= s < segments.len(),
        0 <= c < segments[s].commits.len(),
        all_nodes(segments, mutable).len() <= usize::MAX,
        ({
            let off = commit_offset(segments[s], c);
            ||| off <= at < off + segments[s].commits[c].refs.len()
            ||| c == 0 && at == 0 && segments[s].name is Some
        }),
        segments[s].commits[c].refs.len() < WALK_LIMIT,
    ensures
        ({
            let nodes = all_nodes(segments, mutable);
            let lists = final_lists(segments, mutable, ws);
            let start = runs(segments, mutable, s).len() as int;
            let run = segment_run(segments[s], mutable.contains(s as usize));
            let m = commit_offset(segments[s], c) + segments[s].commits[c].refs.len() - at - 1;
            let placed = placed_at(nodes, lists, start + at);
            &&& start + at < nodes.len()
            &&& nodes[start + at] == run[at]
            &&& nodes[start + at] is Ref
            &&& placed.name == run[at]->Ref_name
            &&& placed.mutable == mutable.contains(s as usize)
            &&& placed.anchor == Some(segments[s].commits[c].id)
            &&& placed.below == if m == 0 {
                None
            } else {
                Some(run[at + 1]->Ref_name)
            }
        }),
{
    let segment = segments[s];
    let may = mutable.contains(s as usize);
    let n = segments.len() as int;
    let nodes = all_nodes(segments, mutable);
    let lists = final_lists(segments, mutable, ws);
    let first = links(segments, mutable, n);
    let start = runs(segments, mutable, s).len() as int;
    let run = segment_run(segment, may);
    let off = commit_offset(segment, c);
    let refs = segment.commits[c].refs;
    let m = off + refs.len() - at - 1;
    lemma_run_at(segment, may, c);
    let base = start + at;
    assert forall|i: int| 0 <= i <= m implies #[trigger] lists[base + i] == seq![
        (base + i + 1) as usize,
    ] by {
        lemma_row_is_ref(segment, may, c, at, at + i);
        lemma_ref_node(segments, mutable, ws, s, at + i);
        assert(base + i == start + (at + i));
    }
    assert forall|i: int| 1 <= i <= m implies #[trigger] nodes[base + i] is Ref by {
        lemma_row_is_ref(segment, may, c, at, at + i);
        lemma_ref_node(segments, mutable, ws, s, at + i);
        assert(base + i == start + (at + i));
    }
    lemma_segment_at(segments, mutable, s, n, off + refs.len());
    lemma_descend_row(nodes, lists, base, None, m, WALK_LIMIT as nat);
    lemma_row_is_ref(segment, may, c, at, at);
    lemma_ref_node(segments, mutable, ws, s, at);
    if m > 0 {
        lemma_row_is_ref(segment, may, c, at, at + 1);
        lemma_ref_node(segments, mutable, ws, s, at + 1);
    }
}

/// What is in a row above a commit is a reference.
#[verifier::rlimit(40)]
proof fn lemma_row_is_ref(segment: SegmentView, may: bool, c: int, at: int, k: int)
    requires
        0 <= c < segment.commits.len(),
        ({
            let off = commit_offset(segment, c);
            ||| off <= at < off + segment.commits[c].refs.len()
            ||| c == 0 && at == 0 && segment.name is Some
        }),
        at <= k < commit_offset(segment, c) + segment.commits[c].refs.len(),
    ensures
        0 <= k,
        k + 1 < segment_run(segment, may).len(),
        segment_run(segment, may)[k] is Ref,
        segment_run(segment, may)[k]->Ref_mutable == may,
{
    lemma_run_at(segment, may, c);
    let off = commit_offset(segment, c);
    if k >= off {
        let run = segment_run(segment, may);
        assert(run[off + (k - off)] is Ref);
    }
}

/// A reference within a run leads to what is behind it.
#[verifier::rlimit(40)]
proof fn lemma_ref_node(
    segments: Seq<SegmentView>,
    mutable: Set<usize>,
    ws: Option<ObjectId>,
    s: int,
    k: int,
)
    requires
        0 <= s < segments.len(),
        all_nodes(segments, mutable).len() <= usize::MAX,
        0 <= k,
        k + 1 < segment_run(segments[s], mutable.contains(s as usize)).len(),
        segment_run(segments[s], mutable.contains(s as usize))[k] is Ref,
    ensures
        ({
            let start = runs(segments, mutable, s).len() as int;
            &&& start + k < all_nodes(segments, mutable).len()
            &&& all_nodes(segments, mutable)[start + k] == segment_run(
                segments[s],
                mutable.contains(s as usize),
            )[k]
            &&& final_lists(segments, mutable, ws)[start + k] == seq![(start + k + 1) as usize]
        }),
{
    let n = segments.len() as int;
    let nodes = all_nodes(segments, mutable);
    let start = runs(segments, mutable, s).len() as int;
    lemma_segment_at(segments, mutable, s, n, k);
    lemma_rewired_others(nodes, links(segments, mutable, n), ws, nodes.len() as int, start + k);
}

/// A reference on a commit is in the ledger: on that commit, above the next one that is on it, and to
/// be moved exactly if its segment may be changed.
#[verifier::rlimit(40)]
pub proof fn law_references_on_commits(
    segments: Seq<SegmentView>,
    mutable: Set<usize>,
    entry: int,
    ws: Option<ObjectId>,
    s: int,
    c: int,
    j: int,
)
    requires
        all_nodes(segments, mutable).len() <= usize::MAX,
        0 <= s < segments.len(),
        0 <= c < segments[s].commits.len(),
        0 <= j < segments[s].commits[c].refs.len() < WALK_LIMIT,
    ensures
        exists|k: int|
            0 <= k < derived(segments, mutable, entry, ws).refs.len() && {
                let placed = #[trigger] derived(segments, mutable, entry, ws).refs[k];
                let commit = segments[s].commits[c];
                &&& placed.name == commit.refs[j]
                &&& placed.mutable == mutable.contains(s as usize)
                &&& placed.anchor == Some(commit.id)
                &&& placed.below == if j + 1 < commit.refs.len() {
                    Some(commit.refs[j + 1])
                } else {
                    None
                }
            },
{
    let nodes = all_nodes(segments, mutable);
    let lists = final_lists(segments, mutable, ws);
    let off = commit_offset(segments[s], c);
    lemma_run_at(segments[s], mutable.contains(s as usize), c);
    lemma_row(segments, mutable, ws, s, c, off + j);
    let start = runs(segments, mutable, s).len() as int;
    let k = lemma_is_placed(nodes, lists, start + off + j, nodes.len() as int);
    let run = segment_run(segments[s], mutable.contains(s as usize));
    assert(run[off + j] == (RunView::Ref {
        name: segments[s].commits[c].refs[j],
        mutable: mutable.contains(s as usize),
    }));
    if j + 1 < segments[s].commits[c].refs.len() {
        assert(run[off + (j + 1)] is Ref);
    }
    assert(derived(segments, mutable, entry, ws).refs[k] == placed_at(nodes, lists, start + off + j));
}

/// The name of a segment with commits is in the ledger: on the first commit of the segment, above the
/// first reference that is on that commit, and to be moved exactly if the segment may be changed.
#[verifier::rlimit(40)]
pub proof fn law_names_of_segments(
    segments: Seq<SegmentView>,
    mutable: Set<usize>,
    entry: int,
    ws: Option<ObjectId>,
    s: int,
)
    requires
        all_nodes(segments, mutable).len() <= usize::MAX,
        0 <= s < segments.len(),
        segments[s].name is Some,
        segments[s].commits.len() > 0,
        segments[s].commits[0].refs.len() < WALK_LIMIT,
    ensures
        exists|k: int|
            0 <= k < derived(segments, mutable, entry, ws).refs.len() && {
                let placed = #[trigger] derived(segments, mutable, entry, ws).refs[k];
                let commit = segments[s].commits[0];
                &&& Some(placed.name) == segments[s].name
                &&& placed.mutable == mutable.contains(s as usize)
                &&& placed.anchor == Some(commit.id)
                &&& placed.below == if commit.refs.len() > 0 {
                    Some(commit.refs[0])
                } else {
                    None
                }
            },
{
    let nodes = all_nodes(segments, mutable);
    let lists = final_lists(segments, mutable, ws);
    let off = commit_offset(segments[s], 0);
    lemma_run_at(segments[s], mutable.contains(s as usize), 0);
    lemma_row(segments, mutable, ws, s, 0, 0);
    let start = runs(segments, mutable, s).len() as int;
    let k = lemma_is_placed(nodes, lists, start, nodes.len() as int);
    let run = segment_run(segments[s], mutable.contains(s as usize));
    if segments[s].commits[0].refs.len() > 0 {
        assert(run[off + 0] is Ref);
    }
    assert(derived(segments, mutable, entry, ws).refs[k] == placed_at(nodes, lists, start + 0));
}

} // verus!
