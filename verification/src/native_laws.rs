//! What the step graph of what is in reach says about the segments, the stacks and the references
//! that it is made from.

use crate::commit::CommitView;
use crate::commit_graph::{last_index, lemma_last_index, linked};
use crate::creation::PickDefaults;
use crate::generation_laws::distinct_ids;
use crate::names::ObjectId;
use crate::native_creation::{
    all_splices, between, chain_counts, chain_edges, chains_view, commit_in_scope,
    connected_parents, copies_before, extra_commits, follows, law_commits_are_at_their_steps,
    lemma_own_index, names_on, occurrences, opt_list, parent_steps, records, ref_steps,
    resting_names, scope_of, splice_in, splices_upto, stack_splices, stack_walk, step_names,
    steps_named, ExtraEntry, ExtraRefMutability, NativePlan, NativeSource, RestingChainView,
    SpliceView,
};
use crate::reach::{
    closed_under, is_path, lemma_closed_reachable, lemma_entry_reachable, lemma_step_reachable,
    reachable,
};
use crate::segment_graph::SegmentView;
use crate::step::{SettingsView, StepView};
use crate::step_graph::{Edge, EdgeRecord};
use crate::seqs::{lemma_filter_contains, lemma_filter_none, lemma_filter_take, lemma_push_contains};
use crate::stacks::{StackSegmentView, StackView};
use vstd::prelude::*;

verus! {

/// Whether the segments from `from` up to `to` are all those without commits between two segments
/// with commits, or between one of these and an end of the stack.
pub open spec fn empty_run(segments: Seq<StackSegmentView>, from: int, to: int) -> bool {
    &&& 0 <= from < to <= segments.len()
    &&& forall|j: int| from <= j < to ==> (#[trigger] segments[j]).commits.len() == 0
    &&& from == 0 || segments[from - 1].commits.len() > 0
    &&& to == segments.len() || segments[to].commits.len() > 0
}

/// Whether the name is the first one of the segments from `from` up to `to`.
pub open spec fn first_name(
    segments: Seq<StackSegmentView>,
    from: int,
    to: int,
    name: Seq<u8>,
) -> bool {
    exists|first: int|
        {
            &&& from <= first < to
            &&& (#[trigger] segments[first]).name == Some(name)
            &&& forall|j: int| from <= j < first ==> (#[trigger] segments[j]).name is None
        }
}

/// The last commit above the segments from `from` on: that of the segment right above them, or the
/// workspace commit if they are at the top.
pub open spec fn commit_above(
    segments: Seq<StackSegmentView>,
    workspace_commit_id: Option<ObjectId>,
    from: int,
) -> Option<ObjectId> {
    if from <= 0 {
        workspace_commit_id
    } else {
        Some(segments[from - 1].commits[segments[from - 1].commits.len() - 1])
    }
}

/// Whether the workspace commit or the tip of one of the segments is in scope.
pub open spec fn has_tip_in(
    segments: Seq<StackSegmentView>,
    workspace_commit_id: Option<ObjectId>,
    scope: Set<ObjectId>,
    n: int,
) -> bool {
    ||| workspace_commit_id matches Some(ws) && scope.contains(ws)
    ||| exists|j: int|
        0 <= j < n && (#[trigger] segments[j]).commits.len() > 0 && scope.contains(
            segments[j].commits[0],
        )
}

/// Whether the splice stands for the segments from `from` up to `to`: they are all those without
/// commits between the last commit above them and the tip of the segment below them, and the splice
/// is named like the first of them that has a name. At the bottom of the stack they rest on its base,
/// and count only if something of the stack is in scope.
pub open spec fn splices_run(
    stack: StackView,
    workspace_commit_id: Option<ObjectId>,
    scope: Set<ObjectId>,
    from: int,
    to: int,
    s: SpliceView,
) -> bool {
    let segments = stack.segments;
    &&& empty_run(segments, from, to)
    &&& first_name(segments, from, to, s.top_ref)
    &&& s.above == commit_above(segments, workspace_commit_id, from)
    &&& to < segments.len() ==> s.below == Some(segments[to].commits[0])
    &&& to == segments.len() ==> s.below == segments[to - 1].base && has_tip_in(
        segments,
        workspace_commit_id,
        scope,
        to,
    )
}

/// A splice is between the last commit of the nearest segment with commits above it, or the workspace
/// commit, and the tip of the next segment with commits, or the base of the stack; and wherever a
/// stack has segments without commits, of which one has a name, there is a splice.
pub proof fn law_splices_are_between_segments(
    stack: StackView,
    workspace_commit_id: Option<ObjectId>,
    scope: Set<ObjectId>,
    s: SpliceView,
)
    ensures
        stack_splices(stack, workspace_commit_id, scope).contains(s) <==> exists|from: int, to: int|
            splices_run(stack, workspace_commit_id, scope, from, to, s),
{
    let ws = workspace_commit_id;
    let segments = stack.segments;
    let n = segments.len() as int;
    let walk = stack_walk(segments, ws, scope, n);
    let all = stack_splices(stack, ws, scope);
    let start = lemma_walk(stack, ws, scope, n);
    lemma_walk_splices(stack, ws, scope, n, s);
    if all.contains(s) {
        if walk.splices.contains(s) {
            let (from, to) = choose|from: int, to: int|
                to < n && #[trigger] splices_run(stack, ws, scope, from, to, s);
            assert(splices_run(stack, ws, scope, from, to, s));
        } else {
            let own = SpliceView {
                above: walk.above,
                below: segments[n - 1].base,
                top_ref: walk.run_top->0,
            };
            lemma_push_contains(walk.splices, own, s);
            assert(splices_run(stack, ws, scope, start, n, s));
        }
    }
    if exists|from: int, to: int| splices_run(stack, ws, scope, from, to, s) {
        let (from, to) = choose|from: int, to: int| splices_run(stack, ws, scope, from, to, s);
        if to < n {
            assert(walk.splices.contains(s));
            if walk.run_top is Some && walk.reachable {
                let own = SpliceView {
                    above: walk.above,
                    below: segments[n - 1].base,
                    top_ref: walk.run_top->0,
                };
                lemma_push_contains(walk.splices, own, s);
            }
        } else {
            lemma_same_run(segments, from, start, n);
            lemma_same_name(segments, start, n, s.top_ref, walk.run_top);
            lemma_push_contains(walk.splices, s, s);
        }
    }
}

/// The splices of a stack come from the top down, and no two of them stand for the same segments.
pub proof fn law_splices_come_in_order(
    stack: StackView,
    workspace_commit_id: Option<ObjectId>,
    scope: Set<ObjectId>,
    k: int,
    l: int,
)
    requires
        0 <= k < l < stack_splices(stack, workspace_commit_id, scope).len(),
    ensures
        ({
            let all = stack_splices(stack, workspace_commit_id, scope);
            exists|from: int, to: int, next: int, end: int|
                {
                    &&& #[trigger] splices_run(stack, workspace_commit_id, scope, from, to, all[k])
                    &&& #[trigger] splices_run(
                        stack,
                        workspace_commit_id,
                        scope,
                        next,
                        end,
                        all[l],
                    )
                    &&& to < next
                }
        }),
{
    let ws = workspace_commit_id;
    let n = stack.segments.len() as int;
    let walk = stack_walk(stack.segments, ws, scope, n);
    let all = stack_splices(stack, ws, scope);
    let start = lemma_walk(stack, ws, scope, n);
    let (from, to) = lemma_walk_at(stack, ws, scope, n, k);
    assert(all[k] == walk.splices[k]);
    if l < walk.splices.len() {
        let (next, end) = lemma_walk_at(stack, ws, scope, n, l);
        lemma_walk_order(stack, ws, scope, n, k, l);
        assert(all[l] == walk.splices[l]);
        let (f, t, x, e) = choose|f: int, t: int, x: int, e: int|
            {
                &&& #[trigger] splices_run(stack, ws, scope, f, t, walk.splices[k])
                &&& #[trigger] splices_run(stack, ws, scope, x, e, walk.splices[l])
                &&& t < x
            };
        assert(splices_run(stack, ws, scope, f, t, all[k]));
        assert(splices_run(stack, ws, scope, x, e, all[l]));
    } else {
        assert(splices_run(stack, ws, scope, from, to, all[k]));
        assert(splices_run(stack, ws, scope, start, n, all[l]));
        assert(stack.segments[to].commits.len() > 0);
    }
}

/// The splices that count are those of the stacks that are between commits in scope, as far as they
/// are between commits.
pub proof fn law_splices_that_count(
    stacks: Seq<StackView>,
    workspace_commit_id: Option<ObjectId>,
    scope: Set<ObjectId>,
    s: SpliceView,
)
    ensures
        all_splices(stacks, workspace_commit_id, scope).contains(s) <==> {
            &&& exists|i: int, from: int, to: int|
                0 <= i < stacks.len() && #[trigger] splices_run(
                    stacks[i],
                    workspace_commit_id,
                    scope,
                    from,
                    to,
                    s,
                )
            &&& s.above matches Some(a) ==> scope.contains(a)
            &&& s.below matches Some(b) ==> scope.contains(b)
        },
{
    let ws = workspace_commit_id;
    let n = stacks.len() as int;
    let upto = splices_upto(stacks, ws, scope, n);
    lemma_filter_contains(upto, splice_in(scope), s);
    lemma_splices_upto(stacks, ws, scope, n, s);
    if upto.contains(s) {
        let i = choose|i: int|
            0 <= i < n && #[trigger] stack_splices(stacks[i], ws, scope).contains(s);
        law_splices_are_between_segments(stacks[i], ws, scope, s);
        let (from, to) = choose|from: int, to: int|
            splices_run(stacks[i], ws, scope, from, to, s);
        assert(splices_run(stacks[i], ws, scope, from, to, s));
    }
    if exists|i: int, from: int, to: int|
        0 <= i < n && #[trigger] splices_run(stacks[i], ws, scope, from, to, s) {
        let (i, from, to) = choose|i: int, from: int, to: int|
            0 <= i < n && #[trigger] splices_run(stacks[i], ws, scope, from, to, s);
        law_splices_are_between_segments(stacks[i], ws, scope, s);
        assert(stack_splices(stacks[i], ws, scope).contains(s));
    }
}

proof fn lemma_splices_upto(
    stacks: Seq<StackView>,
    ws: Option<ObjectId>,
    scope: Set<ObjectId>,
    n: int,
    s: SpliceView,
)
    requires
        0 <= n <= stacks.len(),
    ensures
        splices_upto(stacks, ws, scope, n).contains(s) <==> exists|i: int|
            0 <= i < n && #[trigger] stack_splices(stacks[i], ws, scope).contains(s),
    decreases n,
{
    if n > 0 {
        lemma_splices_upto(stacks, ws, scope, n - 1, s);
        crate::reach::lemma_add_contains(
            splices_upto(stacks, ws, scope, n - 1),
            stack_splices(stacks[n - 1], ws, scope),
            s,
        );
        if splices_upto(stacks, ws, scope, n - 1).contains(s) {
            let i = choose|i: int|
                0 <= i < n - 1 && #[trigger] stack_splices(stacks[i], ws, scope).contains(s);
            assert(stack_splices(stacks[i], ws, scope).contains(s));
        }
        if exists|i: int|
            0 <= i < n && #[trigger] stack_splices(stacks[i], ws, scope).contains(s) {
            let i = choose|i: int|
                0 <= i < n && #[trigger] stack_splices(stacks[i], ws, scope).contains(s);
            if i < n - 1 {
                assert(stack_splices(stacks[i], ws, scope).contains(s));
            }
        }
    }
}

/// How far the walk is: where the segments without commits start that it is in, what is above them,
/// and what is their first name.
proof fn lemma_walk(
    stack: StackView,
    ws: Option<ObjectId>,
    scope: Set<ObjectId>,
    n: int,
) -> (from: int)
    requires
        0 <= n <= stack.segments.len(),
    ensures
        0 <= from <= n,
        forall|j: int| from <= j < n ==> (#[trigger] stack.segments[j]).commits.len() == 0,
        from == 0 || stack.segments[from - 1].commits.len() > 0,
        ({
            let walk = stack_walk(stack.segments, ws, scope, n);
            &&& walk.above == commit_above(stack.segments, ws, from)
            &&& walk.reachable <==> has_tip_in(stack.segments, ws, scope, n)
            &&& match walk.run_top {
                Some(name) => first_name(stack.segments, from, n, name),
                None => forall|j: int| from <= j < n ==> (#[trigger] stack.segments[j]).name is None,
            }
        }),
    decreases n,
{
    let segments = stack.segments;
    if n <= 0 {
        0
    } else {
        let start = lemma_walk(stack, ws, scope, n - 1);
        let before = stack_walk(segments, ws, scope, n - 1);
        let own = segments[n - 1];
        if has_tip_in(segments, ws, scope, n - 1) && !(ws matches Some(w) && scope.contains(w)) {
            let j = choose|j: int|
                0 <= j < n - 1 && (#[trigger] segments[j]).commits.len() > 0 && scope.contains(
                    segments[j].commits[0],
                );
            assert(segments[j].commits.len() > 0);
        }
        if own.commits.len() == 0 {
            if let Some(name) = before.run_top {
                let first = choose|first: int|
                    {
                        &&& start <= first < n - 1
                        &&& (#[trigger] segments[first]).name == Some(name)
                        &&& forall|j: int|
                            start <= j < first ==> (#[trigger] segments[j]).name is None
                    };
                assert(segments[first].name == Some(name));
            } else if own.name is Some {
                assert(segments[n - 1].name == Some(own.name->0));
            }
            start
        } else {
            n
        }
    }
}

/// Two runs that end at the same place are the same.
proof fn lemma_same_run(segments: Seq<StackSegmentView>, from: int, start: int, to: int)
    requires
        empty_run(segments, from, to),
        0 <= start <= to,
        forall|j: int| start <= j < to ==> (#[trigger] segments[j]).commits.len() == 0,
        start == 0 || segments[start - 1].commits.len() > 0,
    ensures
        from == start,
{
    if from < start {
        assert(segments[start - 1].commits.len() == 0);
    } else if start < from {
        assert(segments[from - 1].commits.len() == 0);
    }
}

/// There is one first name.
proof fn lemma_same_name(
    segments: Seq<StackSegmentView>,
    from: int,
    to: int,
    name: Seq<u8>,
    top: Option<Seq<u8>>,
)
    requires
        first_name(segments, from, to, name),
        match top {
            Some(name) => first_name(segments, from, to, name),
            None => forall|j: int| from <= j < to ==> (#[trigger] segments[j]).name is None,
        },
    ensures
        top == Some(name),
{
    let first = choose|first: int|
        {
            &&& from <= first < to
            &&& (#[trigger] segments[first]).name == Some(name)
            &&& forall|j: int| from <= j < first ==> (#[trigger] segments[j]).name is None
        };
    if let Some(other) = top {
        let second = choose|second: int|
            {
                &&& from <= second < to
                &&& (#[trigger] segments[second]).name == Some(other)
                &&& forall|j: int| from <= j < second ==> (#[trigger] segments[j]).name is None
            };
        if first < second {
            assert(segments[first].name is None);
        } else if second < first {
            assert(segments[second].name is None);
        }
    }
}

/// The splices that were passed stand for the segments that were passed.
proof fn lemma_walk_splices(
    stack: StackView,
    ws: Option<ObjectId>,
    scope: Set<ObjectId>,
    n: int,
    s: SpliceView,
)
    requires
        0 <= n <= stack.segments.len(),
    ensures
        stack_walk(stack.segments, ws, scope, n).splices.contains(s) <==> exists|
            from: int,
            to: int,
        |
            to < n && #[trigger] splices_run(stack, ws, scope, from, to, s),
    decreases n,
{
    let segments = stack.segments;
    if n > 0 {
        lemma_walk_splices(stack, ws, scope, n - 1, s);
        let start = lemma_walk(stack, ws, scope, n - 1);
        let before = stack_walk(segments, ws, scope, n - 1);
        let walk = stack_walk(segments, ws, scope, n);
        let own = SpliceView {
            above: before.above,
            below: Some(segments[n - 1].commits[0]),
            top_ref: before.run_top->0,
        };
        lemma_push_contains(before.splices, own, s);
        if walk.splices.contains(s) {
            if before.splices.contains(s) {
                let (from, to) = choose|from: int, to: int|
                    to < n - 1 && #[trigger] splices_run(stack, ws, scope, from, to, s);
                assert(to < n && splices_run(stack, ws, scope, from, to, s));
            } else {
                assert(splices_run(stack, ws, scope, start, n - 1, s));
            }
        }
        if exists|from: int, to: int| to < n && #[trigger] splices_run(
            stack,
            ws,
            scope,
            from,
            to,
            s,
        ) {
            let (from, to) = choose|from: int, to: int|
                to < n && #[trigger] splices_run(stack, ws, scope, from, to, s);
            if to < n - 1 {
                assert(splices_run(stack, ws, scope, from, to, s));
            } else {
                lemma_same_run(segments, from, start, n - 1);
                lemma_same_name(segments, start, n - 1, s.top_ref, before.run_top);
                assert(s == own);
            }
        }
    }
}

/// The segments that the splice at `k` stands for.
proof fn lemma_walk_at(
    stack: StackView,
    ws: Option<ObjectId>,
    scope: Set<ObjectId>,
    n: int,
    k: int,
) -> (r: (int, int))
    requires
        0 <= n <= stack.segments.len(),
        0 <= k < stack_walk(stack.segments, ws, scope, n).splices.len(),
    ensures
        r.1 < n,
        splices_run(
            stack,
            ws,
            scope,
            r.0,
            r.1,
            stack_walk(stack.segments, ws, scope, n).splices[k],
        ),
{
    let all = stack_walk(stack.segments, ws, scope, n).splices;
    lemma_walk_splices(stack, ws, scope, n, all[k]);
    assert(all.contains(all[k]));
    choose|from: int, to: int| to < n && #[trigger] splices_run(stack, ws, scope, from, to, all[k])
}

/// The splices that were passed come from the top down.
proof fn lemma_walk_order(
    stack: StackView,
    ws: Option<ObjectId>,
    scope: Set<ObjectId>,
    n: int,
    k: int,
    l: int,
)
    requires
        0 <= n <= stack.segments.len(),
        0 <= k < l < stack_walk(stack.segments, ws, scope, n).splices.len(),
    ensures
        ({
            let all = stack_walk(stack.segments, ws, scope, n).splices;
            exists|from: int, to: int, next: int, end: int|
                {
                    &&& #[trigger] splices_run(stack, ws, scope, from, to, all[k])
                    &&& #[trigger] splices_run(stack, ws, scope, next, end, all[l])
                    &&& to < next
                }
        }),
    decreases n,
{
    let segments = stack.segments;
    if n > 0 {
        let before = stack_walk(segments, ws, scope, n - 1);
        let all = stack_walk(segments, ws, scope, n).splices;
        if l < before.splices.len() {
            lemma_walk_order(stack, ws, scope, n - 1, k, l);
            assert(all[k] == before.splices[k] && all[l] == before.splices[l]);
        } else {
            let start = lemma_walk(stack, ws, scope, n - 1);
            let (from, to) = lemma_walk_at(stack, ws, scope, n - 1, k);
            assert(all[k] == before.splices[k]);
            assert(splices_run(stack, ws, scope, from, to, all[k]));
            assert(splices_run(stack, ws, scope, start, n - 1, all[l]));
            assert(segments[to].commits.len() > 0);
            assert(to < start);
        }
    }
}

/// Whether the step at `p` is the commit `id`.
pub open spec fn is_commit_step(steps: Seq<StepView>, id: ObjectId, p: int) -> bool {
    &&& 0 <= p < steps.len()
    &&& steps[p] matches StepView::Pick(pick) && pick.id == id
}

/// Each commit in scope is one step: the workspace commit as that is picked, any other one as others
/// are, and with the parents that it has itself exactly if one of them, however many there are, is not
/// in scope. Right before it come the references on it.
pub proof fn law_native_commit(plan: NativePlan, k: int, p: int)
    requires
        distinct_ids(plan.commits),
        0 <= k < plan.commits.len() <= usize::MAX,
        is_commit_step(plan.steps(), plan.commits[k].id, p),
    ensures
        ({
            let (commit, pick) = (plan.commits[k], plan.steps()[p]->Pick_0);
            &&& p == plan.pick_node(commit.id)
            &&& plan.chain_top(commit.id) == p - commit.refs.len()
            &&& forall|i: int|
                0 <= i < commit.refs.len() ==> #[trigger] plan.steps().subrange(
                    p - commit.refs.len(),
                    p,
                )[i] == StepView::Reference(commit.refs[i])
            &&& p - commit.refs.len() >= 0
            &&& pick.mutable == plan.defaults.mutable
            &&& pick.preserved_parents == if exists|i: int|
                0 <= i < commit.parent_ids.len() && !plan.scope.contains(
                    #[trigger] commit.parent_ids[i],
                ) {
                Some(commit.parent_ids)
            } else {
                None
            }
            &&& pick.settings == if plan.workspace_commit_id == Some(commit.id) {
                plan.defaults.workspace_pick@
            } else {
                SettingsView { sign_commit: plan.sign, ..plan.defaults.pick@ }
            }
        }),
{
    let commit = plan.commits[k];
    law_commits_are_at_their_steps(plan, k);
    lemma_own_index(plan.commits, k);
    let l = lemma_commit_of(plan, p);
    if l < k {
        assert(plan.commits[l].id != plan.commits[k].id);
    } else if k < l {
        assert(plan.commits[k].id != plan.commits[l].id);
    }
    let (top, at) = (plan.chain_top(commit.id), plan.pick_node(commit.id));
    assert(plan.steps().subrange(top, at).len() == commit.refs.len());
    assert forall|i: int| 0 <= i < commit.refs.len() implies #[trigger] plan.steps().subrange(
        p - commit.refs.len(),
        p,
    )[i] == StepView::Reference(commit.refs[i]) by {
        assert(plan.steps().subrange(top, at)[i] == ref_steps(commit.refs)[i]);
    }
}

/// Each commit in scope is there.
pub proof fn law_native_commit_is_there(plan: NativePlan, k: int)
    requires
        distinct_ids(plan.commits),
        0 <= k < plan.commits.len() <= usize::MAX,
    ensures
        is_commit_step(plan.steps(), plan.commits[k].id, plan.pick_node(plan.commits[k].id)),
{
    law_commits_are_at_their_steps(plan, k);
}

/// Each step that is a commit is one of the commits.
proof fn lemma_commit_of(plan: NativePlan, p: int) -> (k: int)
    requires
        distinct_ids(plan.commits),
        plan.commits.len() <= usize::MAX,
        0 <= p < plan.steps().len(),
        plan.steps()[p] is Pick,
    ensures
        0 <= k < plan.commits.len(),
        p == plan.pick_node(plan.commits[k].id),
        plan.steps()[p]->Pick_0.id == plan.commits[k].id,
{
    let n = plan.commits.len() as int;
    lemma_no_pick_in_chains(plan, plan.chains.len() as int);
    if p >= plan.blocks(n).len() {
        assert(plan.steps()[p] == plan.chain_steps(plan.chains.len() as int)[p - plan.blocks(
            n,
        ).len()]);
    }
    assert(plan.steps()[p] == plan.blocks(n)[p]);
    let k = lemma_pick_block(plan, n, p);
    lemma_own_index(plan.commits, k);
    k
}

proof fn lemma_no_pick_in_chains(plan: NativePlan, n: int)
    ensures
        forall|i: int|
            0 <= i < plan.chain_steps(n).len() ==> !(#[trigger] plan.chain_steps(n)[i] is Pick),
    decreases n,
{
    if n > 0 {
        lemma_no_pick_in_chains(plan, n - 1);
        let (before, own) = (plan.chain_steps(n - 1), ref_steps(plan.chains[n - 1].refs));
        assert forall|i: int| 0 <= i < plan.chain_steps(n).len() implies !(
        #[trigger] plan.chain_steps(n)[i] is Pick) by {
            if i < before.len() {
                assert(plan.chain_steps(n)[i] == before[i]);
            } else {
                assert(plan.chain_steps(n)[i] == own[i - before.len()]);
            }
        }
    }
}

proof fn lemma_pick_block(plan: NativePlan, n: int, p: int) -> (k: int)
    requires
        0 <= n <= plan.commits.len(),
        0 <= p < plan.blocks(n).len(),
        plan.blocks(n)[p] is Pick,
    ensures
        0 <= k < n,
        p == plan.blocks(k + 1).len() - 1,
        plan.blocks(n)[p]->Pick_0.id == plan.commits[k].id,
    decreases n,
{
    let (before, own) = (plan.blocks(n - 1), plan.block(n - 1));
    if p < before.len() {
        assert(plan.blocks(n)[p] == before[p]);
        lemma_pick_block(plan, n - 1, p)
    } else {
        assert(plan.blocks(n)[p] == own[p - before.len()]);
        if p - before.len() < own.len() - 1 {
            assert(own[p - before.len()] == ref_steps(plan.commits[n - 1].refs)[p - before.len()]);
        }
        n - 1
    }
}

/// What must hold of the commits and what else the graph is made of, so that all steps and edges can
/// be counted.
pub open spec fn countable(plan: NativePlan) -> bool {
    &&& distinct_ids(plan.commits)
    &&& plan.steps().len() <= usize::MAX
    &&& plan.commits.len() <= usize::MAX
    &&& forall|id: ObjectId| #[trigger]
        plan.scope.contains(id) ==> last_index(plan.commits, id) is Some
    &&& forall|k: int|
        0 <= k < plan.commits.len() ==> (#[trigger] plan.commits[k]).parent_ids.len()
            + plan.splices.len() <= usize::MAX
    &&& forall|k: int| 0 <= k < plan.chains.len() ==> (#[trigger] plan.chains[k]).refs.len() > 0
}

/// The edges that go out from a commit are its own.
proof fn lemma_edges_of_commit(plan: NativePlan, k: int, e: EdgeRecord)
    requires
        countable(plan),
        0 <= k < plan.commits.len(),
        e.source == plan.pick_node(plan.commits[k].id),
    ensures
        plan.edges().contains(e) <==> plan.commit_edges(k).contains(e),
{
    let n = plan.commits.len() as int;
    let (a, b, c) = (
        plan.block_edges(n),
        plan.chains_edges(plan.chains.len() as int),
        plan.commits_edges(n),
    );
    law_commits_are_at_their_steps(plan, k);
    let at = plan.pick_node(plan.commits[k].id);
    crate::reach::lemma_add_contains(a, b, e);
    crate::reach::lemma_add_contains(a + b, c, e);
    lemma_block_sources(plan, n, at);
    if a.contains(e) {
        let i = choose|i: int| 0 <= i < a.len() && a[i] == e;
        assert(a[i].source != at);
    }
    lemma_own_index(plan.commits, k);
    lemma_blocks_grow(plan, k + 1, n);
    lemma_chain_sources(plan, plan.chains.len() as int);
    if b.contains(e) {
        let i = choose|i: int| 0 <= i < b.len() && b[i] == e;
        assert(b[i].source >= plan.commit_steps());
    }
    lemma_commits_edges(plan, n, k, e);
}

proof fn lemma_blocks_grow(plan: NativePlan, k: int, n: int)
    requires
        0 <= k <= n,
    ensures
        plan.blocks(k).len() + (n - k) <= plan.blocks(n).len(),
    decreases n - k,
{
    if k < n {
        lemma_blocks_grow(plan, k, n - 1);
    }
}

proof fn lemma_block_sources(plan: NativePlan, n: int, at: int)
    requires
        countable(plan),
        0 <= n <= plan.commits.len(),
        is_pick_at(plan, at),
    ensures
        forall|i: int| 0 <= i < plan.block_edges(n).len() ==> (#[trigger] plan.block_edges(
            n,
        )[i]).source != at,
    decreases n,
{
    if n > 0 {
        lemma_block_sources(plan, n - 1, at);
        let start = plan.blocks(n - 1).len() as int;
        let own = plan.block(n - 1);
        let len = own.len() as int;
        let (before, more) = (plan.block_edges(n - 1), chain_edges(start, len));
        let total = plan.commits.len() as int;
        lemma_blocks_grow(plan, n, total);
        let l = lemma_commit_of(plan, at);
        lemma_own_index(plan.commits, l);
        assert forall|i: int| 0 <= i < plan.block_edges(n).len() implies (
        #[trigger] plan.block_edges(n)[i]).source != at by {
            if i < before.len() {
                assert(plan.block_edges(n)[i] == before[i]);
            } else {
                let j = i - before.len();
                assert(plan.block_edges(n)[i] == more[j]);
                assert(plan.steps().len() >= plan.blocks(total).len());
                assert(more[j].source == start + j);
                if l + 1 <= n - 1 {
                    lemma_blocks_grow(plan, l + 1, n - 1);
                } else if l > n - 1 {
                    lemma_blocks_grow(plan, n, l);
                }
            }
        }
    }
}

/// Whether the step at `p` is a commit.
spec fn is_pick_at(plan: NativePlan, p: int) -> bool {
    0 <= p < plan.steps().len() && plan.steps()[p] is Pick
}

proof fn lemma_chain_sources(plan: NativePlan, n: int)
    requires
        countable(plan),
        0 <= n <= plan.chains.len(),
    ensures
        forall|i: int|
            0 <= i < plan.chains_edges(n).len() ==> (#[trigger] plan.chains_edges(n)[i]).source
                >= plan.commit_steps(),
        plan.commit_steps() + plan.chain_steps(n).len() <= plan.steps().len(),
{
    lemma_chain_steps_grow(plan, n, plan.chains.len() as int);
    lemma_chain_sources_below(plan, n);
}

proof fn lemma_chain_steps_grow(plan: NativePlan, k: int, n: int)
    requires
        0 <= k <= n,
    ensures
        plan.chain_steps(k).len() <= plan.chain_steps(n).len(),
    decreases n - k,
{
    if k < n {
        lemma_chain_steps_grow(plan, k, n - 1);
    }
}

proof fn lemma_chain_sources_below(plan: NativePlan, n: int)
    requires
        countable(plan),
        0 <= n <= plan.chains.len(),
    ensures
        forall|i: int|
            0 <= i < plan.chains_edges(n).len() ==> (#[trigger] plan.chains_edges(n)[i]).source
                >= plan.commit_steps(),
    decreases n,
{
    if n > 0 {
        lemma_chain_sources_below(plan, n - 1);
        let (before, own) = (plan.chains_edges(n - 1), plan.resting_edges(n - 1));
        let start = plan.chain_start(n - 1);
        let len = plan.chains[n - 1].refs.len() as int;
        lemma_chain_steps_grow(plan, n, plan.chains.len() as int);
        assert(plan.chain_steps(n).len() == plan.chain_steps(n - 1).len() + len);
        assert forall|i: int| 0 <= i < plan.chains_edges(n).len() implies (
        #[trigger] plan.chains_edges(n)[i]).source >= plan.commit_steps() by {
            if i < before.len() {
                assert(plan.chains_edges(n)[i] == before[i]);
            } else {
                let j = i - before.len();
                assert(plan.chains_edges(n)[i] == own[j]);
                if j < own.len() - 1 {
                    assert(own[j] == chain_edges(start, len)[j]);
                }
            }
        }
    }
}

proof fn lemma_commits_edges(plan: NativePlan, n: int, k: int, e: EdgeRecord)
    requires
        countable(plan),
        0 <= n <= plan.commits.len(),
        0 <= k < plan.commits.len(),
        e.source == plan.pick_node(plan.commits[k].id),
    ensures
        plan.commits_edges(n).contains(e) <==> k < n && plan.commit_edges(k).contains(e),
    decreases n,
{
    if n > 0 {
        lemma_commits_edges(plan, n - 1, k, e);
        crate::reach::lemma_add_contains(plan.commits_edges(n - 1), plan.commit_edges(n - 1), e);
        if k != n - 1 && plan.commit_edges(n - 1).contains(e) {
            let commit = plan.commits[n - 1];
            crate::reach::lemma_add_contains(
                plan.parent_edges(n - 1, commit.parent_ids.len() as int),
                plan.splice_edges(commit, plan.splices.len() as int),
                e,
            );
            lemma_parent_edge(plan, n - 1, commit.parent_ids.len() as int, e);
            lemma_splice_edge(plan, n - 1, plan.splices.len() as int, e);
            law_commits_are_at_their_steps(plan, n - 1);
            law_commits_are_at_their_steps(plan, k);
            let own = plan.pick_node(commit.id);
            assert(plan.steps()[own] == plan.steps()[plan.pick_node(plan.commits[k].id)]);
            if k < n - 1 {
                assert(plan.commits[k].id != plan.commits[n - 1].id);
            } else {
                assert(plan.commits[n - 1].id != plan.commits[k].id);
            }
        }
    }
}

/// An edge to a parent is for one of the parents.
proof fn lemma_parent_edge(plan: NativePlan, k: int, n: int, e: EdgeRecord)
    requires
        0 <= n <= plan.commits[k].parent_ids.len() <= usize::MAX,
    ensures
        plan.parent_edges(k, n).contains(e) <==> {
            let (commit, i) = (plan.commits[k], e.weight.order as int);
            &&& i < n
            &&& plan.scope.contains(commit.parent_ids[i])
            &&& !plan.diverted(k, i)
            &&& e.source == plan.pick_node(commit.id) as usize
            &&& e.target == plan.parent_target(commit, i) as usize
        },
    decreases n,
{
    if n > 0 {
        lemma_parent_edge(plan, k, n - 1, e);
        let own = EdgeRecord {
            source: plan.pick_node(plan.commits[k].id) as usize,
            target: plan.parent_target(plan.commits[k], n - 1) as usize,
            weight: Edge { order: (n - 1) as usize },
        };
        lemma_push_contains(plan.parent_edges(k, n - 1), own, e);
    }
}

/// An edge to a splice is for one of the splices.
proof fn lemma_splice_edge(plan: NativePlan, k: int, n: int, e: EdgeRecord)
    requires
        0 <= n <= plan.splices.len(),
    ensures
        plan.splice_edges(plan.commits[k], n).contains(e) <==> exists|m: int|
            0 <= m < n && #[trigger] is_edge_of_splice(plan, k, m, e),
    decreases n,
{
    if n > 0 {
        lemma_splice_edge(plan, k, n - 1, e);
        let commit = plan.commits[k];
        let before = plan.splice_edges(commit, n - 1);
        let top = plan.chain_with_top(plan.splices[n - 1].top_ref, plan.chains.len() as int);
        if top is Some && plan.splices[n - 1].above == Some(commit.id) {
            let own = EdgeRecord {
                source: plan.pick_node(commit.id) as usize,
                target: plan.chain_start(top->0) as usize,
                weight: Edge {
                    order: (commit.parent_ids.len() + plan.splices_under(
                        commit.id,
                        n - 1,
                    )) as usize,
                },
            };
            lemma_push_contains(before, own, e);
            if e == own {
                assert(is_edge_of_splice(plan, k, n - 1, e));
            }
        }
        if before.contains(e) {
            let m = choose|m: int| 0 <= m < n - 1 && #[trigger] is_edge_of_splice(plan, k, m, e);
            assert(is_edge_of_splice(plan, k, m, e));
        }
        if exists|m: int| 0 <= m < n && #[trigger] is_edge_of_splice(plan, k, m, e) {
            let m = choose|m: int| 0 <= m < n && #[trigger] is_edge_of_splice(plan, k, m, e);
            if m < n - 1 {
                assert(is_edge_of_splice(plan, k, m, e));
            }
        }
    }
}

/// Whether the edge is that of the commit to the splice.
spec fn is_edge_of_splice(plan: NativePlan, k: int, m: int, e: EdgeRecord) -> bool {
    let commit = plan.commits[k];
    let splice = plan.splices[m];
    plan.chain_with_top(splice.top_ref, plan.chains.len() as int) matches Some(c) && {
        &&& splice.above == Some(commit.id)
        &&& e.source == plan.pick_node(commit.id) as usize
        &&& e.target == plan.chain_start(c) as usize
        &&& e.weight.order == (commit.parent_ids.len() + plan.splices_under(
            commit.id,
            m,
        )) as usize
    }
}

/// Whether a connection of the commit to a parent was cut although all its parents are in scope. The
/// workspace commit does not count.
pub open spec fn is_cut_off(plan: NativePlan, commit: CommitView) -> bool {
    &&& Some(commit.id) != plan.workspace_commit_id
    &&& forall|i: int|
        0 <= i < commit.parent_ids.len() ==> plan.scope.contains(#[trigger] commit.parent_ids[i])
    &&& exists|i: int|
        0 <= i < commit.parent_ids.len() && !linked(
            plan.links,
            commit.id,
            #[trigger] commit.parent_ids[i],
        )
}

/// What leads from a commit at `p` to its parent at `i`, which is the commit at `q`, is one edge with
/// that order. It leads to the topmost reference on the parent; but to the parent itself if the commit
/// was cut off, or is a merge that must not see these references. There is no such edge if the commit
/// was not cut off and as many splices between the two are still to be used as there are further
/// places of that parent.
pub proof fn law_native_parent(
    plan: NativePlan,
    k: int,
    i: int,
    j: int,
    p: int,
    q: int,
    e: EdgeRecord,
)
    requires
        countable(plan),
        0 <= k < plan.commits.len(),
        0 <= i < plan.commits[k].parent_ids.len(),
        0 <= j < plan.commits.len(),
        plan.commits[j].id == plan.commits[k].parent_ids[i],
        plan.scope.contains(plan.commits[j].id),
        is_commit_step(plan.steps(), plan.commits[k].id, p),
        is_commit_step(plan.steps(), plan.commits[j].id, q),
        e.source == p,
        e.weight.order == i,
    ensures
        ({
            let (commit, parent) = (plan.commits[k], plan.commits[j]);
            let cut = is_cut_off(plan, commit);
            let is_merge = commit.parent_ids.len() > 1 && Some(commit.id)
                != plan.workspace_commit_id;
            let splices = plan.splices.filter(
                |s: SpliceView| s.above == Some(commit.id) && s.below == Some(parent.id),
            );
            let places = commit.parent_ids.take(i).filter(|id: ObjectId| id == parent.id);
            plan.edges().contains(e) <==> {
                &&& cut || places.len() >= splices.len()
                &&& e.target == if cut || (is_merge && plan.merge_bypass.contains(parent.id)) {
                    q
                } else {
                    q - parent.refs.len()
                }
            }
        }),
{
    let (commit, parent) = (plan.commits[k], plan.commits[j]);
    law_native_commit(plan, k, p);
    law_native_commit(plan, j, q);
    lemma_edges_of_commit(plan, k, e);
    let n = commit.parent_ids.len() as int;
    crate::reach::lemma_add_contains(
        plan.parent_edges(k, n),
        plan.splice_edges(commit, plan.splices.len() as int),
        e,
    );
    assert(plan.commits[k].parent_ids.len() + plan.splices.len() <= usize::MAX);
    lemma_parent_edge(plan, k, n, e);
    lemma_splice_edge(plan, k, plan.splices.len() as int, e);
    if plan.splice_edges(commit, plan.splices.len() as int).contains(e) {
        let m = choose|m: int|
            0 <= m < plan.splices.len() && #[trigger] is_edge_of_splice(plan, k, m, e);
        lemma_splices_under(plan, commit.id, m);
    }
    assert(plan.severed(commit) <==> is_cut_off(plan, commit));
    lemma_no_copies(plan.commits, k, k);
    lemma_occurrences(commit.parent_ids, parent.id, i);
    let x = occurrences(commit.parent_ids, parent.id, n);
    assert(0 * x == 0) by (nonlinear_arith);
    assert(plan.splices.filter(between(commit.id, parent.id)) == plan.splices.filter(
        |s: SpliceView| s.above == Some(commit.id) && s.below == Some(parent.id),
    )) by {
        assert(between(commit.id, parent.id) =~= (|s: SpliceView|
            s.above == Some(commit.id) && s.below == Some(parent.id)));
    }
}

/// Nothing leads from a commit to a parent that is not in scope.
pub proof fn law_native_parent_out_of_scope(plan: NativePlan, k: int, i: int, p: int, e: EdgeRecord)
    requires
        countable(plan),
        0 <= k < plan.commits.len(),
        0 <= i < plan.commits[k].parent_ids.len(),
        !plan.scope.contains(plan.commits[k].parent_ids[i]),
        is_commit_step(plan.steps(), plan.commits[k].id, p),
        e.source == p,
        e.weight.order == i,
    ensures
        !plan.edges().contains(e),
{
    let commit = plan.commits[k];
    law_native_commit(plan, k, p);
    lemma_edges_of_commit(plan, k, e);
    let n = commit.parent_ids.len() as int;
    crate::reach::lemma_add_contains(
        plan.parent_edges(k, n),
        plan.splice_edges(commit, plan.splices.len() as int),
        e,
    );
    assert(plan.commits[k].parent_ids.len() + plan.splices.len() <= usize::MAX);
    lemma_parent_edge(plan, k, n, e);
    lemma_splice_edge(plan, k, plan.splices.len() as int, e);
    if plan.splice_edges(commit, plan.splices.len() as int).contains(e) {
        let m = choose|m: int|
            0 <= m < plan.splices.len() && #[trigger] is_edge_of_splice(plan, k, m, e);
        lemma_splices_under(plan, commit.id, m);
    }
}

/// What leads from a commit at `p` to the splices under it comes behind its parents: one edge for each
/// splice whose topmost reference is on top of a chain, to that chain, with an order that counts all
/// splices under the commit before it.
#[verifier::rlimit(40)]
pub proof fn law_native_splice(plan: NativePlan, k: int, p: int, e: EdgeRecord)
    requires
        countable(plan),
        0 <= k < plan.commits.len(),
        is_commit_step(plan.steps(), plan.commits[k].id, p),
        e.source == p,
        e.weight.order >= plan.commits[k].parent_ids.len(),
    ensures
        plan.edges().contains(e) <==> exists|m: int, c: int|
            {
                &&& 0 <= m < plan.splices.len()
                &&& 0 <= c < plan.chains.len()
                &&& (#[trigger] plan.splices[m]).above == Some(plan.commits[k].id)
                &&& (#[trigger] plan.chains[c]).refs[0] == plan.splices[m].top_ref
                &&& forall|d: int|
                    c < d < plan.chains.len() ==> (#[trigger] plan.chains[d]).refs[0]
                        != plan.splices[m].top_ref
                &&& e.target == plan.chain_start(c)
                &&& e.weight.order - plan.commits[k].parent_ids.len() == plan.splices.take(m).filter(
                    |s: SpliceView| s.above == Some(plan.commits[k].id),
                ).len()
            },
{
    let commit = plan.commits[k];
    law_native_commit(plan, k, p);
    lemma_edges_of_commit(plan, k, e);
    let n = commit.parent_ids.len() as int;
    crate::reach::lemma_add_contains(
        plan.parent_edges(k, n),
        plan.splice_edges(commit, plan.splices.len() as int),
        e,
    );
    assert(plan.commits[k].parent_ids.len() + plan.splices.len() <= usize::MAX);
    lemma_parent_edge(plan, k, n, e);
    lemma_splice_edge(plan, k, plan.splices.len() as int, e);
    let chains = plan.chains.len() as int;
    if plan.edges().contains(e) {
        let m = choose|m: int|
            0 <= m < plan.splices.len() && #[trigger] is_edge_of_splice(plan, k, m, e);
        lemma_splices_under(plan, commit.id, m);
        lemma_chain_with_top(plan, plan.splices[m].top_ref, chains);
        let c = plan.chain_with_top(plan.splices[m].top_ref, chains)->0;
        law_native_chain_start(plan, c);
        assert(plan.splices[m].above == Some(commit.id));
        assert(plan.chains[c].refs[0] == plan.splices[m].top_ref);
    }
    if exists|m: int, c: int|
        {
            &&& 0 <= m < plan.splices.len()
            &&& 0 <= c < plan.chains.len()
            &&& (#[trigger] plan.splices[m]).above == Some(plan.commits[k].id)
            &&& (#[trigger] plan.chains[c]).refs[0] == plan.splices[m].top_ref
            &&& forall|d: int|
                c < d < plan.chains.len() ==> (#[trigger] plan.chains[d]).refs[0]
                    != plan.splices[m].top_ref
            &&& e.target == plan.chain_start(c)
            &&& e.weight.order - plan.commits[k].parent_ids.len() == plan.splices.take(m).filter(
                |s: SpliceView| s.above == Some(plan.commits[k].id),
            ).len()
        } {
        let (m, c) = choose|m: int, c: int|
            {
                &&& 0 <= m < plan.splices.len()
                &&& 0 <= c < plan.chains.len()
                &&& (#[trigger] plan.splices[m]).above == Some(plan.commits[k].id)
                &&& (#[trigger] plan.chains[c]).refs[0] == plan.splices[m].top_ref
                &&& forall|d: int|
                    c < d < plan.chains.len() ==> (#[trigger] plan.chains[d]).refs[0]
                        != plan.splices[m].top_ref
                &&& e.target == plan.chain_start(c)
                &&& e.weight.order - plan.commits[k].parent_ids.len() == plan.splices.take(
                    m,
                ).filter(|s: SpliceView| s.above == Some(plan.commits[k].id)).len()
            };
        lemma_splices_under(plan, commit.id, m);
        lemma_chain_with_top(plan, plan.splices[m].top_ref, chains);
        let d = plan.chain_with_top(plan.splices[m].top_ref, chains)->0;
        if c < d {
            assert(plan.chains[d].refs[0] != plan.splices[m].top_ref);
        }
        law_native_chain_start(plan, c);
        assert(is_edge_of_splice(plan, k, m, e));
    }
}

/// The references of a chain are steps behind all commits, one behind the other.
pub proof fn law_native_chain_start(plan: NativePlan, c: int)
    requires
        countable(plan),
        0 <= c < plan.chains.len(),
    ensures
        ({
            let (start, refs) = (plan.chain_start(c), plan.chains[c].refs);
            &&& 0 <= start
            &&& start + refs.len() <= plan.steps().len()
            &&& forall|i: int|
                0 <= i < refs.len() ==> #[trigger] plan.steps().subrange(
                    start,
                    (start + refs.len()) as int,
                )[i] == StepView::Reference(refs[i])
            &&& forall|p: int|
                start <= p < plan.steps().len() ==> !(#[trigger] plan.steps()[p] is Pick)
        }),
{
    let n = plan.chains.len() as int;
    let (start, refs) = (plan.chain_start(c), plan.chains[c].refs);
    lemma_chain_steps_prefix(plan, c + 1, n);
    lemma_no_pick_in_chains(plan, n);
    assert(plan.chain_steps(c + 1) == plan.chain_steps(c) + ref_steps(refs));
    assert forall|i: int| 0 <= i < refs.len() implies #[trigger] plan.steps().subrange(
        start,
        (start + refs.len()) as int,
    )[i] == StepView::Reference(refs[i]) by {
        let at = plan.chain_steps(c).len() + i;
        assert(plan.chain_steps(c + 1)[at] == ref_steps(refs)[i]);
        assert(plan.chain_steps(n)[at] == plan.chain_steps(c + 1)[at]);
        assert(plan.steps()[start + i] == plan.chain_steps(n)[at]);
    }
    assert forall|p: int| start <= p < plan.steps().len() implies !(
    #[trigger] plan.steps()[p] is Pick) by {
        assert(plan.steps()[p] == plan.chain_steps(n)[p - plan.commit_steps()]);
    }
}

proof fn lemma_chain_steps_prefix(plan: NativePlan, k: int, n: int)
    requires
        0 <= k <= n,
    ensures
        plan.chain_steps(k).len() <= plan.chain_steps(n).len(),
        forall|i: int|
            0 <= i < plan.chain_steps(k).len() ==> #[trigger] plan.chain_steps(n)[i]
                == plan.chain_steps(k)[i],
    decreases n - k,
{
    if k < n {
        lemma_chain_steps_prefix(plan, k, n - 1);
        assert forall|i: int|
            0 <= i < plan.chain_steps(k).len() implies #[trigger] plan.chain_steps(n)[i]
            == plan.chain_steps(k)[i] by {
            assert(plan.chain_steps(n - 1)[i] == plan.chain_steps(k)[i]);
        }
    }
}

proof fn lemma_splices_under(plan: NativePlan, id: ObjectId, n: int)
    requires
        0 <= n <= plan.splices.len(),
    ensures
        plan.splices_under(id, n) == plan.splices.take(n).filter(
            |s: SpliceView| s.above == Some(id),
        ).len(),
        plan.splices_under(id, n) <= n,
    decreases n,
{
    let keep = |s: SpliceView| s.above == Some(id);
    if n > 0 {
        lemma_splices_under(plan, id, n - 1);
        lemma_filter_take(plan.splices, keep, n - 1);
    } else {
        lemma_filter_none(plan.splices, keep);
    }
}

proof fn lemma_chain_with_top(plan: NativePlan, name: Seq<u8>, n: int)
    requires
        0 <= n <= plan.chains.len(),
    ensures
        match plan.chain_with_top(name, n) {
            Some(c) => 0 <= c < n && plan.chains[c].refs[0] == name && forall|d: int|
                c < d < n ==> (#[trigger] plan.chains[d]).refs[0] != name,
            None => forall|d: int| 0 <= d < n ==> (#[trigger] plan.chains[d]).refs[0] != name,
        },
    decreases n,
{
    if n > 0 {
        lemma_chain_with_top(plan, name, n - 1);
    }
}

proof fn lemma_no_copies(commits: Seq<CommitView>, k: int, n: int)
    requires
        distinct_ids(commits),
        0 <= n <= k < commits.len(),
    ensures
        copies_before(commits, commits[k].id, n) == 0,
    decreases n,
{
    if n > 0 {
        lemma_no_copies(commits, k, n - 1);
        assert(commits[n - 1].id != commits[k].id);
    }
}

proof fn lemma_occurrences(ids: Seq<ObjectId>, id: ObjectId, n: int)
    requires
        0 <= n <= ids.len(),
    ensures
        occurrences(ids, id, n) == ids.take(n).filter(|x: ObjectId| x == id).len(),
    decreases n,
{
    let keep = |x: ObjectId| x == id;
    if n > 0 {
        lemma_occurrences(ids, id, n - 1);
        lemma_filter_take(ids, keep, n - 1);
    } else {
        lemma_filter_none(ids, keep);
    }
}

/// The references on a commit lead one to the next, and the last one to the commit.
pub proof fn law_native_references(plan: NativePlan, k: int, p: int, i: int)
    requires
        countable(plan),
        0 <= k < plan.commits.len(),
        is_commit_step(plan.steps(), plan.commits[k].id, p),
        p - plan.commits[k].refs.len() <= i < p,
    ensures
        plan.edges().contains(
            EdgeRecord {
                source: i as usize,
                target: (i + 1) as usize,
                weight: Edge { order: 0 },
            },
        ),
{
    let n = plan.commits.len() as int;
    law_native_commit(plan, k, p);
    lemma_own_index(plan.commits, k);
    let e = EdgeRecord { source: i as usize, target: (i + 1) as usize, weight: Edge { order: 0 } };
    let start = plan.blocks(k).len() as int;
    let own = chain_edges(start, plan.block(k).len() as int);
    assert(own[i - start] == e);
    assert(own.contains(e));
    crate::reach::lemma_add_contains(plan.block_edges(k), own, e);
    lemma_block_edges_stay(plan, k + 1, n, e);
    let (a, b, c) = (
        plan.block_edges(n),
        plan.chains_edges(plan.chains.len() as int),
        plan.commits_edges(n),
    );
    crate::reach::lemma_add_contains(a, b, e);
    crate::reach::lemma_add_contains(a + b, c, e);
}

proof fn lemma_block_edges_stay(plan: NativePlan, k: int, n: int, e: EdgeRecord)
    requires
        0 <= k <= n,
        plan.block_edges(k).contains(e),
    ensures
        plan.block_edges(n).contains(e),
    decreases n - k,
{
    if k < n {
        lemma_block_edges_stay(plan, k, n - 1, e);
        crate::reach::lemma_add_contains(
            plan.block_edges(n - 1),
            chain_edges(plan.blocks(n - 1).len() as int, plan.block(n - 1).len() as int),
            e,
        );
    }
}

/// The references of a chain lead one to the next, and the last one to the topmost reference on the
/// commit that the chain rests on, or to that commit.
pub proof fn law_native_chain(plan: NativePlan, c: int, i: int, j: int, q: int)
    requires
        countable(plan),
        0 <= c < plan.chains.len(),
        0 <= i < plan.chains[c].refs.len(),
        0 <= j < plan.commits.len(),
        plan.chains[c].below == Some(plan.commits[j].id),
        is_commit_step(plan.steps(), plan.commits[j].id, q),
    ensures
        ({
            let start = plan.chain_start(c);
            plan.edges().contains(
                EdgeRecord {
                    source: (start + i) as usize,
                    target: if i + 1 < plan.chains[c].refs.len() {
                        (start + i + 1) as usize
                    } else {
                        (q - plan.commits[j].refs.len()) as usize
                    },
                    weight: Edge { order: 0 },
                },
            )
        }),
{
    let n = plan.commits.len() as int;
    let start = plan.chain_start(c);
    let len = plan.chains[c].refs.len() as int;
    law_native_commit(plan, j, q);
    let e = EdgeRecord {
        source: (start + i) as usize,
        target: if i + 1 < len {
            (start + i + 1) as usize
        } else {
            (q - plan.commits[j].refs.len()) as usize
        },
        weight: Edge { order: 0 },
    };
    let own = plan.resting_edges(c);
    if i + 1 < len {
        assert(own[i] == chain_edges(start, len)[i]);
    }
    assert(own[i] == e);
    assert(own.contains(e));
    crate::reach::lemma_add_contains(plan.chains_edges(c), own, e);
    lemma_chains_edges_stay(plan, c + 1, plan.chains.len() as int, e);
    let (a, b, d) = (
        plan.block_edges(n),
        plan.chains_edges(plan.chains.len() as int),
        plan.commits_edges(n),
    );
    crate::reach::lemma_add_contains(a, b, e);
    crate::reach::lemma_add_contains(a + b, d, e);
}

proof fn lemma_chains_edges_stay(plan: NativePlan, k: int, n: int, e: EdgeRecord)
    requires
        0 <= k <= n,
        plan.chains_edges(k).contains(e),
    ensures
        plan.chains_edges(n).contains(e),
    decreases n - k,
{
    if k < n {
        lemma_chains_edges_stay(plan, k, n - 1, e);
        crate::reach::lemma_add_contains(
            plan.chains_edges(n - 1),
            plan.resting_edges(n - 1),
            e,
        );
    }
}

/// The commits in reach of the entries are the fewest commits that hold the entries and, with a
/// commit, each of its parents that is a commit of the graph and that it is connected with.
pub proof fn law_scope(
    commits: Seq<CommitView>,
    links: Option<Set<(ObjectId, ObjectId)>>,
    entries: Seq<ObjectId>,
    closed: Set<ObjectId>,
    k: int,
    i: int,
)
    requires
        distinct_ids(commits),
        commits.len() <= usize::MAX,
        0 <= k < commits.len(),
        0 <= i < commits[k].parent_ids.len(),
    ensures
        ({
            let scope = scope_of(commits, links, entries);
            let parent = commits[k].parent_ids[i];
            &&& forall|e: ObjectId| #[trigger] entries.contains(e) ==> scope.contains(e)
            &&& scope.contains(commits[k].id) && is_connected_parent(commits, links, k, parent)
                ==> scope.contains(parent)
            &&& (forall|e: ObjectId| #[trigger] entries.contains(e) ==> closed.contains(e)) && (
            forall|l: int, p: ObjectId|
                0 <= l < commits.len() && closed.contains(commits[l].id)
                    && #[trigger] is_connected_parent(commits, links, l, p) ==> closed.contains(p))
                ==> scope.subset_of(closed)
        }),
{
    let next = parent_steps(commits, links);
    let scope = scope_of(commits, links, entries);
    let parent = commits[k].parent_ids[i];
    assert forall|e: ObjectId| #[trigger] entries.contains(e) implies scope.contains(e) by {
        lemma_entry_reachable(next, entries, e);
    }
    if scope.contains(commits[k].id) && is_connected_parent(commits, links, k, parent) {
        lemma_connected_parent(commits, links, k, parent);
        assert(next(commits[k].id).contains(parent));
        lemma_step_reachable(next, entries, commits[k].id, parent);
    }
    if (forall|e: ObjectId| #[trigger] entries.contains(e) ==> closed.contains(e)) && (forall|
        l: int,
        p: ObjectId,
    |
        0 <= l < commits.len() && closed.contains(commits[l].id) && #[trigger] is_connected_parent(
            commits,
            links,
            l,
            p,
        ) ==> closed.contains(p)) {
        assert(closed_under(next, closed)) by {
            assert forall|x: ObjectId, y: ObjectId|
                closed.contains(x) && #[trigger] next(x).contains(y) implies closed.contains(y) by {
                lemma_last_index(commits, x);
                assert(last_index(commits, x) is Some);
                let l = last_index(commits, x)->0 as int;
                lemma_connected_parent(commits, links, l, y);
                assert(is_connected_parent(commits, links, l, y));
            }
        }
        assert forall|x: ObjectId| scope.contains(x) implies closed.contains(x) by {
            lemma_closed_reachable(next, closed, entries, x);
        }
    }
}

/// Whether the commit `parent` of the graph is one of the parents of the commit at `k`, which is
/// connected with it.
pub open spec fn is_connected_parent(
    commits: Seq<CommitView>,
    links: Option<Set<(ObjectId, ObjectId)>>,
    k: int,
    parent: ObjectId,
) -> bool {
    &&& commits[k].parent_ids.contains(parent)
    &&& exists|j: int| 0 <= j < commits.len() && #[trigger] commits[j].id == parent
    &&& links matches Some(set) ==> set.contains((commits[k].id, parent))
}

proof fn lemma_connected_parent(
    commits: Seq<CommitView>,
    links: Option<Set<(ObjectId, ObjectId)>>,
    k: int,
    parent: ObjectId,
)
    requires
        distinct_ids(commits),
        0 <= k < commits.len() <= usize::MAX,
    ensures
        connected_parents(commits, links, commits[k].id).contains(parent) <==> is_connected_parent(
            commits,
            links,
            k,
            parent,
        ),
{
    lemma_own_index(commits, k);
    lemma_last_index(commits, parent);
    lemma_filter_contains(
        commits[k].parent_ids,
        follows(commits, links, commits[k].id),
        parent,
    );
}

/// The commits that the graph is entered at: those that may be changed with their surroundings are
/// that of the entrypoint, or the first one below it, and those of the mutable extra references; those
/// that may not are those of the immutable ones. What is in reach of either is in scope.
pub proof fn law_native_entries(source: NativeSource, id: ObjectId)
    ensures
        source.mutable_entries().contains(id) <==> source.entry() == Some(id) || exists|i: int|
            0 <= i < source.extra_refs@.len() && #[trigger] source.extra_refs@[i].mutability
                == ExtraRefMutability::Mutable && (source.extra_refs@[i].found matches Some((_, c))
                && c == id),
        source.immutable_entries().contains(id) <==> exists|i: int|
            0 <= i < source.extra_refs@.len() && #[trigger] source.extra_refs@[i].mutability
                == ExtraRefMutability::Immutable && (source.extra_refs@[i].found matches Some(
                (_, c),
            ) && c == id),
        source.scope().contains(id) <==> scope_of(
            source.commits(),
            source.links(),
            source.mutable_entries() + source.immutable_entries(),
        ).contains(id),
{
    let extra = source.extra_refs@;
    let n = extra.len() as int;
    lemma_extra_commits(extra, ExtraRefMutability::Mutable, n, id);
    lemma_extra_commits(extra, ExtraRefMutability::Immutable, n, id);
    let more = extra_commits(extra, ExtraRefMutability::Mutable, n);
    crate::reach::lemma_add_contains(opt_list(source.entry()), more, id);
    if source.entry() == Some(id) {
        assert(opt_list(source.entry())[0] == id);
    }
    let next = parent_steps(source.commits(), source.links());
    let (a, b) = (source.mutable_entries(), source.immutable_entries());
    let both = a + b;
    if reachable(next, a, id) {
        lemma_more_entries(next, a, both, a, b, id);
    }
    if reachable(next, b, id) {
        lemma_more_entries(next, b, both, a, b, id);
    }
    if reachable(next, both, id) {
        let path = choose|path: Seq<ObjectId>|
            #![trigger is_path(next, path)]
            is_path(next, path) && both.contains(path[0]) && path.last() == id;
        crate::reach::lemma_add_contains(a, b, path[0]);
        assert(is_path(next, path));
    }
}

proof fn lemma_more_entries(
    next: spec_fn(ObjectId) -> Seq<ObjectId>,
    some: Seq<ObjectId>,
    both: Seq<ObjectId>,
    a: Seq<ObjectId>,
    b: Seq<ObjectId>,
    id: ObjectId,
)
    requires
        some == a || some == b,
        both == a + b,
        reachable(next, some, id),
    ensures
        reachable(next, both, id),
{
    let path = choose|path: Seq<ObjectId>|
        #![trigger is_path(next, path)]
        is_path(next, path) && some.contains(path[0]) && path.last() == id;
    crate::reach::lemma_add_contains(a, b, path[0]);
    assert(is_path(next, path));
}

proof fn lemma_extra_commits(
    extra: Seq<ExtraEntry>,
    mutability: ExtraRefMutability,
    n: int,
    id: ObjectId,
)
    requires
        0 <= n <= extra.len(),
    ensures
        extra_commits(extra, mutability, n).contains(id) <==> exists|i: int|
            0 <= i < n && #[trigger] extra[i].mutability == mutability && (extra[i].found matches
                Some((_, c)) && c == id),
    decreases n,
{
    if n > 0 {
        lemma_extra_commits(extra, mutability, n - 1, id);
        let before = extra_commits(extra, mutability, n - 1);
        if extra[n - 1].found is Some {
            lemma_push_contains(before, (extra[n - 1].found->0).1, id);
        }
        if before.contains(id) {
            let i = choose|i: int|
                0 <= i < n - 1 && #[trigger] extra[i].mutability == mutability && (
                extra[i].found matches Some((_, c)) && c == id);
            assert(extra[i].mutability == mutability);
        }
        if extra_commits(extra, mutability, n).contains(id) && !before.contains(id) {
            assert(extra[n - 1].mutability == mutability);
        }
    }
}

/// The commits of the step graph are those in scope, in the order of the graph.
pub proof fn law_native_commits(source: NativeSource, defaults: PickDefaults, sign: Seq<char>)
    requires
        distinct_ids(source.commits()),
        source.commits().len() <= usize::MAX,
    ensures
        source.plan(defaults, sign).commits == source.commits().filter(
            |c: CommitView| source.scope().contains(c.id),
        ),
        source.plan(defaults, sign).scope == source.scope(),
        source.plan(defaults, sign).workspace_commit_id == source.workspace_commit_id,
{
    let commits = source.commits();
    let keep = commit_in_scope(source.scope());
    let kept = commits.filter(keep);
    assert(keep =~= (|c: CommitView| source.scope().contains(c.id)));
    assert(records(commits, kept) =~= kept) by {
        assert forall|i: int| 0 <= i < kept.len() implies commits[last_index(
            commits,
            kept[i].id,
        )->0 as int] == #[trigger] kept[i] by {
            assert(kept.contains(kept[i]));
            lemma_filter_contains(commits, keep, kept[i]);
            let j = choose|j: int| 0 <= j < commits.len() && commits[j] == kept[i];
            lemma_own_index(commits, j);
        }
    }
}

/// A chain of references is in the step graph exactly if it has references, it rests on a commit in
/// scope, and something leads to it or it has the reference of the entrypoint, where that is on a
/// segment without commits, or an extra reference that is.
pub proof fn law_native_chains(
    source: NativeSource,
    defaults: PickDefaults,
    sign: Seq<char>,
    c: RestingChainView,
)
    ensures
        source.plan(defaults, sign).chains.contains(c) <==> {
            &&& chains_view(source.resting_chains@).contains(c)
            &&& c.refs.len() > 0
            &&& c.below matches Some(b) && source.scope().contains(b)
            &&& c.fed || exists|i: int|
                0 <= i < c.refs.len() && is_required_name(source, #[trigger] c.refs[i])
        },
{
    let keep = chain_counts(source.scope(), source.required());
    lemma_filter_contains(chains_view(source.resting_chains@), keep, c);
    assert forall|name: Seq<u8>| source.required().contains(name) <==> #[trigger] is_required_name(
        source,
        name,
    ) by {
        lemma_resting_names(
            source.graph@,
            source.extra_refs@,
            false,
            source.extra_refs@.len() as int,
            name,
        );
    }
    if exists|i: int| 0 <= i < c.refs.len() && is_required_name(source, #[trigger] c.refs[i]) {
        let i = choose|i: int|
            0 <= i < c.refs.len() && is_required_name(source, #[trigger] c.refs[i]);
        assert(source.required().contains(c.refs[i]));
    }
    if exists|i: int| 0 <= i < c.refs.len() && source.required().contains(#[trigger] c.refs[i]) {
        let i = choose|i: int|
            0 <= i < c.refs.len() && source.required().contains(#[trigger] c.refs[i]);
        assert(is_required_name(source, c.refs[i]));
    }
}

/// Whether it is the name of the segment of the entrypoint, where that has no commits, or that of an
/// extra reference on such a segment.
pub open spec fn is_required_name(source: NativeSource, name: Seq<u8>) -> bool {
    ||| source.entry_segment().commits.len() == 0 && source.entry_segment().name == Some(name)
    ||| exists|i: int|
        0 <= i < source.extra_refs@.len() && #[trigger] source.extra_refs@[i].name@ == name && (
        source.extra_refs@[i].found matches Some((s, _))
            && source.graph@[s as int].commits.len() == 0)
}

proof fn lemma_resting_names(
    segments: Seq<SegmentView>,
    extra: Seq<ExtraEntry>,
    immutable: bool,
    n: int,
    name: Seq<u8>,
)
    requires
        0 <= n <= extra.len(),
    ensures
        resting_names(segments, extra, immutable, n).contains(name) <==> exists|i: int|
            0 <= i < n && #[trigger] extra[i].name@ == name && (extra[i].found matches Some((s, _))
                && segments[s as int].commits.len() == 0) && (immutable ==> extra[i].mutability
                == ExtraRefMutability::Immutable),
    decreases n,
{
    if n > 0 {
        lemma_resting_names(segments, extra, immutable, n - 1, name);
        if resting_names(segments, extra, immutable, n - 1).contains(name) {
            let i = choose|i: int|
                0 <= i < n - 1 && #[trigger] extra[i].name@ == name && (extra[i].found matches Some(
                    (s, _),
                ) && segments[s as int].commits.len() == 0) && (immutable ==> extra[i].mutability
                    == ExtraRefMutability::Immutable);
            assert(extra[i].name@ == name);
        } else if resting_names(segments, extra, immutable, n).contains(name) {
            assert(extra[n - 1].name@ == name);
        }
    }
}

/// A reference may not be moved exactly if it is on a commit in scope that only immutable extra
/// references lead to, or is such an extra reference on a segment without commits.
pub proof fn law_native_immutable_names(source: NativeSource, name: Seq<u8>)
    requires
        distinct_ids(source.commits()),
        source.commits().len() <= usize::MAX,
    ensures
        source.immutable_names().contains(name) <==> {
            ||| exists|k: int|
                0 <= k < source.commits().len() && source.scope().contains(
                    (#[trigger] source.commits()[k]).id,
                ) && !source.mutable_scope().contains(source.commits()[k].id)
                    && source.commits()[k].refs.contains(name)
            ||| exists|i: int|
                0 <= i < source.extra_refs@.len() && #[trigger] source.extra_refs@[i].name@ == name
                    && (source.extra_refs@[i].found matches Some((s, _))
                    && source.graph@[s as int].commits.len() == 0)
                    && source.extra_refs@[i].mutability == ExtraRefMutability::Immutable
        },
{
    let commits = source.commits();
    let scoped = source.scoped();
    let own = source.scope().difference(source.mutable_scope());
    law_native_commits(source, arbitrary(), arbitrary());
    let keep = |c: CommitView| source.scope().contains(c.id);
    assert(scoped == commits.filter(keep)) by {
        let plan = source.plan(arbitrary(), arbitrary());
        assert(plan.commits == scoped);
    }
    lemma_resting_names(
        source.graph@,
        source.extra_refs@,
        true,
        source.extra_refs@.len() as int,
        name,
    );
    if names_on(scoped, own, scoped.len() as int).contains(name) {
        let i = choose|i: int|
            0 <= i < scoped.len() && own.contains(scoped[i].id) && (
            #[trigger] scoped[i]).refs.contains(name);
        assert(scoped.contains(scoped[i]));
        lemma_filter_contains(commits, keep, scoped[i]);
        let k = choose|k: int| 0 <= k < commits.len() && commits[k] == scoped[i];
        assert(commits[k].refs.contains(name));
    }
    if exists|k: int|
        0 <= k < commits.len() && source.scope().contains((#[trigger] commits[k]).id)
            && !source.mutable_scope().contains(commits[k].id) && commits[k].refs.contains(name) {
        let k = choose|k: int|
            0 <= k < commits.len() && source.scope().contains((#[trigger] commits[k]).id)
                && !source.mutable_scope().contains(commits[k].id) && commits[k].refs.contains(
                name,
            );
        assert(commits.contains(commits[k]));
        lemma_filter_contains(commits, keep, commits[k]);
        let i = choose|i: int| 0 <= i < scoped.len() && scoped[i] == commits[k];
        assert(own.contains(scoped[i].id) && scoped[i].refs.contains(name));
    }
}

/// The references of the step graph are the names of those steps that are references, and those that
/// are checked out are the steps with the name of the segment of the entrypoint; both in the order of
/// the steps.
pub proof fn law_native_references_listed(steps: Seq<StepView>, name: Option<Seq<u8>>, n: int)
    requires
        0 <= n <= steps.len() <= usize::MAX,
    ensures
        step_names(steps, n) == steps.take(n).filter(|s: StepView| s is Reference).map_values(
            |s: StepView| s->Reference_0,
        ),
        forall|p: usize| #[trigger]
            steps_named(steps, name, n).contains(p) <==> p < n && (name matches Some(wanted)
                && steps[p as int] == StepView::Reference(wanted)),
        forall|i: int, j: int|
            0 <= i < j < steps_named(steps, name, n).len() ==> (#[trigger] steps_named(
                steps,
                name,
                n,
            )[i]) < (#[trigger] steps_named(steps, name, n)[j]),
    decreases n,
{
    let keep = |s: StepView| s is Reference;
    let own = |s: StepView| s->Reference_0;
    if n > 0 {
        law_native_references_listed(steps, name, n - 1);
        lemma_filter_take(steps, keep, n - 1);
        let before = steps.take(n - 1).filter(keep);
        if steps[n - 1] is Reference {
            assert(before.push(steps[n - 1]).map_values(own) =~= before.map_values(own).push(
                own(steps[n - 1]),
            ));
        }
        let named = steps_named(steps, name, n - 1);
        let all = steps_named(steps, name, n);
        assert forall|p: usize| #[trigger] all.contains(p) <==> p < n && (name matches Some(wanted)
            && steps[p as int] == StepView::Reference(wanted)) by {
            lemma_push_contains(named, (n - 1) as usize, p);
            assert(named.contains(p) <==> p < n - 1 && (name matches Some(wanted)
                && steps[p as int] == StepView::Reference(wanted)));
        }
        assert forall|i: int, j: int| 0 <= i < j < all.len() implies (#[trigger] all[i]) < (
        #[trigger] all[j]) by {
            if j < named.len() {
                assert(all[i] == named[i] && all[j] == named[j]);
            } else {
                assert(named.contains(named[i]));
            }
        }
    } else {
        lemma_filter_none(steps, keep);
        assert(step_names(steps, n) =~= steps.take(n).filter(keep).map_values(own));
    }
}

} // verus!
