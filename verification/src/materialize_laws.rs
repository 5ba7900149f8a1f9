//! What is checked out when a rebase is made real.

use crate::editor_graph::{EditorGraphIndex, EditorView, WALK_LIMIT};
use crate::materialize::{
    checkout_plan, fingerprint, segment_line, segment_lines, shown_name, stack_lines,
    MaterializeError,
};
use crate::names::{id_hex, opt_id_debug, ref_text, ObjectId};
use crate::placements::Checkout;
use crate::stacks::{StackSegmentView, StackView};
use crate::text::join;
use vstd::prelude::*;

verus! {

/// What something stands for is a commit of the graph.
pub proof fn law_resolved_is_a_commit(v: EditorView, ix: EditorGraphIndex)
    ensures
        v.resolve(ix) matches Some(pick) ==> (pick matches EditorGraphIndex::Node(n) && n
            < v.nodes.len() && v.nodes[n as int].pick is Some),
{
    lemma_resolved(v, ix, WALK_LIMIT as nat);
}

proof fn lemma_resolved(v: EditorView, ix: EditorGraphIndex, fuel: nat)
    ensures
        v.resolve_in(ix, fuel) matches Some(pick) ==> (pick matches EditorGraphIndex::Node(n) && n
            < v.nodes.len() && v.nodes[n as int].pick is Some),
    decreases fuel,
{
    if fuel > 0 && !v.is_pick(ix) {
        match v.position(ix) {
            Some(p) => {
                lemma_resolved(v, p.on, (fuel - 1) as nat);
            },
            None => {
                if v.parents(ix).len() > 0 {
                    lemma_resolved(v, v.parents(ix)[0], (fuel - 1) as nat);
                }
            },
        }
    }
}

/// A commit stands for itself.
pub proof fn law_commit_stands_for_itself(v: EditorView, n: usize)
    requires
        n < v.nodes.len(),
        v.nodes[n as int].pick is Some,
    ensures
        v.resolve(EditorGraphIndex::Node(n)) == Some(EditorGraphIndex::Node(n)),
{
}

/// A reference on a commit stands for that commit.
pub proof fn law_reference_stands_for_its_commit(v: EditorView, r: usize, n: usize)
    requires
        r < v.refs.len(),
        v.refs[r as int].position matches Some(p) && p.on == EditorGraphIndex::Node(n),
        n < v.nodes.len(),
        v.nodes[n as int].pick is Some,
    ensures
        v.resolve(EditorGraphIndex::Ref(r)) == Some(EditorGraphIndex::Node(n)),
{
    reveal_with_fuel(EditorView::resolve_in, 3);
}

/// The walk to the commit that something stands for goes on where it got to: from a reference to what
/// it points at, and from what is left of a commit to its first parent, as long as the limit is not
/// reached.
proof fn lemma_resolve_more(v: EditorView, ix: EditorGraphIndex, n: nat, m: nat)
    requires
        n <= m,
        v.resolve_in(ix, n) is Some,
    ensures
        v.resolve_in(ix, m) == v.resolve_in(ix, n),
    decreases n,
{
    if n > 0 && !v.is_pick(ix) {
        match v.position(ix) {
            Some(p) => {
                lemma_resolve_more(v, p.on, (n - 1) as nat, (m - 1) as nat);
            },
            None => {
                if v.parents(ix).len() > 0 {
                    lemma_resolve_more(v, v.parents(ix)[0], (n - 1) as nat, (m - 1) as nat);
                }
            },
        }
    }
}

/// What stands for a commit through something else stands for what that stands for: a reference for
/// what it points at, and what is left of a commit for its first parent.
pub proof fn law_resolved_through(v: EditorView, ix: EditorGraphIndex)
    requires
        v.resolve(ix) is Some,
    ensures
        match ix {
            EditorGraphIndex::Ref(r) => r < v.refs.len() && (v.refs[r as int].position matches Some(p)
                && v.resolve(p.on) == v.resolve(ix)),
            EditorGraphIndex::Node(n) => n < v.nodes.len() && if v.nodes[n as int].pick is Some {
                v.resolve(ix) == Some(ix)
            } else {
                v.nodes[n as int].parents.len() > 0 && v.resolve(v.nodes[n as int].parents[0])
                    == v.resolve(ix)
            },
        },
{
    let fuel = WALK_LIMIT as nat;
    if !v.is_pick(ix) {
        match v.position(ix) {
            Some(p) => {
                lemma_resolve_more(v, p.on, (fuel - 1) as nat, fuel);
            },
            None => {
                if v.parents(ix).len() > 0 {
                    lemma_resolve_more(v, v.parents(ix)[0], (fuel - 1) as nat, fuel);
                }
            },
        }
    }
}

/// The steps follow the first `n` checkouts: each step is at the commit that its checkout selects, which is the
/// commit itself or the one that the reference stands for, with the merge base of the checkout;
/// `HEAD` is not updated by it, and a commit with conflicts may be checked out. Without a failure
/// there is a step for each checkout. A failure is that of the checkout behind the last step: it
/// selects nothing that is there, or a reference that stands for no commit. `HEAD` goes to the
/// reference that the checkout of the last step selects, if that selects one.
pub proof fn law_checkouts(graph: EditorView, checkouts: Seq<Checkout>, n: int)
    requires
        0 <= n <= checkouts.len(),
    ensures
        ({
            let (steps, failure, head) = checkout_plan(graph, checkouts, n);
            &&& steps.len() <= n
            &&& failure is None <==> steps.len() == n
            &&& forall|i: int|
                0 <= i < steps.len() ==> {
                    let Checkout::Head { selector, merge_base_override } = checkouts[i];
                    let step = #[trigger] steps[i];
                    &&& step.options.merge_base_override == merge_base_override
                    &&& step.options.skip_head_update
                    &&& step.options.allow_conflicted_commit_checkout
                    &&& match selector.id {
                        EditorGraphIndex::Node(n) => n < graph.nodes.len()
                            && graph.nodes[n as int].pick is Some && step.new_head
                            == graph.nodes[n as int].pick->0.id,
                        EditorGraphIndex::Ref(r) => r < graph.refs.len()
                            && graph.refs[r as int].live && (graph.resolve(
                            selector.id,
                        ) matches Some(EditorGraphIndex::Node(m)) && m < graph.nodes.len()
                            && graph.nodes[m as int].pick is Some && step.new_head
                            == graph.nodes[m as int].pick->0.id),
                    }
                }
            &&& failure matches Some(e) ==> {
                let Checkout::Head { selector, .. } = checkouts[steps.len() as int];
                match selector.id {
                    EditorGraphIndex::Node(n) => e == MaterializeError::SelectsNothing && !(n
                        < graph.nodes.len() && graph.nodes[n as int].pick is Some),
                    EditorGraphIndex::Ref(r) => if r < graph.refs.len()
                        && graph.refs[r as int].live {
                        e == MaterializeError::NoCommitToReference && graph.resolve(
                            selector.id,
                        ) is None
                    } else {
                        e == MaterializeError::SelectsNothing
                    },
                }
            }
            &&& steps.len() == 0 ==> head is None
            &&& steps.len() > 0 ==> {
                let Checkout::Head { selector, .. } = checkouts[steps.len() - 1];
                match selector.id {
                    EditorGraphIndex::Node(_) => head is None,
                    EditorGraphIndex::Ref(r) => head == Some(graph.refs[r as int].name),
                }
            }
        }),
    decreases n,
{
    if n > 0 {
        law_checkouts(graph, checkouts, n - 1);
        let Checkout::Head { selector, .. } = checkouts[n - 1];
        law_resolved_is_a_commit(graph, selector.id);
    }
}

proof fn lemma_cancel_back(x: Seq<char>, y: Seq<char>, back: Seq<char>)
    requires
        x + back == y + back,
    ensures
        x == y,
{
    let (a, b) = (x + back, y + back);
    assert(a.len() == x.len() + back.len() && b.len() == y.len() + back.len());
    assert(x =~= a.take(x.len() as int));
    assert(y =~= b.take(y.len() as int));
}

proof fn lemma_cancel_front(front: Seq<char>, x: Seq<char>, y: Seq<char>)
    requires
        front + x == front + y,
    ensures
        x == y,
{
    assert(x =~= (front + x).skip(front.len() as int));
    assert(y =~= (front + y).skip(front.len() as int));
}

proof fn lemma_segment_lines_tell(
    a: Seq<StackSegmentView>,
    b: Seq<StackSegmentView>,
    t: int,
    n: int,
)
    requires
        a.len() == b.len(),
        0 <= t < n <= a.len(),
        forall|j: int| 0 <= j < a.len() && j != t ==> #[trigger] a[j] == b[j],
        segment_lines(a, n) == segment_lines(b, n),
    ensures
        segment_line(a[t]) == segment_line(b[t]),
    decreases n,
{
    if t < n - 1 {
        assert(a[n - 1] == b[n - 1]);
        lemma_cancel_back(
            segment_lines(a, n - 1),
            segment_lines(b, n - 1),
            segment_line(a[n - 1]),
        );
        lemma_segment_lines_tell(a, b, t, n - 1);
    } else {
        lemma_same_segment_lines(a, b, n - 1);
        lemma_cancel_front(segment_lines(a, t), segment_line(a[t]), segment_line(b[t]));
    }
}

proof fn lemma_same_segment_lines(a: Seq<StackSegmentView>, b: Seq<StackSegmentView>, n: int)
    requires
        n <= a.len() == b.len(),
        forall|j: int| 0 <= j < n ==> #[trigger] a[j] == b[j],
    ensures
        segment_lines(a, n) == segment_lines(b, n),
    decreases n,
{
    if n > 0 {
        lemma_same_segment_lines(a, b, n - 1);
        assert(a[n - 1] == b[n - 1]);
    }
}

proof fn lemma_fingerprint_tells(a: Seq<StackView>, b: Seq<StackView>, s: int, n: int)
    requires
        a.len() == b.len(),
        0 <= s < n <= a.len(),
        forall|i: int| 0 <= i < a.len() && i != s ==> #[trigger] a[i] == b[i],
        fingerprint(a, n) == fingerprint(b, n),
    ensures
        stack_lines(a[s]) == stack_lines(b[s]),
    decreases n,
{
    if s < n - 1 {
        assert(a[n - 1] == b[n - 1]);
        lemma_cancel_back(fingerprint(a, n - 1), fingerprint(b, n - 1), stack_lines(a[n - 1]));
        lemma_fingerprint_tells(a, b, s, n - 1);
    } else {
        lemma_same_fingerprint(a, b, n - 1);
        lemma_cancel_front(fingerprint(a, s), stack_lines(a[s]), stack_lines(b[s]));
    }
}

proof fn lemma_same_fingerprint(a: Seq<StackView>, b: Seq<StackView>, n: int)
    requires
        n <= a.len() == b.len(),
        forall|i: int| 0 <= i < n ==> #[trigger] a[i] == b[i],
    ensures
        fingerprint(a, n) == fingerprint(b, n),
    decreases n,
{
    if n > 0 {
        lemma_same_fingerprint(a, b, n - 1);
        assert(a[n - 1] == b[n - 1]);
    }
}

/// Projections that differ in one thing of one segment do not have the same fingerprint: in a name,
/// in the base, or in the commits, where these are shown differently.
pub proof fn law_fingerprint_tells_segments(
    a: Seq<StackView>,
    b: Seq<StackView>,
    s: int,
    t: int,
)
    requires
        a.len() == b.len(),
        0 <= s < a.len(),
        forall|i: int| 0 <= i < a.len() && i != s ==> #[trigger] a[i] == b[i],
        a[s].id == b[s].id,
        a[s].segments.len() == b[s].segments.len(),
        0 <= t < a[s].segments.len(),
        forall|j: int|
            0 <= j < a[s].segments.len() && j != t ==> #[trigger] a[s].segments[j]
                == b[s].segments[j],
        ({
            let (x, y) = (a[s].segments[t], b[s].segments[t]);
            ||| x.base == y.base && x.commits == y.commits && x.name is Some && y.name is Some
                && ref_text(x.name->0) != ref_text(y.name->0)
            ||| x.name == y.name && x.commits == y.commits && opt_id_debug(x.base)
                != opt_id_debug(y.base)
            ||| x.name == y.name && x.base == y.base && join(
                x.commits.map_values(|id: ObjectId| id_hex(id)),
                ", "@,
            ) != join(y.commits.map_values(|id: ObjectId| id_hex(id)), ", "@)
        }),
    ensures
        fingerprint(a, a.len() as int) != fingerprint(b, b.len() as int),
{
    if fingerprint(a, a.len() as int) == fingerprint(b, b.len() as int) {
        lemma_fingerprint_tells(a, b, s, a.len() as int);
        let (sa, sb) = (a[s].segments, b[s].segments);
        let n = sa.len() as int;
        lemma_cancel_front(
            "stack "@ + a[s].id + "\n"@,
            segment_lines(sa, n),
            segment_lines(sb, n),
        );
        lemma_segment_lines_tell(sa, sb, t, n);
        let (x, y) = (sa[t], sb[t]);
        let (jx, jy) = (
            join(x.commits.map_values(|id: ObjectId| id_hex(id)), ", "@),
            join(y.commits.map_values(|id: ObjectId| id_hex(id)), ", "@),
        );
        let (nx, ny) = (shown_name(x.name), shown_name(y.name));
        let (bx, by) = (opt_id_debug(x.base), opt_id_debug(y.base));
        let tail = |j: Seq<char>| " commits=["@ + j + "]\n"@;
        assert(segment_line(x) =~= "  "@ + nx + (" base="@ + bx + tail(jx)));
        assert(segment_line(y) =~= "  "@ + ny + (" base="@ + by + tail(jy)));
        if x.base == y.base && x.commits == y.commits {
            lemma_cancel_back("  "@ + nx, "  "@ + ny, " base="@ + bx + tail(jx));
            lemma_cancel_front("  "@, nx, ny);
        }
        if x.name == y.name {
            lemma_cancel_front("  "@ + nx, " base="@ + bx + tail(jx), " base="@ + by + tail(jy));
            if x.commits == y.commits {
                lemma_cancel_back(" base="@ + bx, " base="@ + by, tail(jx));
                lemma_cancel_front(" base="@, bx, by);
            } else if x.base == y.base {
                lemma_cancel_front(" base="@ + bx, tail(jx), tail(jy));
                lemma_cancel_back(" commits=["@ + jx, " commits=["@ + jy, "]\n"@);
                lemma_cancel_front(" commits=["@, jx, jy);
            }
        }
    }
}

} // verus!
