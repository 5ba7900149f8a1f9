//! What comes of a creation: when there is none, and what there is otherwise.

use crate::commit::{names_view, CommitView};
use crate::created_laws::{law_created_checkouts, law_created_commit, law_initial_references};
use crate::creation::{
    created, creates, creates_editor, CreationError, Editor, EditorError, PickDefaults,
    Surroundings, WorkspaceGraph,
};
use crate::derivation::{first_unknown, DeriveError, ExtraRef};
use crate::editor_graph::EditorGraphIndex;
use crate::generation_laws::distinct_ids;
use crate::names::ObjectId;
use crate::native_creation::{first_not_found, ExtraEntry};
use crate::placements::{Checkout, Creation, PlacementsView};
use vstd::prelude::*;

verus! {

/// The extra reference that is reported is the first of those that are in no segment; none is reported
/// exactly if there are none.
pub proof fn law_first_unknown(extra: Seq<ExtraRef>, n: int)
    requires
        0 <= n <= extra.len(),
    ensures
        first_unknown(extra, n) is None <==> forall|i: int|
            0 <= i < n ==> (#[trigger] extra[i]).segment is Some,
        first_unknown(extra, n) matches Some(name) ==> exists|i: int|
            0 <= i < n && (#[trigger] extra[i]).segment is None && extra[i].name@ == name && forall|
                j: int,
            |
                0 <= j < i ==> (#[trigger] extra[j]).segment is Some,
    decreases n,
{
    if n > 0 {
        law_first_unknown(extra, n - 1);
        if first_unknown(extra, n - 1) is None && extra[n - 1].segment is None {
            assert(extra[n - 1].name@ == first_unknown(extra, n)->0);
        }
    }
}

/// The extra reference that is reported is the first of those that were not found; none is reported
/// exactly if there are none.
pub proof fn law_first_not_found(extra: Seq<ExtraEntry>, n: int)
    requires
        0 <= n <= extra.len(),
    ensures
        first_not_found(extra, n) is None <==> forall|i: int|
            0 <= i < n ==> (#[trigger] extra[i]).found is Some,
        first_not_found(extra, n) matches Some(name) ==> exists|i: int|
            0 <= i < n && (#[trigger] extra[i]).found is None && extra[i].name@ == name && forall|
                j: int,
            |
                0 <= j < i ==> (#[trigger] extra[j]).found is Some,
    decreases n,
{
    if n > 0 {
        law_first_not_found(extra, n - 1);
        if first_not_found(extra, n - 1) is None && extra[n - 1].found is None {
            assert(extra[n - 1].name@ == first_not_found(extra, n)->0);
        }
    }
}

/// A creation holds each commit at its index and each reference that may be moved by its name, and has a
/// checkout of each head, of a reference with its name.
pub proof fn law_creation_holds(
    r: Result<Creation, CreationError>,
    commits: Seq<CommitView>,
    defaults: PickDefaults,
    sign: Seq<char>,
    ws: Option<ObjectId>,
    l: PlacementsView,
    i: int,
    name: Seq<u8>,
)
    requires
        creates(r, commits, defaults, sign, ws, l),
        distinct_ids(commits),
        0 <= i < commits.len() <= usize::MAX,
        l.refs.len() <= usize::MAX,
    ensures
        r matches Ok(c) ==> {
            &&& c.graph@.nodes.len() == commits.len()
            &&& c.graph@.nodes[i].pick matches Some(pick) && pick.id == commits[i].id && pick.mutable
                == l.mutable_commits.contains(commits[i].id)
            &&& names_view(c.initial_references@).contains(name) <==> exists|k: int|
                0 <= k < l.refs.len() && (#[trigger] l.refs[k]).mutable && l.refs[k].name == name
            &&& c.checkouts@.len() == l.head_refs.len()
            &&& forall|k: int|
                0 <= k < l.head_refs.len() ==> (#[trigger] c.checkouts@[k] matches Checkout::Head {
                    selector,
                    ..
                } && (selector.id matches EditorGraphIndex::Ref(b) && b < l.refs.len()
                    && l.refs[b as int].name == l.head_refs[k]))
        },
{
    if r is Ok {
        law_created_commit(commits, defaults, sign, ws, l, i);
        law_created_checkouts(l.refs, l.head_refs, l.head_refs.len() as int);
        law_initial_references(l.refs, name);
    }
}

/// There is no editor without an entrypoint, with an extra reference that is in no segment, or without a
/// commit graph, each with its own error, in this order. An editor has what it was created with around
/// it, and each commit of the commit graph at its index.
pub proof fn law_editor_holds<R, H, W, M>(
    r: Result<Editor<R, H, W, M>, EditorError>,
    from: WorkspaceGraph,
    defaults: PickDefaults,
    sign: Seq<char>,
    extra: Seq<ExtraRef>,
    around: Surroundings<R, H, W, M>,
    i: int,
)
    requires
        creates_editor(r, from, defaults, sign, extra, around),
    ensures
        ({
            let known = forall|k: int| 0 <= k < extra.len() ==> (#[trigger] extra[k]).segment is Some;
            &&& (r matches Err(EditorError::Derive(DeriveError::NoEntrypoint)))
                <==> from.segments.entrypoint is None
            &&& (r matches Err(EditorError::Derive(DeriveError::UnknownRef(_))))
                <==> from.segments.entrypoint is Some && !known
            &&& from.segments.entrypoint is Some && known && from.commit_graph is None ==> (r matches
                Err(EditorError::Create(CreationError::NoCommitGraph)))
            &&& r matches Ok(editor) ==> {
                &&& editor.repo == around.repo
                &&& editor.history == around.history
                &&& editor.workspace == around.workspace
                &&& editor.meta == around.meta
                &&& from.commit_graph matches Some(cg) && {
                    &&& editor.graph@.nodes.len() == cg.commits().len()
                    &&& 0 <= i < cg.commits().len() && distinct_ids(cg.commits())
                        && cg.commits().len() <= usize::MAX ==> (
                    editor.graph@.nodes[i].pick matches Some(pick) && pick.id
                        == cg.commits()[i].id && pick.mutable == from.ledger(
                        extra,
                    ).mutable_commits.contains(cg.commits()[i].id))
                }
            }
        }),
{
    law_first_unknown(extra, extra.len() as int);
    if let Some(cg) = from.commit_graph {
        let l = from.ledger(extra);
        if r is Ok && 0 <= i < cg.commits().len() && distinct_ids(cg.commits())
            && cg.commits().len() <= usize::MAX {
            assert(created(cg.commits(), defaults, sign, from.workspace_commit_id, l) is Ok);
            law_created_commit(cg.commits(), defaults, sign, from.workspace_commit_id, l, i);
        }
    }
}

} // verus!
