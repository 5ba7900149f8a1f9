//! What becomes of a stack of references when a part of it moves.

use crate::approach_laws::{
    lemma_approach_leads, lemma_leads, lemma_legs_moved_sound, lemma_listed_more, lemma_put,
    lemma_same_onto, lemma_same_places, lemma_settled_alike, listed_truly,
};
use crate::arrangement::{
    all_different, law_subtree, not_carried, resting_on, rests_before, stranded, subtree, Member,
    SplitBoundary,
};
use crate::arrangement_laws::{
    law_rekey_position, lemma_dangling, lemma_left_in_step, lemma_left_others, lemma_rekeyed_places,
    lemma_with_position,
};
use crate::lane_laws::lemma_entered_keeps;
use crate::lanes::lane_of;
use crate::positions::lemma_kept_placed;
use crate::order::{increasing, lemma_sorted_contains, lemma_sorted_increasing, sorted, Key};
use crate::slot_laws::{
    lemma_approach_distinct, lemma_in_mates, lemma_in_order, lemma_settled_clear,
};
use crate::creation_laws::parents_fit;
use crate::editor_graph::{EditorGraphIndex, EditorLeg, EditorView, RefPosition, WALK_LIMIT};
use crate::seqs::{lemma_filter_contains, lemma_push_contains};
use crate::stacking_laws::{
    lemma_approach_from_picks, lemma_chain_different, lemma_chain_up_to_date, lemma_depth,
    lemma_ground, lemma_kept_up_to_date, lemma_legs_dropped_ground, lemma_legs_moved_ground,
    lemma_listed, lemma_mate_below, lemma_rehung_position, lemma_settled_spots,
    lemma_still_grounded, lemma_taken, lemma_upper_moved, Height,
};
use vstd::prelude::*;

verus! {

/// Whether the list is the reference and all references of this kind that rest on it, directly or on
/// one another: each of them but the first one rests on one before it, none is there twice, and none
/// that rests on one of them is left out.
pub open spec fn is_tower(
    v: EditorView,
    tower: Seq<EditorGraphIndex>,
    lead: EditorGraphIndex,
    kind: spec_fn(EditorGraphIndex) -> bool,
) -> bool {
    &&& tower.len() > 0
    &&& tower[0] == lead
    &&& tower.no_duplicates()
    &&& forall|i: int| 1 <= i < tower.len() ==> kind(#[trigger] tower[i])
    &&& forall|i: int|
        1 <= i < tower.len() ==> exists|k: int|
            0 <= k < i && v.below(#[trigger] tower[i]) == Some(#[trigger] tower[k])
    &&& forall|ix: EditorGraphIndex|
        kind(ix) && (#[trigger] v.below(ix) matches Some(b) && tower.contains(b)) ==> tower.contains(
            ix,
        )
}

/// What rests on a reference of those that are kept is such a list.
proof fn lemma_tower(
    v: EditorView,
    keep: spec_fn(Member) -> bool,
    lead: EditorGraphIndex,
    kind: spec_fn(EditorGraphIndex) -> bool,
)
    requires
        v.fits(),
        forall|ix: EditorGraphIndex|
            kind(ix) <==> (#[trigger] v.position(ix) matches Some(p) && keep((ix, p))),
    ensures
        is_tower(v, subtree(v.placed().filter(keep), lead), lead, kind),
{
    let list = v.placed().filter(keep);
    let tower = subtree(list, lead);
    lemma_kept_up_to_date(v, keep);
    law_subtree(list, lead);
    assert forall|i: int| 1 <= i < tower.len() implies kind(#[trigger] tower[i]) && exists|k: int|
        0 <= k < i && v.below(tower[i]) == Some(#[trigger] tower[k]) by {
        assert(rests_before(list, tower, i));
        let (j, k) = choose|j: int, k: int|
            {
                &&& 0 <= j < list.len()
                &&& 0 <= k < i
                &&& (#[trigger] list[j]).0 == tower[i]
                &&& list[j].1.below == Some(#[trigger] tower[k])
            };
        assert(v.below(list[j].0) == list[j].1.below);
        assert(EditorView::listed(list, tower[i]));
        lemma_listed(v, keep, tower[i]);
        assert(v.position(tower[i]) is Some);
    }
    assert forall|ix: EditorGraphIndex|
        kind(ix) && (#[trigger] v.below(ix) matches Some(b) && tower.contains(
            b,
        )) implies tower.contains(ix) by {
        assert(v.position(ix) is Some);
        lemma_listed(v, keep, ix);
        let j = choose|j: int| 0 <= j < list.len() && (#[trigger] list[j]).0 == ix;
        assert(v.below(list[j].0) == list[j].1.below);
        let b = v.below(ix)->0;
        let k = choose|k: int| 0 <= k < tower.len() && tower[k] == b;
        assert(list[j].1.below == Some(tower[k]));
    }
}

/// When the slice of a stack that a reference leads is transferred, it and what of its lane on the
/// commit rests on it are on the other commit, the lead at the bottom and the others on what they
/// sat on, each approached through those of its legs that lead there. All else stays as it was.
pub proof fn law_transferred(
    v: EditorView,
    lead: EditorGraphIndex,
    source: EditorGraphIndex,
    dest: EditorGraphIndex,
) -> (tower: Seq<EditorGraphIndex>)
    requires
        v.sound(),
        v.position(lead) is Some,
        dest is Node,
    ensures
        is_tower(
            v,
            tower,
            lead,
            |x: EditorGraphIndex| v.seat(x) == Some(source) && v.approach(x) == v.approach(lead),
        ),
        ({
            let after = v.transferred_stack(lead, source, dest);
            &&& after.sound()
            &&& after.nodes == v.nodes
            &&& forall|ix: EditorGraphIndex|
                tower.contains(ix) ==> #[trigger] after.position(ix) == Some(
                    RefPosition {
                        on: dest,
                        below: if ix == lead {
                            None
                        } else {
                            v.below(ix)
                        },
                        ambiguous: v.position(ix)->0.ambiguous,
                    },
                )
            &&& forall|ix: EditorGraphIndex, l: EditorLeg|
                tower.contains(ix) ==> (#[trigger] after.approach(ix).contains(l)
                    <==> v.approach(ix).contains(l) && (v.resolve(dest) matches Some(pick)
                    && v.leads(l, pick)))
            &&& forall|ix: EditorGraphIndex|
                !tower.contains(ix) ==> #[trigger] after.position(ix) == v.position(ix)
            &&& forall|ix: EditorGraphIndex|
                !tower.contains(ix) ==> #[trigger] after.approach(ix) == v.approach(ix)
        }),
{
    let keep = v.lane_on(source, v.approach(lead));
    let kind = |x: EditorGraphIndex|
        v.seat(x) == Some(source) && v.approach(x) == v.approach(lead);
    let tower = subtree(v.placed().filter(keep), lead);
    lemma_tower(v, keep, lead, kind);
    let n = tower.len() as int;
    assert forall|i: int| 0 <= i < n implies v.position(#[trigger] tower[i]) is Some by {
        if i > 0 {
            assert(kind(tower[i]));
        }
    }
    lemma_slice(v, tower, lead, dest, n);
    assert(tower.take(n) =~= tower);
    let after = v.transferred_stack(lead, source, dest);
    assert forall|ix: EditorGraphIndex, l: EditorLeg| tower.contains(ix) implies (
    #[trigger] after.approach(ix).contains(l) <==> v.approach(ix).contains(l) && (v.resolve(
        dest,
    ) matches Some(pick) && v.leads(l, pick))) by {
        let wanted = |x: EditorLeg| v.approach(ix).contains(x);
        assert(after.approach(ix) == v.legs_onto(dest).filter(wanted));
        lemma_filter_contains(v.legs_onto(dest), wanted, l);
        if let Some(pick) = v.resolve(dest) {
            lemma_leads(v, pick, l);
        }
    }
    tower
}

proof fn lemma_slice(
    v: EditorView,
    slice: Seq<EditorGraphIndex>,
    lead: EditorGraphIndex,
    dest: EditorGraphIndex,
    n: int,
)
    requires
        v.sound(),
        dest is Node,
        slice.no_duplicates(),
        0 <= n <= slice.len(),
        forall|i: int| 0 <= i < slice.len() ==> v.position(#[trigger] slice[i]) is Some,
    ensures
        ({
            let w = v.slice_moved(slice, lead, dest, n);
            let moved = slice.take(n);
            &&& w.sound()
            &&& w.nodes == v.nodes
            &&& w.refs.len() == v.refs.len()
            &&& forall|ix: EditorGraphIndex|
                moved.contains(ix) ==> #[trigger] w.position(ix) == Some(
                    RefPosition {
                        on: dest,
                        below: if ix == lead {
                            None
                        } else {
                            v.below(ix)
                        },
                        ambiguous: v.position(ix)->0.ambiguous,
                    },
                )
            &&& forall|ix: EditorGraphIndex|
                moved.contains(ix) ==> #[trigger] w.approach(ix) == v.legs_onto(dest).filter(
                    |l: EditorLeg| v.approach(ix).contains(l),
                )
            &&& forall|ix: EditorGraphIndex|
                !moved.contains(ix) ==> #[trigger] w.position(ix) == v.position(ix)
            &&& forall|ix: EditorGraphIndex|
                !moved.contains(ix) ==> #[trigger] w.approach(ix) == v.approach(ix)
        }),
    decreases n,
{
    if n > 0 {
        lemma_slice(v, slice, lead, dest, n - 1);
        let before = v.slice_moved(slice, lead, dest, n - 1);
        let node = slice[n - 1];
        let earlier = slice.take(n - 1);
        assert(slice.take(n) =~= earlier.push(node));
        assert(!earlier.contains(node));
        assert(before.position(node) == v.position(node));
        assert(before.approach(node) == v.approach(node));
        let stored = v.position(node)->0;
        let below = if node != lead {
            stored.below
        } else {
            None
        };
        lemma_put(before, node, dest, v.approach(node), stored.ambiguous, below);
        lemma_same_onto(v, before, dest);
        assert forall|ix: EditorGraphIndex| #[trigger] slice.take(n).contains(ix)
            <==> earlier.contains(ix) || ix == node by {
            lemma_push_contains(earlier, node, ix);
        }
    }
}

/// Each reference whose commit is gone points at the commit that adopts it, with all else as it was,
/// and no other one changes.
pub proof fn law_readopted(v: EditorView, onto: EditorGraphIndex, ix: EditorGraphIndex)
    requires
        v.fits(),
    ensures
        v.readopted(onto).nodes == v.nodes,
        v.readopted(onto).position(ix) == match v.position(ix) {
            Some(p) => Some(
                if v.resolve(p.on) is None {
                    RefPosition { on: onto, ..p }
                } else {
                    p
                },
            ),
            None => None,
        },
{
    let list = v.placed().filter(v.dangles()).map_values(|m: Member| m.0);
    lemma_rekeyed_places(v, list, onto, list.len() as int, ix);
    assert(list.take(list.len() as int) =~= list);
    lemma_dangling(v, ix);
}

/// When the chain of a reference is split, what of it rests on the reference, and the reference
/// itself if it is to, points at the upper commit. What of this sat on something else is at the
/// bottom there, all else of it sits on what it sat on. Where it was, what rested on a part of it
/// without moving sits on what the part sat on: on the reference if that stays, and else on what was
/// underneath that. All else stays as it was.
#[verifier::rlimit(40)]
pub proof fn law_split(
    v: EditorView,
    at: EditorGraphIndex,
    boundary: SplitBoundary,
    upper: EditorGraphIndex,
) -> (tower: Seq<EditorGraphIndex>)
    requires
        v.fits(),
        v.stacked(),
        v.position(at) is Some,
    ensures
        is_tower(
            v,
            tower,
            at,
            |x: EditorGraphIndex|
                v.position(x) is Some && v.seat(x) == v.seat(at) && v.approach(x) == v.approach(at),
        ),
        ({
            let after = v.split_chain(at, boundary, upper);
            let goes = |x: EditorGraphIndex| tower.contains(x) && (boundary is At || x != at);
            let sat_on = if boundary is At {
                v.below(at)
            } else {
                Some(at)
            };
            &&& after.nodes == v.nodes
            &&& forall|ix: EditorGraphIndex|
                goes(ix) ==> #[trigger] after.place(ix) == Some(upper)
            &&& forall|ix: EditorGraphIndex|
                !goes(ix) ==> #[trigger] after.place(ix) == v.place(ix)
            &&& forall|ix: EditorGraphIndex|
                goes(ix) ==> #[trigger] after.below(ix) == match v.below(ix) {
                    Some(b) => if goes(b) {
                        Some(b)
                    } else {
                        None
                    },
                    None => None,
                }
            &&& forall|ix: EditorGraphIndex|
                !goes(ix) ==> #[trigger] after.below(ix) == match v.below(ix) {
                    Some(b) => if goes(b) {
                        sat_on
                    } else {
                        Some(b)
                    },
                    None => None,
                }
            &&& forall|ix: EditorGraphIndex|
                tower.contains(ix) ==> #[trigger] v.split_off(at, boundary).contains(ix) == goes(ix)
        }),
{
    let keep = |m: Member|
        v.approach(m.0) == v.approach(at) && v.resolve(m.1.on) == v.resolve(v.position(at)->0.on);
    let kind = |x: EditorGraphIndex|
        v.position(x) is Some && v.seat(x) == v.seat(at) && v.approach(x) == v.approach(at);
    let members = v.chain(at);
    let tower = subtree(members, at);
    lemma_tower(v, keep, at, kind);
    lemma_chain_different(v, at);
    let moved = v.split_off(at, boundary);
    let goes = |x: EditorGraphIndex| tower.contains(x) && (boundary is At || x != at);
    assert forall|x: EditorGraphIndex| #[trigger] moved.contains(x) <==> goes(x) by {
        if boundary is Above {
            if moved.contains(x) {
                let i = choose|i: int| 0 <= i < moved.len() && moved[i] == x;
                assert(tower[i + 1] == x);
                assert(tower[0] != tower[i + 1]);
            }
            if goes(x) {
                let i = choose|i: int| 0 <= i < tower.len() && tower[i] == x;
                assert(moved[i - 1] == x);
            }
        }
    }
    let n = members.len() as int;
    let (up, sat_on) = v.upper_moved(members, moved, upper, n);
    assert(members.take(n) =~= members);
    assert forall|x: EditorGraphIndex| goes(x) implies EditorView::listed(members, x) by {
        let i = choose|i: int| 0 <= i < tower.len() && tower[i] == x;
        if i > 0 {
            assert(kind(tower[i]));
            lemma_listed(v, keep, tower[i]);
        }
    }
    if moved.len() > 0 {
        lemma_part_sat(v, at, boundary, upper);
    }
    let left = up.placed().filter(stranded(moved));
    let after = v.split_chain(at, boundary, upper);
    assert forall|ix: EditorGraphIndex|
        (#[trigger] after.place(ix) == if goes(ix) {
            Some(upper)
        } else {
            v.place(ix)
        }) && after.below(ix) == match v.below(ix) {
            Some(b) => if goes(b) {
                if goes(ix) {
                    Some(b)
                } else {
                    sat_on
                }
            } else if goes(ix) {
                None
            } else {
                Some(b)
            },
            None => None,
        } by {
        lemma_upper_moved(v, members, moved, upper, n, ix);
        assert(moved.contains(ix) <==> goes(ix));
        assert(up.fits());
        lemma_rehung_position(up, left, sat_on, ix);
        lemma_listed(up, stranded(moved), ix);
        if let Some(b) = v.below(ix) {
            assert(moved.contains(b) <==> goes(b));
        }
    }
    assert forall|ix: EditorGraphIndex|
        !goes(ix) && (#[trigger] v.below(ix) matches Some(b) && goes(b)) implies sat_on == if boundary is At {
        v.below(at)
    } else {
        Some(at)
    } by {
        assert(moved.contains(v.below(ix)->0));
    }
    assert forall|ix: EditorGraphIndex| !goes(ix) implies #[trigger] after.below(ix) == match v.below(
        ix,
    ) {
        Some(b) => if goes(b) {
            if boundary is At {
                v.below(at)
            } else {
                Some(at)
            }
        } else {
            Some(b)
        },
        None => None,
    } by {
        assert(after.place(ix) == v.place(ix));
        if let Some(b) = v.below(ix) {
            assert(goes(b) ==> moved.contains(b));
        }
    }
    assert forall|ix: EditorGraphIndex| goes(ix) implies #[trigger] after.below(ix) == match v.below(
        ix,
    ) {
        Some(b) => if goes(b) {
            Some(b)
        } else {
            None
        },
        None => None,
    } by {
        assert(after.place(ix) == Some(upper));
    }
    lemma_upper_moved(v, members, moved, upper, n, at);
    tower
}

/// What the part that moves sat on.
spec fn seat_of_part(
    v: EditorView,
    at: EditorGraphIndex,
    boundary: SplitBoundary,
) -> Option<EditorGraphIndex> {
    if boundary is At {
        v.below(at)
    } else {
        Some(at)
    }
}

/// What moves sits on what moves, or else on what the part sat on.
proof fn lemma_boundary(
    v: EditorView,
    at: EditorGraphIndex,
    boundary: SplitBoundary,
    node: EditorGraphIndex,
)
    requires
        v.fits(),
        v.stacked(),
        v.position(at) is Some,
        v.split_off(at, boundary).contains(node),
        forall|x: EditorGraphIndex| #[trigger]
            v.split_off(at, boundary).contains(x) <==> subtree(v.chain(at), at).contains(x) && (
            boundary is At || x != at),
    ensures
        ({
            let moved = v.split_off(at, boundary);
            let inside = v.below(node) matches Some(b) && moved.contains(b);
            &&& !inside ==> v.below(node) == seat_of_part(v, at, boundary)
            &&& v.below(node) == seat_of_part(v, at, boundary) ==> !inside
        }),
{
    let members = v.chain(at);
    let tower = subtree(members, at);
    let moved = v.split_off(at, boundary);
    let height = choose|height: Height| #[trigger] v.rests_truly(height);
    lemma_chain_different(v, at);
    law_subtree(members, at);
    let i = choose|i: int| 0 <= i < tower.len() && tower[i] == node;
    if i > 0 {
        lemma_taken(v, members, at, height, i);
        let k = choose|k: int| 0 <= k < i && v.below(tower[i]) == Some(#[trigger] tower[k]);
        assert(tower.contains(tower[k]));
        assert(moved.contains(tower[k]) <==> tower.contains(tower[k]) && (boundary is At
            || tower[k] != at));
        if boundary is At && v.below(node) == v.below(at) {
            lemma_taken(v, members, at, height, k);
            assert(v.rests_well(at, height));
            assert(height(tower[k]) < height(at));
        }
    } else {
        assert(boundary is At);
        if let Some(b) = v.below(at) {
            assert(v.rests_well(at, height));
            if moved.contains(b) {
                assert(tower.contains(b));
                let k = choose|k: int| 0 <= k < tower.len() && tower[k] == b;
                lemma_taken(v, members, at, height, k);
            }
        }
    }
}

/// What moves sat on what the reference sat on, or on the reference.
proof fn lemma_sat_on(
    v: EditorView,
    at: EditorGraphIndex,
    boundary: SplitBoundary,
    upper: EditorGraphIndex,
    n: int,
)
    requires
        v.fits(),
        v.stacked(),
        v.position(at) is Some,
        0 <= n <= v.chain(at).len(),
        forall|x: EditorGraphIndex| #[trigger]
            v.split_off(at, boundary).contains(x) <==> subtree(v.chain(at), at).contains(x) && (
            boundary is At || x != at),
    ensures
        ({
            let members = v.chain(at);
            let moved = v.split_off(at, boundary);
            let sat_on = v.upper_moved(members, moved, upper, n).1;
            (exists|j: int|
                0 <= j < n && moved.contains((#[trigger] members[j]).0) && v.below(members[j].0)
                    == seat_of_part(v, at, boundary)) ==> sat_on == seat_of_part(v, at, boundary)
        }),
    decreases n,
{
    let members = v.chain(at);
    let moved = v.split_off(at, boundary);
    lemma_chain_different(v, at);
    if n > 0 {
        lemma_sat_on(v, at, boundary, upper, n - 1);
        let (node, member) = members[n - 1];
        assert(v.below(members[n - 1].0) == members[n - 1].1.below);
        if moved.contains(node) {
            lemma_boundary(v, at, boundary, node);
        }
    }
}

/// If anything moves, something of it sat on what the part sat on.
proof fn lemma_part_sat(
    v: EditorView,
    at: EditorGraphIndex,
    boundary: SplitBoundary,
    upper: EditorGraphIndex,
)
    requires
        v.fits(),
        v.stacked(),
        v.position(at) is Some,
        v.split_off(at, boundary).len() > 0,
        forall|x: EditorGraphIndex| #[trigger]
            v.split_off(at, boundary).contains(x) <==> subtree(v.chain(at), at).contains(x) && (
            boundary is At || x != at),
    ensures
        v.upper_moved(
            v.chain(at),
            v.split_off(at, boundary),
            upper,
            v.chain(at).len() as int,
        ).1 == seat_of_part(v, at, boundary),
{
    let members = v.chain(at);
    let tower = subtree(members, at);
    let moved = v.split_off(at, boundary);
    lemma_chain_different(v, at);
    law_subtree(members, at);
    lemma_sat_on(v, at, boundary, upper, members.len() as int);
    if boundary is At {
        let j = choose|j: int| 0 <= j < members.len() && (#[trigger] members[j]).0 == at;
        assert(tower.contains(tower[0]));
        assert(moved.contains(members[j].0));
    } else {
        assert(moved[0] == tower[1]);
        assert(rests_before(members, tower, 1));
        let (j, k) = choose|j: int, k: int|
            {
                &&& 0 <= j < members.len()
                &&& 0 <= k < 1
                &&& (#[trigger] members[j]).0 == tower[1]
                &&& members[j].1.below == Some(#[trigger] tower[k])
            };
        assert(v.below(members[j].0) == members[j].1.below);
        assert(moved.contains(moved[0]));
        assert(moved.contains(members[j].0));
    }
}

/// Where each reference rests on lower ones, a reference has one more underneath than that which is
/// directly underneath it, and none if nothing is.
pub proof fn law_depth(v: EditorView, ix: EditorGraphIndex)
    requires
        v.fits(),
        v.stacked(),
        v.refs.len() <= WALK_LIMIT,
    ensures
        v.depth(ix) == match v.below(ix) {
            Some(b) => v.depth(b) + 1,
            None => 0,
        },
{
    let height = choose|height: Height| #[trigger] v.rests_truly(height);
    assert(v.rises(height)) by {
        assert forall|x: EditorGraphIndex|
            (#[trigger] v.below(x)) is Some implies v.position(v.below(x)->0) is Some && height(
            v.below(x)->0,
        ) < height(x) by {
            assert(v.rests_well(x, height));
        }
    }
    lemma_depth(v, height, ix);
}

/// Where a reference points at another node, all others sit where they sat and are approached as they
/// were.
#[verifier::rlimit(40)]
pub proof fn lemma_rekey_put(v: EditorView, ix: EditorGraphIndex, on: EditorGraphIndex)
    requires
        v.sound(),
        on is Node,
    ensures
        ({
            let after = v.rekey_position(ix, on);
            &&& after.sound()
            &&& after.nodes == v.nodes
            &&& after.refs.len() == v.refs.len()
            &&& after.position(ix) == match v.position(ix) {
                Some(p) => Some(RefPosition { on, ..p }),
                None => None,
            }
            &&& forall|j: EditorGraphIndex| j != ix ==> #[trigger] after.position(j) == v.position(j)
            &&& forall|j: EditorGraphIndex| j != ix ==> #[trigger] after.approach(j) == v.approach(j)
        }),
{
    let after = v.rekey_position(ix, on);
    law_rekey_position(v, ix, on);
    if let Some(stored) = v.position(ix) {
        if stored.on != on {
            let p = RefPosition { on, ..stored };
            lemma_with_position(v, ix, p);
            assert forall|n: EditorGraphIndex| #[trigger] after.position(n) == if n == ix {
                Some(p)
            } else {
                v.position(n)
            } by {
                assert(after.position(n) == v.with_position(ix->Ref_0 as int, p).position(n));
            }
            assert forall|j: EditorGraphIndex|
                #[trigger] after.place(j) == v.place(j) || after.place(j) is Some && after.place(
                    j,
                )->0 is Node by {
                if j != ix {
                    assert(after.position(j) == v.position(j));
                }
            }
            lemma_still_grounded(v, after);
            let (carry, legs) = v.carry_of(ix);
            let left = v.lanes_left(ix);
            lemma_left_in_step(v, ix);
            let gone = |n: EditorGraphIndex|
                if n == ix {
                    None
                } else {
                    v.place(n)
                };
            assert forall|j: EditorGraphIndex| j != ix implies #[trigger] after.approach(j)
                == v.approach(j) by {
                assert(after.position(j) == v.position(j));
                if let Some(q) = v.position(j) {
                    let key = q.on;
                    lemma_left_others(v, ix, j);
                    assert(after.places()(j) == Some(key));
                    lemma_entered_keeps(left, gone, after.places(), ix, on, carry, legs, j, key);
                    lemma_same_onto(v, after, key);
                    let (old_lane, new_lane) = (
                        lane_of(v.lanes, key, j)->0,
                        lane_of(after.lanes, key, j)->0,
                    );
                    assert(old_lane.carry == new_lane.carry && old_lane.legs == new_lane.legs);
                }
            }
        }
    }
}

proof fn lemma_rekeyed_put(
    v: EditorView,
    list: Seq<EditorGraphIndex>,
    on: EditorGraphIndex,
    n: int,
)
    requires
        v.sound(),
        on is Node,
        0 <= n <= list.len(),
    ensures
        ({
            let after = v.rekeyed(list, on, n);
            let moved = list.take(n);
            &&& after.sound()
            &&& after.nodes == v.nodes
            &&& after.refs.len() == v.refs.len()
            &&& forall|j: EditorGraphIndex|
                !moved.contains(j) ==> #[trigger] after.position(j) == v.position(j)
            &&& forall|j: EditorGraphIndex|
                !moved.contains(j) ==> #[trigger] after.approach(j) == v.approach(j)
            &&& forall|j: EditorGraphIndex|
                moved.contains(j) ==> #[trigger] after.position(j) == match v.position(j) {
                    Some(p) => Some(RefPosition { on, ..p }),
                    None => None,
                }
        }),
    decreases n,
{
    if n > 0 {
        lemma_rekeyed_put(v, list, on, n - 1);
        let before = v.rekeyed(list, on, n - 1);
        let node = list[n - 1];
        lemma_rekey_put(before, node, on);
        assert(list.take(n) =~= list.take(n - 1).push(node));
        assert forall|j: EditorGraphIndex| #[trigger] list.take(n).contains(j) <==> list.take(
            n - 1,
        ).contains(j) || j == node by {
            lemma_push_contains(list.take(n - 1), node, j);
        }
    }
}

/// Whether the reference is one that can be underneath: it is another one, sits on the commit, and
/// has one less underneath.
pub open spec fn is_one_less_deep(
    v: EditorView,
    x: EditorGraphIndex,
    node: EditorGraphIndex,
    pick: EditorGraphIndex,
    depth: nat,
) -> bool {
    x != node && v.seat(x) == Some(pick) && v.depth(x) + 1 == depth
}

/// When a reference is pointed at another commit, all that rests on it points there too, on what it
/// sat on. The reference itself sits on the first one there that is one less deep, or at the bottom if
/// there is none. What else sat on its commit, with no legs but those that went with it, stays where it
/// was, approached through nothing. All else sits where it sat.
#[verifier::rlimit(40)]
pub proof fn law_repointed(
    v: EditorView,
    node: EditorGraphIndex,
    onto: EditorGraphIndex,
) -> (tower: Seq<EditorGraphIndex>)
    requires
        v.sound(),
        v.seat(node) is Some,
        v.is_pick(onto),
        v.seat(node) != Some(onto),
    ensures
        is_tower(
            v,
            tower,
            node,
            |x: EditorGraphIndex| v.position(x) is Some && v.is_reference(x),
        ),
        ({
            let after = v.repointed_ref(node, onto);
            let mate = |x: EditorGraphIndex|
                v.seat(x) == v.seat(node) && forall|l: EditorLeg| #[trigger]
                    v.approach(x).contains(l) ==> v.approach(node).contains(l);
            &&& after.position(node) matches Some(p) && p.on == onto && p.ambiguous == v.position(
                node,
            )->0.ambiguous
            &&& match after.below(node) {
                Some(m) => is_one_less_deep(v, m, node, onto, v.depth(node)) && forall|
                    x: EditorGraphIndex,
                | #[trigger]
                    is_one_less_deep(v, x, node, onto, v.depth(node)) ==> m->Ref_0 <= x->Ref_0,
                None => forall|x: EditorGraphIndex|
                    !#[trigger] is_one_less_deep(v, x, node, onto, v.depth(node)),
            }
            &&& forall|ix: EditorGraphIndex|
                ix != node && tower.contains(ix) ==> #[trigger] after.position(ix) == Some(
                    RefPosition { on: onto, ..v.position(ix)->0 },
                )
            &&& forall|ix: EditorGraphIndex|
                !tower.contains(ix) && mate(ix) ==> #[trigger] after.position(ix) == Some(
                    RefPosition { ambiguous: false, ..v.position(ix)->0 },
                )
            &&& forall|ix: EditorGraphIndex|
                !tower.contains(ix) && mate(ix) ==> (#[trigger] after.approach(ix)).len() == 0
            &&& forall|ix: EditorGraphIndex|
                !tower.contains(ix) && !mate(ix) ==> #[trigger] after.position(ix) == v.position(ix)
        }),
{
    let stored = v.position(node)->0;
    let old_pick = v.seat(node)->0;
    let legs = v.approach(node);
    let after = v.repointed_ref(node, onto);
    assert forall|i: int| 0 <= i < legs.len() implies v.leads(#[trigger] legs[i], old_pick) by {
        assert(legs.contains(legs[i]));
        lemma_approach_leads(v, node, legs[i]);
    }
    let moved = v.legs_moved(legs, old_pick, onto, legs.len() as int);
    lemma_legs_moved_sound(v, legs, old_pick, onto);
    lemma_approach_from_picks(v, node);
    lemma_legs_moved_ground(v, legs, old_pick, onto, legs.len() as int);
    assert forall|ix: EditorGraphIndex| #[trigger] moved.position(ix) == v.position(ix) by {}
    assert forall|ix: EditorGraphIndex| #[trigger] moved.below(ix) == v.below(ix) by {
        assert(moved.position(ix) == v.position(ix));
    }
    let kind = |x: EditorGraphIndex| v.position(x) is Some && v.is_reference(x);
    let tower = subtree(moved.live_placed(), node);
    lemma_tower(moved, moved.alive(), node, kind);
    assert(is_tower(v, tower, node, kind)) by {
        assert forall|i: int| 1 <= i < tower.len() implies exists|k: int|
            0 <= k < i && v.below(#[trigger] tower[i]) == Some(#[trigger] tower[k]) by {
            let k = choose|k: int|
                0 <= k < i && moved.below(tower[i]) == Some(#[trigger] tower[k]);
            assert(v.below(tower[i]) == Some(tower[k]));
        }
        assert forall|ix: EditorGraphIndex|
            kind(ix) && (#[trigger] v.below(ix) matches Some(b) && tower.contains(
                b,
            )) implies tower.contains(ix) by {
            assert(moved.below(ix) == v.below(ix));
        }
    }
    let depth = moved.depth(node);
    lemma_same_depth(v, moved, node);
    let below = moved.mate_below(node, onto, depth);
    assert(v.resolve(onto) == Some(onto));
    lemma_ground(v, moved, onto);
    lemma_first_mate(moved, node, onto, onto, depth);
    let mates = moved.left_behind(node, tower);
    lemma_chain_behind(moved, node, tower);
    let settled = moved.settled(mates, Seq::empty(), false, mates.len() as int);
    assert(mates.take(mates.len() as int) =~= mates);
    lemma_settled_alike(moved, mates, Seq::empty(), false, mates.len() as int);
    lemma_chain_up_to_date(moved, node, not_carried(node, tower));
    lemma_settled_spots(moved, mates, Seq::empty(), false, mates.len() as int);
    let rest = tower.skip(1);
    assert(rest.take(tower.len() - 1) =~= rest);
    lemma_rekeyed_put(settled, rest, onto, tower.len() - 1);
    let keyed = settled.rekeyed(rest, onto, tower.len() - 1);
    lemma_put(keyed, node, onto, legs, stored.ambiguous, below);
    assert forall|x: EditorGraphIndex| #[trigger] rest.contains(x) <==> tower.contains(x) && x
        != node by {
        if rest.contains(x) {
            let i = choose|i: int| 0 <= i < rest.len() && rest[i] == x;
            assert(tower[i + 1] == x);
            assert(tower[0] != tower[i + 1]);
        }
        if tower.contains(x) && x != node {
            let i = choose|i: int| 0 <= i < tower.len() && tower[i] == x;
            assert(rest[i - 1] == x);
        }
    }
    assert forall|x: EditorGraphIndex| v.seat(x) == #[trigger] moved.seat(x) by {
        assert(moved.position(x) == v.position(x));
        if let Some(q) = v.position(x) {
            lemma_ground(v, moved, q.on);
        }
    }
    assert forall|x: EditorGraphIndex|
        #![trigger is_one_less_deep(v, x, node, onto, v.depth(node))]
        is_one_less_deep(v, x, node, onto, v.depth(node)) <==> is_one_less_deep(
            moved,
            x,
            node,
            onto,
            depth,
        ) by {
        lemma_same_depth(v, moved, x);
        assert(moved.seat(x) == v.seat(x));
    }
    if let Some(m) = below {
        assert(is_one_less_deep(v, m, node, onto, v.depth(node))) by {
            lemma_same_depth(v, moved, m);
            assert(moved.seat(m) == v.seat(m));
        }
    }
    assert(tower.contains(tower[0]));
    let mate = |x: EditorGraphIndex|
        v.seat(x) == v.seat(node) && forall|l: EditorLeg| #[trigger]
            v.approach(x).contains(l) ==> v.approach(node).contains(l);
    lemma_legs_gone(v, moved, legs, old_pick, node);
    assert(moved.approach(node) =~= Seq::empty()) by {
        if moved.approach(node).len() > 0 {
            assert(moved.approach(node).contains(moved.approach(node)[0]));
        }
    }
    assert forall|ix: EditorGraphIndex|
        ix != node && !tower.contains(ix) implies (EditorView::listed(mates, ix) <==> #[trigger] mate(
        ix,
    )) by {
        assert(moved.position(ix) == v.position(ix));
        assert(moved.seat(ix) == v.seat(ix));
        lemma_chain_listed(moved, node, tower, ix);
        if v.seat(ix) == v.seat(node) {
            lemma_legs_gone(v, moved, legs, old_pick, ix);
            if moved.approach(ix) == Seq::<EditorLeg>::empty() {
                assert forall|l: EditorLeg| #[trigger] v.approach(ix).contains(l) implies legs.contains(
                    l,
                ) by {
                    assert(!moved.approach(ix).contains(l));
                }
            }
            if mate(ix) {
                if moved.approach(ix).len() > 0 {
                    assert(moved.approach(ix).contains(moved.approach(ix)[0]));
                }
                assert(moved.approach(ix) =~= Seq::empty());
            }
        }
    }
    assert forall|ix: EditorGraphIndex| !tower.contains(ix) && mate(ix) implies #[trigger] after.position(
        ix,
    ) == Some(RefPosition { ambiguous: false, ..v.position(ix)->0 }) by {
        assert(EditorView::listed(mates, ix));
        lemma_settled_clear(moved, mates, Seq::empty(), mates.len() as int, ix);
        assert(settled.place(ix) == moved.place(ix));
        assert(moved.position(ix) == v.position(ix));
        assert(keyed.position(ix) == settled.position(ix));
    }
    assert forall|ix: EditorGraphIndex| !tower.contains(ix) && mate(ix) implies (
    #[trigger] after.approach(ix)).len() == 0 by {
        assert(EditorView::listed(mates, ix));
        assert(moved.position(ix) == v.position(ix));
        let none = |l: EditorLeg| Seq::<EditorLeg>::empty().contains(l);
        let onto_legs = moved.legs_onto(v.position(ix)->0.on);
        assert(settled.approach(ix) == onto_legs.filter(none));
        if onto_legs.filter(none).len() > 0 {
            assert(onto_legs.filter(none).contains(onto_legs.filter(none)[0]));
            lemma_filter_contains(onto_legs, none, onto_legs.filter(none)[0]);
        }
        assert(keyed.approach(ix) == settled.approach(ix));
    }
    tower
}

proof fn lemma_same_depth(v: EditorView, w: EditorView, node: EditorGraphIndex)
    requires
        forall|ix: EditorGraphIndex| #[trigger] w.below(ix) == v.below(ix),
    ensures
        w.depth(node) == v.depth(node),
{
    assert(w.below(node) == v.below(node));
    lemma_same_depth_from(v, w, v.below(node), 0);
}

proof fn lemma_same_depth_from(
    v: EditorView,
    w: EditorView,
    cursor: Option<EditorGraphIndex>,
    depth: nat,
)
    requires
        forall|ix: EditorGraphIndex| #[trigger] w.below(ix) == v.below(ix),
    ensures
        w.depth_from(cursor, depth) == v.depth_from(cursor, depth),
    decreases WALK_LIMIT + 1 - depth,
{
    if let Some(b) = cursor {
        assert(w.below(b) == v.below(b));
        if depth + 1 <= WALK_LIMIT {
            lemma_same_depth_from(v, w, v.below(b), depth + 1);
        }
    }
}

/// The reference that another one comes to sit on is the first one that can be underneath.
proof fn lemma_first_mate(
    v: EditorView,
    node: EditorGraphIndex,
    on: EditorGraphIndex,
    pick: EditorGraphIndex,
    depth: nat,
)
    requires
        v.fits(),
        v.resolve(on) == Some(pick),
    ensures
        match v.mate_below(node, on, depth) {
            Some(m) => is_one_less_deep(v, m, node, pick, depth) && forall|x: EditorGraphIndex|
                #[trigger]
                is_one_less_deep(v, x, node, pick, depth) ==> m->Ref_0 <= x->Ref_0,
            None => forall|x: EditorGraphIndex|
                !#[trigger] is_one_less_deep(v, x, node, pick, depth),
        },
{
    let keep = v.one_below(node, pick, depth);
    let list = v.placed().filter(keep);
    lemma_kept_placed(v, keep);
    lemma_in_order(v, keep);
    assert forall|x: EditorGraphIndex| #[trigger] is_one_less_deep(
        v,
        x,
        node,
        pick,
        depth,
    ) implies depth > 0 && list.len() > 0 && list[0].0->Ref_0 <= x->Ref_0 by {
        lemma_listed(v, keep, x);
        let i = choose|i: int| 0 <= i < list.len() && (#[trigger] list[i]).0 == x;
        if i > 0 {
            assert(list[0].0->Ref_0 < list[i].0->Ref_0);
        }
    }
    if depth > 0 && list.len() > 0 {
        assert(v.position(list[0].0) == Some(list[0].1) && keep(list[0]));
    }
}

proof fn lemma_chain_listed(
    v: EditorView,
    node: EditorGraphIndex,
    tower: Seq<EditorGraphIndex>,
    ix: EditorGraphIndex,
)
    requires
        v.fits(),
        v.position(node) is Some,
    ensures
        EditorView::listed(v.left_behind(node, tower), ix) <==> ix != node && !tower.contains(ix)
            && v.position(ix) is Some && v.seat(ix) == v.seat(node) && v.approach(ix) == v.approach(
            node,
        ),
{
    let keep = |m: Member|
        v.approach(m.0) == v.approach(node) && v.resolve(m.1.on) == v.resolve(
            v.position(node)->0.on,
        );
    let chain = v.chain(node);
    let behind = v.left_behind(node, tower);
    lemma_listed(v, keep, ix);
    lemma_kept_placed(v, keep);
    if EditorView::listed(behind, ix) {
        let i = choose|i: int| 0 <= i < behind.len() && (#[trigger] behind[i]).0 == ix;
        assert(behind.contains(behind[i]));
        lemma_filter_contains(chain, not_carried(node, tower), behind[i]);
        let j = choose|j: int| 0 <= j < chain.len() && chain[j] == behind[i];
        assert(chain[j].0 == ix);
        assert(EditorView::listed(chain, ix));
    }
    if ix != node && !tower.contains(ix) && EditorView::listed(chain, ix) {
        let j = choose|j: int| 0 <= j < chain.len() && (#[trigger] chain[j]).0 == ix;
        assert(chain.contains(chain[j]));
        lemma_filter_contains(chain, not_carried(node, tower), chain[j]);
        let i = choose|i: int| 0 <= i < behind.len() && behind[i] == chain[j];
        assert(behind[i].0 == ix);
    }
}

proof fn lemma_chain_behind(v: EditorView, node: EditorGraphIndex, tower: Seq<EditorGraphIndex>)
    requires
        v.fits(),
    ensures
        listed_truly(v, v.left_behind(node, tower)),
{
    if v.position(node) is Some {
        let keep = |m: Member|
            v.approach(m.0) == v.approach(node) && v.resolve(m.1.on) == v.resolve(
                v.position(node)->0.on,
            );
        let chain = v.chain(node);
        let behind = v.left_behind(node, tower);
        lemma_kept_placed(v, keep);
        assert forall|i: int| 0 <= i < behind.len() implies v.position((#[trigger] behind[i]).0)
            == Some(behind[i].1) by {
            assert(behind.contains(behind[i]));
            lemma_filter_contains(chain, not_carried(node, tower), behind[i]);
            let j = choose|j: int| 0 <= j < chain.len() && chain[j] == behind[i];
            assert(v.position(chain[j].0) == Some(chain[j].1));
        }
    } else {
        let behind = v.left_behind(node, tower);
        assert forall|i: int| 0 <= i < behind.len() implies v.position((#[trigger] behind[i]).0)
            == Some(behind[i].1) by {
            assert(behind.contains(behind[i]));
            lemma_filter_contains(v.chain(node), not_carried(node, tower), behind[i]);
        }
    }
}

/// Where legs lead elsewhere, a reference on the commit that they left is approached through the rest
/// of its legs.
proof fn lemma_legs_gone(
    v: EditorView,
    moved: EditorView,
    legs: Seq<EditorLeg>,
    pick: EditorGraphIndex,
    x: EditorGraphIndex,
)
    requires
        v.sound(),
        moved.sound(),
        v.same_ground(moved),
        moved.refs == v.refs,
        moved.lanes == v.lanes,
        v.seat(x) == Some(pick),
        forall|l: EditorLeg| #[trigger]
            moved.leads(l, pick) <==> v.leads(l, pick) && !legs.contains(l),
    ensures
        forall|l: EditorLeg| #[trigger]
            moved.approach(x).contains(l) <==> v.approach(x).contains(l) && !legs.contains(l),
{
    let on = v.position(x)->0.on;
    assert(moved.position(x) == v.position(x));
    lemma_ground(v, moved, on);
    assert forall|l: EditorLeg| #[trigger] moved.approach(x).contains(l) <==> v.approach(x).contains(
        l,
    ) && !legs.contains(l) by {
        lemma_leads(v, pick, l);
        lemma_leads(moved, pick, l);
        assert(moved.leads(l, pick) <==> v.leads(l, pick) && !legs.contains(l));
        if let Some(lane) = lane_of(v.lanes, on, x) {
            let own = |l: EditorLeg| lane.legs.contains(l);
            lemma_filter_contains(v.legs_onto(on), own, l);
            lemma_filter_contains(moved.legs_onto(on), own, l);
        }
    }
}

/// When a reference is unhooked, what of its chain sat on it sits on what it sat on, and all others
/// sit where they sat. Unless its legs are dropped, the others are approached as they were.
pub proof fn law_unhooked(
    v: EditorView,
    node: EditorGraphIndex,
    drop_legs: bool,
    ix: EditorGraphIndex,
)
    requires
        v.sound(),
        v.position(node) is Some,
        ix != node,
    ensures
        ({
            let after = v.unhooked_ref(node, drop_legs);
            &&& after.position(ix) == match v.position(ix) {
                Some(p) => Some(
                    if p.below == Some(node) && v.seat(ix) == v.seat(node) && v.approach(ix)
                        == v.approach(node) {
                        RefPosition { below: v.below(node), ..p }
                    } else {
                        p
                    },
                ),
                None => None,
            }
            &&& !drop_legs ==> after.approach(ix) == v.approach(ix) && after.nodes == v.nodes
        }),
{
    let stored = v.position(node)->0;
    let list = resting_on(v.chain(node), node, node);
    let closed = v.rehung(list, stored.below);
    assert forall|x: EditorGraphIndex| #[trigger] closed.place(x) == v.place(x) by {
        lemma_rehung_position(v, list, stored.below, x);
    }
    lemma_same_places(v, closed);
    lemma_rehung_position(v, list, stored.below, ix);
    lemma_in_mates(v, node, node, ix);
    if drop_legs && closed.resolve(stored.on) is Some {
        let legs = sorted::<EditorLeg>(closed.approach(node));
        assert forall|i: int| 0 <= i < legs.len() implies closed.is_pick((#[trigger] legs[i]).0) by {
            assert(legs.contains(legs[i]));
            lemma_sorted_contains::<EditorLeg>(closed.approach(node), legs[i]);
            let j = choose|j: int| 0 <= j < closed.approach(node).len() && closed.approach(
                node,
            )[j] == legs[i];
            lemma_approach_from_picks(closed, node);
            assert(closed.is_pick(closed.approach(node)[j].0));
        }
        lemma_legs_dropped_ground(closed, legs, closed.resolve(stored.on)->0, 0);
    } else {
        lemma_rehung_position(v, list, stored.below, node);
        lemma_put(closed, node, stored.on, Seq::empty(), false, stored.below);
    }
}

/// The parents at the places that are not among the legs of the commit `x`, in their order.
pub open spec fn parents_left(
    parents: Seq<EditorGraphIndex>,
    x: EditorGraphIndex,
    legs: Seq<EditorLeg>,
    n: int,
) -> Seq<EditorGraphIndex>
    decreases n,
{
    if n <= 0 {
        Seq::empty()
    } else if legs.contains((x, (n - 1) as usize)) {
        parents_left(parents, x, legs, n - 1)
    } else {
        parents_left(parents, x, legs, n - 1).push(parents[n - 1])
    }
}

/// Where the legs of a reference are dropped, each commit has its other parents left, in their order.
pub proof fn law_unhooked_legs(v: EditorView, node: EditorGraphIndex, x: EditorGraphIndex)
    requires
        v.sound(),
        v.seat(node) is Some,
    ensures
        ({
            let after = v.unhooked_ref(node, true);
            after.parents(x) == parents_left(
                v.parents(x),
                x,
                v.approach(node),
                v.parents(x).len() as int,
            )
        }),
{
    let stored = v.position(node)->0;
    let list = resting_on(v.chain(node), node, node);
    let closed = v.rehung(list, stored.below);
    assert forall|y: EditorGraphIndex| #[trigger] closed.place(y) == v.place(y) by {
        lemma_rehung_position(v, list, stored.below, y);
    }
    lemma_same_places(v, closed);
    let pick = v.seat(node)->0;
    let own = closed.approach(node);
    assert(closed.approach(node) == v.approach(node) && closed.seat(node) == v.seat(node));
    lemma_rehung_position(v, list, stored.below, node);
    assert(closed.resolve(stored.on) == Some(pick));
    let legs = sorted::<EditorLeg>(own);
    lemma_approach_distinct(closed, node);
    lemma_sorted_increasing::<EditorLeg>(own);
    assert forall|i: int| 0 <= i < legs.len() implies closed.parent_at(
        (#[trigger] legs[i]).0,
        legs[i].1,
    ) == Some(pick) by {
        assert(legs.contains(legs[i]));
        lemma_sorted_contains::<EditorLeg>(own, legs[i]);
        lemma_approach_leads(closed, node, legs[i]);
    }
    lemma_dropped(closed, legs, pick, 0, x);
    assert(legs.skip(0) =~= legs);
    assert forall|l: EditorLeg| legs.contains(l) <==> v.approach(node).contains(l) by {
        lemma_sorted_contains::<EditorLeg>(own, l);
    }
    lemma_left_alike(v.parents(x), x, legs, v.approach(node), v.parents(x).len() as int);
    let dropped = closed.legs_dropped(legs, pick, 0);
    assert(v.unhooked_ref(node, true).nodes == dropped.nodes);
}

proof fn lemma_left_alike(
    parents: Seq<EditorGraphIndex>,
    x: EditorGraphIndex,
    a: Seq<EditorLeg>,
    b: Seq<EditorLeg>,
    n: int,
)
    requires
        forall|l: EditorLeg| a.contains(l) <==> b.contains(l),
    ensures
        parents_left(parents, x, a, n) == parents_left(parents, x, b, n),
    decreases n,
{
    if n > 0 {
        lemma_left_alike(parents, x, a, b, n - 1);
    }
}

proof fn lemma_dropped(
    v: EditorView,
    legs: Seq<EditorLeg>,
    pick: EditorGraphIndex,
    n: int,
    x: EditorGraphIndex,
)
    requires
        0 <= n <= legs.len(),
        increasing::<EditorLeg>(legs),
        parents_fit(v.nodes),
        forall|i: int|
            0 <= i < legs.len() ==> v.parent_at((#[trigger] legs[i]).0, legs[i].1) == Some(pick),
    ensures
        v.legs_dropped(legs, pick, n).nodes.len() == v.nodes.len(),
        v.legs_dropped(legs, pick, n).parents(x) == parents_left(
            v.parents(x),
            x,
            legs.skip(n),
            v.parents(x).len() as int,
        ),
    decreases legs.len() - n,
{
    let all = v.parents(x);
    if n == legs.len() {
        lemma_all_left(all, x, legs.skip(n), all.len() as int);
        assert(all.take(all.len() as int) =~= all);
    } else {
        lemma_dropped(v, legs, pick, n + 1, x);
        let after = v.legs_dropped(legs, pick, n + 1);
        let (leg, slot) = legs[n];
        assert(v.parent_at(legs[n].0, legs[n].1) == Some(pick));
        let (later, now) = (legs.skip(n + 1), legs.skip(n));
        assert(now =~= seq![legs[n]] + later);
        lemma_dropped(v, legs, pick, n + 1, leg);
        let own = v.parents(leg);
        assert forall|k: usize| k <= slot implies !#[trigger] later.contains((leg, k)) by {
            if later.contains((leg, k)) {
                let i = choose|i: int| 0 <= i < later.len() && later[i] == (leg, k);
                let m = n + 1 + i;
                assert(legs[m] == (leg, k));
                assert(n < m < legs.len());
                lemma_increases::<EditorLeg>(legs, n, m);
            }
        }
        lemma_prefix_left(own, leg, later, slot + 1);
        lemma_prefix_stays(own, leg, later, slot + 1, own.len() as int);
        let left = parents_left(own, leg, later, own.len() as int);
        assert(left[slot as int] == own[slot as int]);
        assert(after.parent_at(leg, slot) == Some(pick));
        assert forall|l: EditorLeg| now.contains(l) <==> later.contains(l) || l == legs[n] by {
            crate::reach::lemma_add_contains(seq![legs[n]], later, l);
            assert(seq![legs[n]][0] == legs[n]);
        }
        if x == leg {
            lemma_one_less(own, leg, later, now, slot, own.len() as int);
        } else {
            lemma_others_left(all, x, later, now, leg, slot, all.len() as int);
        }
    }
}

pub proof fn lemma_increases<K: Key>(s: Seq<K::Model>, i: int, j: int)
    requires
        increasing::<K>(s),
        0 <= i < j < s.len(),
    ensures
        K::lt(s[i], s[j]),
{
}

proof fn lemma_all_left(
    parents: Seq<EditorGraphIndex>,
    x: EditorGraphIndex,
    legs: Seq<EditorLeg>,
    n: int,
)
    requires
        legs.len() == 0,
        0 <= n <= parents.len(),
    ensures
        parents_left(parents, x, legs, n) == parents.take(n),
    decreases n,
{
    if n > 0 {
        lemma_all_left(parents, x, legs, n - 1);
        assert(parents.take(n) =~= parents.take(n - 1).push(parents[n - 1]));
    } else {
        assert(parents.take(n) =~= Seq::empty());
    }
}

proof fn lemma_prefix_left(
    parents: Seq<EditorGraphIndex>,
    x: EditorGraphIndex,
    legs: Seq<EditorLeg>,
    n: int,
)
    requires
        0 <= n <= parents.len(),
        forall|k: usize| k < n ==> !#[trigger] legs.contains((x, k)),
    ensures
        parents_left(parents, x, legs, n) == parents.take(n),
    decreases n,
{
    if n > 0 {
        lemma_prefix_left(parents, x, legs, n - 1);
        assert(parents.take(n) =~= parents.take(n - 1).push(parents[n - 1]));
    } else {
        assert(parents.take(n) =~= Seq::empty());
    }
}

proof fn lemma_prefix_stays(
    parents: Seq<EditorGraphIndex>,
    x: EditorGraphIndex,
    legs: Seq<EditorLeg>,
    m: int,
    n: int,
)
    requires
        0 <= m <= n,
    ensures
        parents_left(parents, x, legs, m).len() <= parents_left(parents, x, legs, n).len(),
        forall|i: int|
            0 <= i < parents_left(parents, x, legs, m).len() ==> #[trigger] parents_left(
                parents,
                x,
                legs,
                n,
            )[i] == parents_left(parents, x, legs, m)[i],
    decreases n - m,
{
    if m < n {
        lemma_prefix_stays(parents, x, legs, m, n - 1);
        let (a, b, c) = (
            parents_left(parents, x, legs, m),
            parents_left(parents, x, legs, n - 1),
            parents_left(parents, x, legs, n),
        );
        assert forall|i: int| 0 <= i < a.len() implies #[trigger] c[i] == a[i] by {
            assert(b[i] == a[i]);
        }
    }
}

proof fn lemma_one_less(
    parents: Seq<EditorGraphIndex>,
    x: EditorGraphIndex,
    later: Seq<EditorLeg>,
    now: Seq<EditorLeg>,
    slot: usize,
    n: int,
)
    requires
        slot < n <= parents.len() <= usize::MAX + 1,
        forall|k: usize| k <= slot ==> !#[trigger] later.contains((x, k)),
        forall|l: EditorLeg| now.contains(l) <==> later.contains(l) || l == (x, slot),
    ensures
        parents_left(parents, x, later, n).len() > slot,
        parents_left(parents, x, now, n) == parents_left(parents, x, later, n).remove(slot as int),
    decreases n,
{
    let (a, b) = (parents_left(parents, x, later, n), parents_left(parents, x, now, n));
    if n == slot + 1 {
        lemma_prefix_left(parents, x, later, n);
        assert forall|k: usize| k < slot implies !#[trigger] now.contains((x, k)) by {
            assert(!later.contains((x, k)));
        }
        lemma_prefix_left(parents, x, now, slot as int);
        assert(b =~= a.remove(slot as int));
    } else {
        lemma_one_less(parents, x, later, now, slot, n - 1);
        assert((n - 1) as usize != slot);
        let before = parents_left(parents, x, later, n - 1);
        if !later.contains((x, (n - 1) as usize)) {
            assert(before.push(parents[n - 1]).remove(slot as int) =~= before.remove(
                slot as int,
            ).push(parents[n - 1]));
        }
    }
}

proof fn lemma_others_left(
    parents: Seq<EditorGraphIndex>,
    x: EditorGraphIndex,
    later: Seq<EditorLeg>,
    now: Seq<EditorLeg>,
    leg: EditorGraphIndex,
    slot: usize,
    n: int,
)
    requires
        x != leg,
        forall|l: EditorLeg| now.contains(l) <==> later.contains(l) || l == (leg, slot),
    ensures
        parents_left(parents, x, now, n) == parents_left(parents, x, later, n),
    decreases n,
{
    if n > 0 {
        lemma_others_left(parents, x, later, now, leg, slot, n - 1);
    }
}

/// Whether the reference is of the lane on the commit, with more than so many underneath.
pub open spec fn is_above_depth(
    v: EditorView,
    source: EditorGraphIndex,
    lane: Seq<EditorLeg>,
    depth: nat,
    x: EditorGraphIndex,
) -> bool {
    v.seat(x) == Some(source) && v.approach(x) == lane && v.depth(x) > depth
}

/// When the part of a lane above a depth is carried, each reference of it points at the other node, on
/// what it sat on if that is carried too. All others sit where they sat, and are approached as they
/// were.
pub proof fn law_carried(
    v: EditorView,
    source: EditorGraphIndex,
    lane: Seq<EditorLeg>,
    depth: nat,
    dest: EditorGraphIndex,
    ix: EditorGraphIndex,
)
    requires
        v.sound(),
        dest is Node,
    ensures
        ({
            let after = v.carried_stack(source, lane, depth, dest);
            let goes = |x: EditorGraphIndex| is_above_depth(v, source, lane, depth, x);
            &&& after.nodes == v.nodes
            &&& !goes(ix) ==> after.position(ix) == v.position(ix) && after.approach(ix)
                == v.approach(ix)
            &&& goes(ix) ==> (after.position(ix) matches Some(p) && p.on == dest && p.ambiguous
                == v.position(ix)->0.ambiguous)
            &&& goes(ix) && (v.below(ix) matches Some(b) ==> goes(b)) ==> after.below(ix)
                == v.below(ix)
            &&& goes(ix) && (v.below(ix) matches Some(b) && !goes(b)) ==> (after.below(ix) matches
                Some(m) ==> m != ix && after.seat(m) == v.resolve(dest))
        }),
{
    let keep = v.higher_in_lane(source, lane, depth);
    let moves = v.placed().filter(keep).map_values(|m: Member| m.0);
    let n = moves.len() as int;
    lemma_moves(v, source, lane, depth, ix);
    assert(moves.take(n) =~= moves);
    lemma_rekeyed_put(v, moves, dest, n);
    let keyed = v.rekeyed(moves, dest, n);
    lemma_landed_at(keyed, moves, dest, n, ix);
    let after = v.carried_stack(source, lane, depth, dest);
    assert forall|x: EditorGraphIndex| #[trigger] after.place(x) == keyed.place(x) by {
        lemma_landed_at(keyed, moves, dest, n, x);
    }
    lemma_same_places(keyed, after);
    assert(after.approach(ix) == keyed.approach(ix));
    lemma_same_onto(v, keyed, dest);
    if let Some(b) = v.below(ix) {
        lemma_moves(v, source, lane, depth, b);
    }
    if let Some(m) = after.below(ix) {
        assert(after.place(m) == keyed.place(m));
        assert(after.seat(m) == keyed.seat(m));
    }
}

/// The bottom of what is carried, where it is the only one that sat on something left behind, sits on
/// the first reference on the other commit that is one less deep, or at the bottom if there is none.
#[verifier::rlimit(40)]
pub proof fn law_carried_bottom(
    v: EditorView,
    source: EditorGraphIndex,
    lane: Seq<EditorLeg>,
    depth: nat,
    dest: EditorGraphIndex,
    ix: EditorGraphIndex,
)
    requires
        v.sound(),
        v.is_pick(dest),
        is_above_depth(v, source, lane, depth, ix),
        v.below(ix) matches Some(b) && !is_above_depth(v, source, lane, depth, b),
        forall|x: EditorGraphIndex|
            x != ix && is_above_depth(v, source, lane, depth, x) ==> (#[trigger] v.below(x) matches
                Some(b) ==> is_above_depth(v, source, lane, depth, b)),
    ensures
        ({
            let after = v.carried_stack(source, lane, depth, dest);
            let fits = |x: EditorGraphIndex|
                x != ix && (v.seat(x) == Some(dest) || is_above_depth(v, source, lane, depth, x))
                    && v.depth(x) + 1 == v.depth(ix);
            match after.below(ix) {
                Some(m) => fits(m) && forall|x: EditorGraphIndex| #[trigger]
                    fits(x) ==> m->Ref_0 <= x->Ref_0,
                None => forall|x: EditorGraphIndex| !#[trigger] fits(x),
            }
        }),
{
    let keep = v.higher_in_lane(source, lane, depth);
    let moves = v.placed().filter(keep).map_values(|m: Member| m.0);
    let n = moves.len() as int;
    assert forall|x: EditorGraphIndex| #[trigger] moves.contains(x) <==> is_above_depth(
        v,
        source,
        lane,
        depth,
        x,
    ) by {
        lemma_moves(v, source, lane, depth, x);
    }
    assert(moves.take(n) =~= moves);
    lemma_rekeyed_put(v, moves, dest, n);
    let keyed = v.rekeyed(moves, dest, n);
    assert forall|x: EditorGraphIndex| #[trigger] keyed.below(x) == v.below(x) by {
        assert(moves.contains(x) || !moves.contains(x));
        assert(keyed.position(x) == v.position(x) || keyed.position(x) is Some);
    }
    assert(moves.contains(ix));
    let at = choose|at: int| 0 <= at < n && moves[at] == ix;
    lemma_kept_up_to_date(v, keep);
    assert(moves.no_duplicates()) by {
        let list = v.placed().filter(keep);
        assert forall|i: int, j: int|
            0 <= i < moves.len() && 0 <= j < moves.len() && i != j implies moves[i] != moves[j] by {
            assert(list[i].0 == moves[i] && list[j].0 == moves[j]);
        }
    }
    lemma_landed_once(keyed, moves, dest, at, at);
    let before = keyed.landed(moves, dest, at);
    assert(before == keyed);
    lemma_landed_once(keyed, moves, dest, at, n);
    lemma_same_depth(v, keyed, ix);
    assert(v.resolve(dest) == Some(dest));
    lemma_same_onto(v, keyed, dest);
    lemma_first_mate(keyed, ix, dest, dest, v.depth(ix));
    let fits = |x: EditorGraphIndex|
        x != ix && (v.seat(x) == Some(dest) || is_above_depth(v, source, lane, depth, x))
            && v.depth(x) + 1 == v.depth(ix);
    assert forall|x: EditorGraphIndex| #[trigger] fits(x) <==> is_one_less_deep(
        keyed,
        x,
        ix,
        dest,
        v.depth(ix),
    ) by {
        lemma_same_depth(v, keyed, x);
        assert(moves.contains(x) <==> is_above_depth(v, source, lane, depth, x));
        if moves.contains(x) {
            assert(keyed.place(x) == Some(dest));
        } else {
            assert(keyed.position(x) == v.position(x));
            if let Some(q) = v.position(x) {
                lemma_same_onto(v, keyed, q.on);
            }
        }
    }
    let after = v.carried_stack(source, lane, depth, dest);
    assert(after.below(ix) == keyed.mate_below(ix, dest, v.depth(ix)));
    if let Some(m) = after.below(ix) {
        assert(fits(m));
        assert forall|x: EditorGraphIndex| #[trigger] fits(x) implies m->Ref_0 <= x->Ref_0 by {
            assert(is_one_less_deep(keyed, x, ix, dest, v.depth(ix)));
        }
    }
}

proof fn lemma_moves(
    v: EditorView,
    source: EditorGraphIndex,
    lane: Seq<EditorLeg>,
    depth: nat,
    ix: EditorGraphIndex,
)
    requires
        v.fits(),
    ensures
        v.placed().filter(v.higher_in_lane(source, lane, depth)).map_values(
            |m: Member| m.0,
        ).contains(ix) <==> is_above_depth(v, source, lane, depth, ix),
{
    let keep = v.higher_in_lane(source, lane, depth);
    let list = v.placed().filter(keep);
    let moves = list.map_values(|m: Member| m.0);
    lemma_listed(v, keep, ix);
    if moves.contains(ix) {
        let i = choose|i: int| 0 <= i < moves.len() && moves[i] == ix;
        assert(list[i].0 == ix);
    }
    if EditorView::listed(list, ix) {
        let i = choose|i: int| 0 <= i < list.len() && (#[trigger] list[i]).0 == ix;
        assert(moves[i] == ix);
    }
}

proof fn lemma_landed_at(
    v: EditorView,
    moves: Seq<EditorGraphIndex>,
    dest: EditorGraphIndex,
    n: int,
    ix: EditorGraphIndex,
)
    requires
        v.sound(),
        dest is Node,
        0 <= n <= moves.len(),
    ensures
        ({
            let w = v.landed(moves, dest, n);
            let inside = v.below(ix) matches Some(b) && !moves.contains(b);
            &&& w.nodes == v.nodes
            &&& w.lanes == v.lanes
            &&& w.refs.len() == v.refs.len()
            &&& w.place(ix) == v.place(ix)
            &&& v.position(ix) matches Some(p) ==> w.position(ix) == Some(
                RefPosition { below: w.below(ix), ..p },
            )
            &&& !(moves.take(n).contains(ix) && inside) ==> w.position(ix) == v.position(ix)
            &&& moves.take(n).contains(ix) && inside ==> (w.below(ix) matches Some(m) ==> m != ix
                && v.seat(m) == v.resolve(dest))
        }),
    decreases n,
{
    if n > 0 {
        lemma_landed_at(v, moves, dest, n - 1, ix);
        let before = v.landed(moves, dest, n - 1);
        let node = moves[n - 1];
        assert(moves.take(n) =~= moves.take(n - 1).push(node));
        lemma_push_contains(moves.take(n - 1), node, ix);
        if node == ix && before.below(ix) is Some && !moves.contains(before.below(ix)->0) {
            lemma_mate_below(before, ix, dest, before.depth(ix));
            if let Some(m) = before.mate_below(ix, dest, before.depth(ix)) {
                lemma_landed_at(v, moves, dest, n - 1, m);
                assert forall|x: EditorGraphIndex| #[trigger] before.place(x) == v.place(x) by {
                    lemma_landed_at(v, moves, dest, n - 1, x);
                }
                lemma_same_places(v, before);
                assert(before.seat(m) == v.seat(m));
                lemma_same_onto(v, before, dest);
            }
        }
        if node != ix {
            assert(v.landed(moves, dest, n).position(ix) == before.position(ix));
        }
    }
}

/// Where only the one at `at` sat on something left behind, only that one comes to sit elsewhere.
proof fn lemma_landed_once(
    v: EditorView,
    moves: Seq<EditorGraphIndex>,
    dest: EditorGraphIndex,
    at: int,
    n: int,
)
    requires
        0 <= at < moves.len(),
        0 <= n <= moves.len(),
        v.fits(),
        moves.no_duplicates(),
        v.below(moves[at]) matches Some(b) && !moves.contains(b),
        forall|x: EditorGraphIndex|
            x != moves[at] && moves.contains(x) ==> (#[trigger] v.below(x) matches Some(b)
                ==> moves.contains(b)),
    ensures
        n <= at ==> v.landed(moves, dest, n) == v,
        n > at ==> v.landed(moves, dest, n).below(moves[at]) == v.mate_below(
            moves[at],
            dest,
            v.depth(moves[at]),
        ),
        n > at ==> forall|x: EditorGraphIndex|
            x != moves[at] ==> #[trigger] v.landed(moves, dest, n).below(x) == v.below(x),
    decreases n,
{
    if n > 0 {
        lemma_landed_once(v, moves, dest, at, n - 1);
        let before = v.landed(moves, dest, n - 1);
        let node = moves[n - 1];
        assert(moves.contains(node));
        if n - 1 != at {
            assert(node != moves[at]);
            assert(before.below(node) == v.below(node));
        } else {
            assert(before == v);
        }
    }
}

/// When all that is on a commit lands above a reference, it points at the bridge, is approached through
/// all legs into that, and is ambiguous if these are more than one; what sat on something still does.
/// The reference stays where it is, and is approached through those of these legs that lead to its
/// commit. All others stay as they were.
#[verifier::rlimit(40)]
pub proof fn law_landed(
    v: EditorView,
    source: EditorGraphIndex,
    top: EditorGraphIndex,
    bridge: EditorGraphIndex,
    ix: EditorGraphIndex,
)
    requires
        v.sound(),
        v.seat(top) is Some,
        v.seat(top) != Some(source),
        v.is_pick(bridge),
    ensures
        ({
            let after = v.landed_stack(source, top, bridge);
            let many = v.legs_into(bridge).len() > 1;
            &&& after.sound()
            &&& after.nodes == v.nodes
            &&& after.position(top) == Some(
                RefPosition { ambiguous: many, ..v.position(top)->0 },
            )
            &&& forall|l: EditorLeg| #[trigger]
                after.approach(top).contains(l) <==> v.leads(l, bridge) && v.leads(
                    l,
                    v.seat(top)->0,
                )
            &&& v.seat(ix) == Some(source) ==> {
                &&& after.position(ix) matches Some(p) && p.on == bridge && p.ambiguous == many && (
                v.below(ix) is Some ==> p.below == v.below(ix))
                &&& forall|l: EditorLeg| #[trigger]
                    after.approach(ix).contains(l) <==> v.leads(l, bridge)
            }
            &&& ix != top && v.seat(ix) != Some(source) ==> after.position(ix) == v.position(ix)
                && after.approach(ix) == v.approach(ix)
        }),
{
    let stored = v.position(top)->0;
    let legs = v.legs_into(bridge);
    let many = legs.len() > 1;
    let put = v.set_position(top, stored.on, legs, many, stored.below);
    lemma_put(v, top, stored.on, legs, many, stored.below);
    let moves = put.seated(source);
    let depths = moves.map_values(|m: Member| put.depth(m.0));
    let n = moves.len() as int;
    let keep = |m: Member| put.resolve(m.1.on) == Some(source);
    lemma_kept_placed(put, keep);
    lemma_kept_up_to_date(put, keep);
    assert(moves.take(n) =~= moves);
    assert forall|x: EditorGraphIndex| #[trigger] EditorView::listed(moves, x) <==> v.seat(x)
        == Some(source) by {
        lemma_listed(put, keep, x);
        if let Some(p) = put.position(x) {
            lemma_same_onto(v, put, p.on);
        }
        if x != top {
            assert(put.position(x) == v.position(x));
        }
    }
    lemma_bridged_put(put, moves, depths, v.depth(top), bridge, legs, n);
    let after = v.landed_stack(source, top, bridge);
    lemma_same_onto(v, put, bridge);
    assert(v.resolve(bridge) == Some(bridge));
    assert(!EditorView::listed(moves, top));
    let wanted = |l: EditorLeg| legs.contains(l);
    assert forall|l: EditorLeg| #[trigger] after.approach(top).contains(l) <==> v.leads(l, bridge)
        && v.leads(l, v.seat(top)->0) by {
        assert(after.approach(top) == v.legs_onto(stored.on).filter(wanted));
        lemma_filter_contains(v.legs_onto(stored.on), wanted, l);
        lemma_leads(v, bridge, l);
        lemma_leads(v, v.seat(top)->0, l);
    }
    assert(EditorView::listed(moves, ix) <==> v.seat(ix) == Some(source));
    if v.seat(ix) == Some(source) {
        assert(put.position(ix) == v.position(ix));
        assert forall|l: EditorLeg| #[trigger] after.approach(ix).contains(l) <==> v.leads(
            l,
            bridge,
        ) by {
            assert(after.approach(ix) == put.legs_onto(bridge).filter(wanted));
            lemma_filter_contains(put.legs_onto(bridge), wanted, l);
            lemma_leads(v, bridge, l);
        }
    } else if ix != top {
        assert(put.position(ix) == v.position(ix));
        assert(put.approach(ix) == v.approach(ix));
    }
}

proof fn lemma_bridged_put(
    v: EditorView,
    moves: Seq<Member>,
    depths: Seq<nat>,
    top_depth: nat,
    on: EditorGraphIndex,
    bridge: Seq<EditorLeg>,
    n: int,
)
    requires
        v.sound(),
        on is Node,
        listed_truly(v, moves),
        all_different(moves),
        0 <= n <= moves.len(),
    ensures
        ({
            let w = v.bridged(moves, depths, top_depth, on, bridge, n);
            let many = bridge.len() > 1;
            &&& w.sound()
            &&& w.nodes == v.nodes
            &&& w.refs.len() == v.refs.len()
            &&& forall|x: EditorGraphIndex|
                !EditorView::listed(moves.take(n), x) ==> #[trigger] w.position(x) == v.position(x)
            &&& forall|x: EditorGraphIndex|
                !EditorView::listed(moves.take(n), x) ==> #[trigger] w.approach(x) == v.approach(x)
            &&& forall|x: EditorGraphIndex|
                EditorView::listed(moves.take(n), x) ==> (#[trigger] w.position(x) matches Some(p)
                    && p.on == on && p.ambiguous == many && (v.below(x) is Some ==> p.below
                    == v.below(x)))
            &&& forall|x: EditorGraphIndex|
                EditorView::listed(moves.take(n), x) ==> #[trigger] w.approach(x) == v.legs_onto(
                    on,
                ).filter(|l: EditorLeg| bridge.contains(l))
        }),
    decreases n,
{
    if n > 0 {
        lemma_bridged_put(v, moves, depths, top_depth, on, bridge, n - 1);
        let before = v.bridged(moves, depths, top_depth, on, bridge, n - 1);
        let (node, stored) = moves[n - 1];
        assert(v.position(moves[n - 1].0) == Some(stored));
        let below = match stored.below {
            Some(b) => Some(b),
            None => before.mate_below(node, on, depths[n - 1] + top_depth + 1),
        };
        lemma_put(before, node, on, bridge, bridge.len() > 1, below);
        lemma_same_onto(v, before, on);
        assert forall|x: EditorGraphIndex| #[trigger] EditorView::listed(moves.take(n), x)
            <==> EditorView::listed(moves.take(n - 1), x) || x == node by {
            lemma_listed_more(moves, n, x);
        }
    }
}

/// What sat on the commit itself, where there is one such reference, lands on the first one on the
/// bridge that has as many underneath as the reference above which it lands, if there is one there.
#[verifier::rlimit(40)]
pub proof fn law_landed_bottom(
    v: EditorView,
    source: EditorGraphIndex,
    top: EditorGraphIndex,
    bridge: EditorGraphIndex,
    ix: EditorGraphIndex,
)
    requires
        v.sound(),
        v.seat(top) == Some(bridge),
        bridge != source,
        v.is_pick(bridge),
        v.seat(ix) == Some(source),
        v.below(ix) is None,
        forall|x: EditorGraphIndex|
            x != ix && v.seat(x) == Some(source) ==> #[trigger] v.below(x) is Some,
    ensures
        ({
            let after = v.landed_stack(source, top, bridge);
            after.below(ix) matches Some(m) && m != ix && v.depth(m) == v.depth(top) && (v.seat(m)
                == Some(bridge) || v.seat(m) == Some(source)) && m->Ref_0 <= top->Ref_0
        }),
{
    let stored = v.position(top)->0;
    let legs = v.legs_into(bridge);
    let many = legs.len() > 1;
    let put = v.set_position(top, stored.on, legs, many, stored.below);
    lemma_put(v, top, stored.on, legs, many, stored.below);
    let moves = put.seated(source);
    let depths = moves.map_values(|m: Member| put.depth(m.0));
    let n = moves.len() as int;
    let keep = |m: Member| put.resolve(m.1.on) == Some(source);
    lemma_kept_placed(put, keep);
    lemma_kept_up_to_date(put, keep);
    assert forall|x: EditorGraphIndex| #[trigger] put.below(x) == v.below(x) by {
        if x != top {
            assert(put.position(x) == v.position(x));
        }
    }
    assert forall|x: EditorGraphIndex| #[trigger] put.seat(x) == v.seat(x) by {
        if x != top {
            assert(put.position(x) == v.position(x));
        }
        if let Some(p) = put.position(x) {
            lemma_same_onto(v, put, p.on);
        }
    }
    assert(put.seat(ix) == v.seat(ix));
    lemma_listed(put, keep, ix);
    let at = choose|at: int| 0 <= at < n && (#[trigger] moves[at]).0 == ix;
    assert forall|i: int| 0 <= i < n && i != at implies (#[trigger] moves[i]).1.below is Some by {
        assert(put.position(moves[i].0) == Some(moves[i].1));
        assert(put.seat(moves[i].0) == v.seat(moves[i].0));
        assert(put.below(moves[i].0) == v.below(moves[i].0));
        if moves[i].0 == ix {
            assert(moves[at].0 == moves[i].0);
        }
    }
    assert(put.position(moves[at].0) == Some(moves[at].1));
    assert(put.below(ix) == v.below(ix));
    lemma_bridged_put(put, moves, depths, v.depth(top), bridge, legs, at);
    lemma_bridged_once(put, moves, depths, v.depth(top), bridge, legs, at, n);
    let before = put.bridged(moves, depths, v.depth(top), bridge, legs, at);
    lemma_bridged_before(put, moves, depths, v.depth(top), bridge, legs, at);
    assert forall|x: EditorGraphIndex| #[trigger] before.below(x) == v.below(x) by {
        assert(before.below(x) == put.below(x));
        assert(put.below(x) == v.below(x));
    }
    assert(put.depth(ix) == 0);
    assert(depths[at] == 0);
    lemma_same_onto(v, put, bridge);
    lemma_same_onto(put, before, bridge);
    assert(v.resolve(bridge) == Some(bridge));
    let wanted = (0 + v.depth(top) + 1) as nat;
    lemma_first_mate(before, ix, bridge, bridge, wanted);
    lemma_same_depth(v, before, top);
    assert(is_one_less_deep(before, top, ix, bridge, wanted)) by {
        assert(put.seat(top) == v.seat(top));
        if EditorView::listed(moves.take(at), top) {
            let i = choose|i: int| 0 <= i < moves.take(at).len() && (#[trigger] moves.take(
                at,
            )[i]).0 == top;
            assert(moves[i].0 == top);
            assert(put.position(moves[i].0) == Some(moves[i].1));
        }
        assert(before.position(top) == put.position(top));
        lemma_same_onto(put, before, stored.on);
    }
    let m = before.mate_below(ix, bridge, wanted)->0;
    assert(is_one_less_deep(before, m, ix, bridge, wanted));
    lemma_same_depth(v, before, m);
    if EditorView::listed(moves.take(at), m) {
        let i = choose|i: int| 0 <= i < moves.take(at).len() && (#[trigger] moves.take(at)[i]).0
            == m;
        assert(moves[i].0 == m);
        assert(put.position(moves[i].0) == Some(moves[i].1));
        assert(put.seat(m) == v.seat(m));
    } else {
        assert(before.position(m) == put.position(m));
        assert(put.seat(m) == v.seat(m));
        if let Some(q) = put.position(m) {
            lemma_same_onto(put, before, q.on);
        }
    }
}

/// Up to the first that sat on the commit itself, all sit on what they sat on.
proof fn lemma_bridged_before(
    v: EditorView,
    moves: Seq<Member>,
    depths: Seq<nat>,
    top_depth: nat,
    on: EditorGraphIndex,
    bridge: Seq<EditorLeg>,
    n: int,
)
    requires
        v.fits(),
        listed_truly(v, moves),
        0 <= n <= moves.len(),
        forall|i: int| 0 <= i < n ==> (#[trigger] moves[i]).1.below is Some,
    ensures
        v.bridged(moves, depths, top_depth, on, bridge, n).refs.len() == v.refs.len(),
        forall|x: EditorGraphIndex| #[trigger]
            v.bridged(moves, depths, top_depth, on, bridge, n).below(x) == v.below(x),
    decreases n,
{
    if n > 0 {
        lemma_bridged_before(v, moves, depths, top_depth, on, bridge, n - 1);
        let before = v.bridged(moves, depths, top_depth, on, bridge, n - 1);
        let after = v.bridged(moves, depths, top_depth, on, bridge, n);
        assert(v.position(moves[n - 1].0) == Some(moves[n - 1].1));
        assert forall|x: EditorGraphIndex| #[trigger] after.below(x) == v.below(x) by {
            assert(before.below(x) == v.below(x));
        }
    }
}

proof fn lemma_bridged_once(
    v: EditorView,
    moves: Seq<Member>,
    depths: Seq<nat>,
    top_depth: nat,
    on: EditorGraphIndex,
    bridge: Seq<EditorLeg>,
    at: int,
    n: int,
)
    requires
        v.fits(),
        listed_truly(v, moves),
        all_different(moves),
        0 <= at < n <= moves.len(),
        moves[at].1.below is None,
        v.bridged(moves, depths, top_depth, on, bridge, at).refs.len() == v.refs.len(),
    ensures
        v.bridged(moves, depths, top_depth, on, bridge, n).refs.len() == v.refs.len(),
        v.bridged(moves, depths, top_depth, on, bridge, n).below(moves[at].0) == v.bridged(
            moves,
            depths,
            top_depth,
            on,
            bridge,
            at,
        ).mate_below(moves[at].0, on, depths[at] + top_depth + 1),
    decreases n,
{
    assert(v.position(moves[at].0) == Some(moves[at].1));
    if n - 1 > at {
        lemma_bridged_once(v, moves, depths, top_depth, on, bridge, at, n - 1);
        assert(moves[n - 1].0 != moves[at].0);
        assert(v.position(moves[n - 1].0) == Some(moves[n - 1].1));
    }
}

} // verus!
