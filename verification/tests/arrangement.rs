use but_graph::arrangement::{
    carry_stack_above, land_stack_above, move_ref, place_ref, readopt_dangling_refs, repoint_ref,
    settle_chain_lower, splice_out, split_chain, transfer_stack, unhook_ref, SplitBoundary,
    StackSlot,
};
use but_graph::collections::SortedSet;
use but_graph::editor_graph::{EditorGraph, EditorGraphIndex, RefPosition};
use but_graph::names::{ObjectId, RefName};
use but_graph::position_checks::{
    census_stale_statements, debug_assert_below_wellformed, debug_assert_positions_total,
    BelowFault,
};
use but_graph::positions::{
    apply_chain_join, chain_members, legs_into_pick, prepare_chain_join, ref_approach, ref_depth,
    refs_reachable_with, refs_resolving_to, reposition_refs, resolve_to_pick,
};
use but_graph::step::{Pick, PickSettings, Step};

fn pick(b: u8) -> Pick {
    Pick {
        id: ObjectId { hi: b as u128, lo: 0 },
        settings: PickSettings {
            pick_mode: "IfChanged".to_string(),
            sign_commit: "No".to_string(),
            exclude_from_tracking: false,
            conflictable: true,
            tree_merge_mode: "Merge".to_string(),
        },
        preserved_parents: None,
        mutable: true,
    }
}

fn reference(graph: &mut EditorGraph, short: &str) -> EditorGraphIndex {
    let name = RefName::new(format!("refs/heads/{}", short).into_bytes()).unwrap();
    graph.add_reference(name, true)
}

fn commits(graph: &mut EditorGraph, count: u8) -> Vec<EditorGraphIndex> {
    (0..count).map(|b| graph.add_node(pick(b))).collect()
}

fn at(on: EditorGraphIndex, below: Option<EditorGraphIndex>, ambiguous: bool) -> RefPosition {
    RefPosition { on, below, ambiguous }
}

/// One commit with a child, another one with a child, and a chain of two references on the first.
fn chain() -> (EditorGraph, Vec<EditorGraphIndex>, EditorGraphIndex, EditorGraphIndex) {
    let mut graph = EditorGraph::new();
    let n = commits(&mut graph, 4);
    graph.push_parent(n[2], n[0]);
    graph.push_parent(n[3], n[1]);
    let low = reference(&mut graph, "low");
    let high = reference(&mut graph, "high");
    place_ref(&mut graph, low, StackSlot::Bottom(n[0]));
    place_ref(&mut graph, high, StackSlot::Above(low));
    (graph, n, low, high)
}

#[test]
fn references_are_placed_by_intent() {
    let mut graph = EditorGraph::new();
    let n = commits(&mut graph, 3);
    graph.push_parent(n[1], n[0]);
    graph.push_parent(n[2], n[0]);
    let both = vec![(n[1], 0usize), (n[2], 0usize)];
    assert_eq!(legs_into_pick(&graph, n[0]), both);

    let root = reference(&mut graph, "root");
    place_ref(&mut graph, root, StackSlot::Root(n[0]));
    assert_eq!(graph.position_of(root), Some(at(n[0], None, false)));
    assert_eq!(ref_approach(&graph, root), vec![]);

    let bottom = reference(&mut graph, "bottom");
    place_ref(&mut graph, bottom, StackSlot::Bottom(n[0]));
    assert_eq!(graph.position_of(bottom), Some(at(n[0], None, true)));
    assert_eq!(graph.position_of(root), Some(at(n[0], Some(bottom), false)));
    assert_eq!(ref_approach(&graph, bottom), both);

    let above = reference(&mut graph, "above");
    place_ref(&mut graph, above, StackSlot::Above(bottom));
    assert_eq!(graph.position_of(above), Some(at(n[0], Some(bottom), true)));
    assert_eq!(ref_approach(&graph, above), both);
    assert_eq!(graph.position_of(root), Some(at(n[0], Some(bottom), false)));

    let between = reference(&mut graph, "between");
    place_ref(&mut graph, between, StackSlot::Above(bottom));
    assert_eq!(graph.position_of(above), Some(at(n[0], Some(between), true)));
    assert_eq!(ref_depth(&graph, above), 2);

    let below = reference(&mut graph, "below");
    place_ref(&mut graph, below, StackSlot::Below(bottom));
    assert_eq!(graph.position_of(below), Some(at(n[0], None, true)));
    assert_eq!(graph.position_of(bottom), Some(at(n[0], Some(below), true)));
    assert_eq!(ref_depth(&graph, above), 3);
    assert_eq!(
        chain_members(&graph, above).iter().map(|m| m.0).collect::<Vec<_>>(),
        vec![bottom, above, between, below]
    );

    let nowhere = reference(&mut graph, "nowhere");
    let late = reference(&mut graph, "late");
    place_ref(&mut graph, late, StackSlot::Above(nowhere));
    assert_eq!(graph.position_of(late), None);
}

#[test]
fn a_lane_is_stacked_from_its_top() {
    let mut graph = EditorGraph::new();
    let n = commits(&mut graph, 3);
    graph.push_parent(n[1], n[0]);
    graph.push_parent(n[2], n[0]);
    let first = reference(&mut graph, "first");
    let second = reference(&mut graph, "second");
    let other = reference(&mut graph, "other");
    place_ref(&mut graph, first, StackSlot::LaneTop { pick: n[0], leg: (n[1], 0) });
    place_ref(&mut graph, second, StackSlot::LaneTop { pick: n[0], leg: (n[1], 0) });
    place_ref(&mut graph, other, StackSlot::LaneTop { pick: n[0], leg: (n[2], 0) });
    assert_eq!(graph.position_of(first), Some(at(n[0], None, false)));
    assert_eq!(graph.position_of(second), Some(at(n[0], Some(first), false)));
    assert_eq!(graph.position_of(other), Some(at(n[0], None, false)));
    assert_eq!(ref_approach(&graph, second), vec![(n[1], 0)]);
    assert_eq!(ref_approach(&graph, other), vec![(n[2], 0)]);
    assert!(debug_assert_positions_total(&graph).collision.is_none());
}

#[test]
fn the_legs_of_a_moved_reference_follow_it() {
    let (mut graph, n, low, high) = chain();
    move_ref(&mut graph, low, StackSlot::Bottom(n[1]));
    // The leg came along, and what sat on the reference closed the gap.
    assert_eq!(graph.parents(n[2]), vec![n[1]]);
    assert_eq!(graph.position_of(low), Some(at(n[1], None, false)));
    assert_eq!(ref_approach(&graph, low), vec![(n[2], 0)]);
    assert_eq!(graph.position_of(high), Some(at(n[0], None, false)));
    assert_eq!(ref_approach(&graph, high), vec![]);
}

#[test]
fn the_legs_stay_where_another_reference_carries_them() {
    let (mut graph, n, low, high) = chain();
    move_ref(&mut graph, high, StackSlot::Root(n[1]));
    assert_eq!(graph.parents(n[2]), vec![n[0]]);
    assert_eq!(graph.position_of(high), Some(at(n[1], None, false)));
    assert_eq!(ref_approach(&graph, high), vec![]);
    assert_eq!(ref_approach(&graph, low), vec![(n[2], 0)]);
}

#[test]
fn moving_above_a_reference_joins_its_chain() {
    let (mut graph, n, low, _high) = chain();
    let target = reference(&mut graph, "target");
    place_ref(&mut graph, target, StackSlot::Bottom(n[1]));
    move_ref(&mut graph, low, StackSlot::Above(target));
    let both = vec![(n[2], 0), (n[3], 0)];
    assert_eq!(graph.parents(n[2]), vec![n[1]]);
    assert_eq!(graph.position_of(low), Some(at(n[1], Some(target), true)));
    assert_eq!(graph.position_of(target), Some(at(n[1], None, true)));
    assert_eq!(ref_approach(&graph, low), both);
    assert_eq!(ref_approach(&graph, target), both);
}

#[test]
fn a_reference_can_move_underneath_another_one() {
    let (mut graph, n, low, high) = chain();
    move_ref(&mut graph, high, StackSlot::Below(low));
    assert_eq!(graph.position_of(high), Some(at(n[0], None, false)));
    assert_eq!(graph.position_of(low), Some(at(n[0], Some(high), false)));
    assert_eq!(ref_approach(&graph, high), vec![(n[2], 0)]);
    // What is nowhere does not move.
    let nowhere = reference(&mut graph, "nowhere");
    move_ref(&mut graph, nowhere, StackSlot::Root(n[1]));
    assert_eq!(graph.position_of(nowhere), None);
}

#[test]
fn what_is_spliced_out_carries_nothing() {
    let (mut graph, n, low, high) = chain();
    splice_out(&mut graph, low, None);
    assert_eq!(graph.position_of(high), Some(at(n[0], None, false)));
    assert_eq!(graph.position_of(low), Some(at(n[0], None, false)));
}

#[test]
fn a_repointed_reference_takes_its_legs_and_what_it_carries() {
    let (mut graph, n, low, high) = chain();
    let top = reference(&mut graph, "top");
    place_ref(&mut graph, top, StackSlot::Above(high));
    repoint_ref(&mut graph, high, n[1]);
    assert_eq!(graph.parents(n[2]), vec![n[1]]);
    assert_eq!(graph.position_of(high), Some(at(n[1], None, false)));
    assert_eq!(ref_approach(&graph, high), vec![(n[2], 0)]);
    assert_eq!(graph.position_of(top), Some(at(n[1], Some(high), false)));
    // What was underneath is a root now.
    assert_eq!(graph.position_of(low), Some(at(n[0], None, false)));
    assert_eq!(ref_approach(&graph, low), vec![]);

    // At the destination, the reference sits on what has the depth underneath it.
    let (mut graph, n, low, high) = chain();
    let there = reference(&mut graph, "there");
    place_ref(&mut graph, there, StackSlot::Bottom(n[1]));
    repoint_ref(&mut graph, high, n[1]);
    assert_eq!(graph.position_of(high), Some(at(n[1], Some(there), false)));
    assert_eq!(graph.position_of(low), Some(at(n[0], None, false)));

    // One that is nowhere gets a place of its own.
    let fresh = reference(&mut graph, "fresh");
    repoint_ref(&mut graph, fresh, n[0]);
    assert_eq!(graph.position_of(fresh), Some(at(n[0], None, false)));
}

#[test]
fn an_unhooked_reference_is_a_root() {
    let (mut graph, n, low, high) = chain();
    unhook_ref(&mut graph, low, false);
    assert_eq!(graph.position_of(low), Some(at(n[0], None, false)));
    assert_eq!(ref_approach(&graph, low), vec![]);
    assert_eq!(graph.position_of(high), Some(at(n[0], None, false)));
    assert_eq!(ref_approach(&graph, high), vec![(n[2], 0)]);
    assert_eq!(graph.parents(n[2]), vec![n[0]]);

    let (mut graph, n, low, high) = chain();
    unhook_ref(&mut graph, low, true);
    assert_eq!(graph.parents(n[2]), vec![]);
    assert_eq!(ref_approach(&graph, high), vec![]);
}

#[test]
fn legs_are_dropped_from_the_highest_slot_down() {
    let mut graph = EditorGraph::new();
    let n = commits(&mut graph, 3);
    graph.push_parent(n[1], n[0]);
    graph.push_parent(n[1], n[2]);
    graph.push_parent(n[1], n[0]);
    let tip = reference(&mut graph, "tip");
    place_ref(&mut graph, tip, StackSlot::Bottom(n[0]));
    assert_eq!(ref_approach(&graph, tip), vec![(n[1], 0), (n[1], 2)]);
    unhook_ref(&mut graph, tip, true);
    assert_eq!(graph.parents(n[1]), vec![n[2]]);
}

#[test]
fn a_stack_is_transferred_with_its_lead_at_the_bottom() {
    let (mut graph, n, low, high) = chain();
    let top = reference(&mut graph, "top");
    place_ref(&mut graph, top, StackSlot::Above(high));
    transfer_stack(&mut graph, high, n[0], n[1]);
    assert_eq!(graph.position_of(low), Some(at(n[0], None, false)));
    assert_eq!(graph.position_of(high), Some(at(n[1], None, false)));
    assert_eq!(graph.position_of(top), Some(at(n[1], Some(high), false)));
    // The legs come along as soon as they lead there.
    graph.replace_parent(n[2], 0, n[1]);
    assert_eq!(ref_approach(&graph, top), vec![(n[2], 0)]);
}

#[test]
fn the_upper_part_of_a_lane_is_carried() {
    let (mut graph, n, low, high) = chain();
    let top = reference(&mut graph, "top");
    place_ref(&mut graph, top, StackSlot::Above(high));
    carry_stack_above(&mut graph, n[0], &vec![(n[2], 0)], 0, n[1]);
    assert_eq!(graph.position_of(low), Some(at(n[0], None, false)));
    assert_eq!(graph.position_of(high), Some(at(n[1], None, false)));
    assert_eq!(graph.position_of(top), Some(at(n[1], Some(high), false)));
}

#[test]
fn a_stack_lands_above_a_reference() {
    let (mut graph, n, low, high) = chain();
    let top = reference(&mut graph, "top");
    assert!(!land_stack_above(&mut graph, n[0], top, n[1]));
    assert_eq!(graph.position_of(low), Some(at(n[0], None, false)));

    place_ref(&mut graph, top, StackSlot::Bottom(n[1]));
    assert!(land_stack_above(&mut graph, n[0], top, n[1]));
    assert_eq!(graph.position_of(low), Some(at(n[1], Some(top), false)));
    assert_eq!(graph.position_of(high), Some(at(n[1], Some(low), false)));
    assert_eq!(ref_approach(&graph, high), vec![(n[3], 0)]);
    assert_eq!(ref_depth(&graph, high), 2);
}

#[test]
fn references_on_removed_commits_are_adopted() {
    let (mut graph, n, low, high) = chain();
    graph.nodes[0].pick = None;
    assert_eq!(resolve_to_pick(&graph, low), None);
    readopt_dangling_refs(&mut graph, n[1]);
    assert_eq!(graph.position_of(low), Some(at(n[1], None, false)));
    assert_eq!(graph.position_of(high), Some(at(n[1], Some(low), false)));
    assert_eq!(resolve_to_pick(&graph, low), Some(n[1]));
}

#[test]
fn a_chain_is_split_around_a_commit() {
    let (mut graph, n, low, high) = chain();
    let top = reference(&mut graph, "top");
    place_ref(&mut graph, top, StackSlot::Above(high));
    let upper = graph.add_node(pick(9));
    let split = split_chain(&mut graph, high, SplitBoundary::At, upper);
    assert!(split.moved_any);
    assert_eq!(split.lower.iter().map(|m| m.0).collect::<Vec<_>>(), vec![low]);
    assert_eq!(graph.position_of(high), Some(at(upper, None, false)));
    assert_eq!(graph.position_of(top), Some(at(upper, Some(high), false)));
    graph.push_parent(upper, n[0]);
    settle_chain_lower(&mut graph, &split.lower, (upper, 0));
    assert_eq!(graph.position_of(low), Some(at(n[0], None, false)));
    assert_eq!(ref_approach(&graph, low), vec![(upper, 0)]);
}

#[test]
fn the_top_of_a_chain_has_nothing_above_it() {
    let (mut graph, _n, low, high) = chain();
    let upper = graph.add_node(pick(9));
    let split = split_chain(&mut graph, high, SplitBoundary::Above, upper);
    assert!(!split.moved_any);
    assert_eq!(split.lower.iter().map(|m| m.0).collect::<Vec<_>>(), vec![low, high]);
    let nowhere = reference(&mut graph, "nowhere");
    let split = split_chain(&mut graph, nowhere, SplitBoundary::At, upper);
    assert!(!split.moved_any && split.lower.is_empty());
}

#[test]
fn a_stranded_reference_settles_on_what_the_slice_sat_on() {
    let (mut graph, n, low, high) = chain();
    let root = reference(&mut graph, "root");
    graph.set_position(root, n[0], &vec![], false, Some(high));
    let upper = graph.add_node(pick(9));
    split_chain(&mut graph, high, SplitBoundary::At, upper);
    assert_eq!(graph.position_of(root), Some(at(n[0], Some(low), false)));
}

#[test]
fn a_new_leg_enters_a_whole_chain() {
    let (mut graph, n, low, high) = chain();
    let join = prepare_chain_join(&graph, high);
    let child = graph.add_node(pick(9));
    graph.push_parent(child, n[0]);
    apply_chain_join(&mut graph, &join, (child, 0));
    let both = vec![(n[2], 0), (child, 0)];
    assert_eq!(ref_approach(&graph, low), both);
    assert_eq!(ref_approach(&graph, high), both);
    assert_eq!(graph.position_of(high), Some(at(n[0], Some(low), true)));
}

#[test]
fn a_root_is_joined_alone() {
    let (mut graph, n, low, _high) = chain();
    let root = reference(&mut graph, "root");
    place_ref(&mut graph, root, StackSlot::Root(n[0]));
    let join = prepare_chain_join(&graph, root);
    assert_eq!(join.members.len(), 1);
    let child = graph.add_node(pick(9));
    graph.push_parent(child, n[0]);
    apply_chain_join(&mut graph, &join, (child, 0));
    assert_eq!(ref_approach(&graph, root), vec![(child, 0)]);
    assert_eq!(graph.position_of(low), Some(at(n[0], None, false)));
    let nowhere = reference(&mut graph, "nowhere");
    assert!(prepare_chain_join(&graph, nowhere).members.is_empty());
}

#[test]
fn references_follow_to_another_commit() {
    let (mut graph, n, low, high) = chain();
    reposition_refs(&mut graph, n[0], n[1], false);
    assert_eq!(graph.position_of(low), Some(at(n[1], None, false)));
    assert_eq!(graph.position_of(high), Some(at(n[1], Some(low), false)));
    // The chain carries all legs still, which are those of the other commit.
    assert_eq!(ref_approach(&graph, high), vec![(n[3], 0)]);

    let (mut graph, n, low, high) = chain();
    graph.push_parent(n[2], n[1]);
    reposition_refs(&mut graph, n[0], n[1], true);
    assert_eq!(graph.position_of(high), Some(at(n[1], Some(low), false)));
    assert_eq!(ref_approach(&graph, high), vec![]);
    graph.replace_parent(n[2], 0, n[1]);
    assert_eq!(ref_approach(&graph, high), vec![(n[2], 0)]);
}

#[test]
fn references_are_reached_with_their_commit() {
    let (mut graph, n, low, high) = chain();
    assert_eq!(refs_resolving_to(&graph, n[0]), vec![low, high]);
    assert_eq!(refs_resolving_to(&graph, n[1]), vec![]);
    let mut picks = SortedSet::new();
    picks.insert(n[0]);
    assert_eq!(refs_reachable_with(&graph, n[2], &picks), vec![low, high]);
    let none = SortedSet::new();
    // A reference is walked through with its chain below, and not with what is above it.
    assert_eq!(refs_reachable_with(&graph, high, &none), vec![low, high]);
    assert_eq!(refs_reachable_with(&graph, low, &none), vec![low]);
    assert_eq!(refs_reachable_with(&graph, n[2], &none), vec![]);
    // Another node with the same commit counts as well.
    let twin = graph.add_node(pick(0));
    let mut picks = SortedSet::new();
    picks.insert(twin);
    assert_eq!(refs_reachable_with(&graph, n[2], &picks), vec![low, high]);
}

#[test]
fn a_walk_from_a_reference_stays_in_its_chain() {
    let (mut graph, n, low, high) = chain();
    let other = reference(&mut graph, "other");
    graph.set_position(other, n[0], &vec![], false, Some(high));
    let none = SortedSet::new();
    // What is underneath is of another chain.
    assert_eq!(refs_reachable_with(&graph, other, &none), vec![other]);
    // A stack that goes around is gone down once.
    graph.set_below(low, Some(high));
    assert_eq!(refs_reachable_with(&graph, low, &none), vec![low, high]);
}

#[test]
fn positions_are_checked() {
    let (mut graph, n, low, high) = chain();
    let report = debug_assert_positions_total(&graph);
    assert_eq!(report.census.checked, 2);
    assert!(report.census.stale.is_empty());
    assert_eq!(report.below_fault, None);
    assert_eq!(report.collision, None);

    // Two references in one place.
    graph.set_below(high, None);
    assert_eq!(debug_assert_positions_total(&graph).collision, Some((low, high)));

    // A stack that goes around.
    graph.set_below(high, Some(low));
    graph.set_below(low, Some(high));
    assert_eq!(debug_assert_below_wellformed(&graph), Some(BelowFault::Cycle { node: low }));

    // What is underneath is elsewhere, or nowhere.
    graph.set_below(low, None);
    graph.rekey_position(low, n[1]);
    assert_eq!(
        debug_assert_below_wellformed(&graph),
        Some(BelowFault::OtherPick { node: high, below: low })
    );
    let nowhere = reference(&mut graph, "nowhere");
    graph.set_below(high, Some(nowhere));
    assert_eq!(
        debug_assert_below_wellformed(&graph),
        Some(BelowFault::NotPositioned { node: high, below: nowhere })
    );
}

#[test]
fn lanes_that_name_other_legs_are_counted() {
    let mut graph = EditorGraph::new();
    let n = commits(&mut graph, 3);
    graph.push_parent(n[1], n[0]);
    graph.push_parent(n[2], n[0]);
    let tip = reference(&mut graph, "tip");
    place_ref(&mut graph, tip, StackSlot::LaneTop { pick: n[0], leg: (n[1], 0) });
    assert!(census_stale_statements(&graph).stale.is_empty());
    graph.nodes[1].parents = vec![];
    let census = census_stale_statements(&graph);
    assert_eq!(census.checked, 1);
    assert_eq!(census.stale.len(), 1);
    assert_eq!(census.stale[0].key, n[0]);
    assert_eq!(census.stale[0].leg, (n[1], 0));
    assert_eq!(census.stale[0].members, vec![tip]);
    assert_eq!(ref_approach(&graph, tip), vec![]);
}

#[test]
fn indices_resolve_through_what_is_left_of_a_commit() {
    let (mut graph, n, low, high) = chain();
    graph.push_parent(n[0], n[1]);
    graph.nodes[0].pick = None;
    assert_eq!(resolve_to_pick(&graph, high), Some(n[1]));
    assert_eq!(resolve_to_pick(&graph, n[0]), Some(n[1]));
    assert!(matches!(graph.step_view(n[0]), Step::Blank));
    assert!(matches!(graph.step_view(n[1]), Step::Pick(p) if p.id == pick(1).id));
    assert!(matches!(graph.step_view(low), Step::Reference { .. }));
}

#[test]
fn legs_follow_a_reference_that_comes_back() {
    let (mut graph, n, low, high) = chain();
    graph.push_parent(n[3], n[0]);
    let all = vec![(n[2], 0), (n[3], 1)];
    assert_eq!(ref_approach(&graph, high), all);
    repoint_ref(&mut graph, high, n[1]);
    assert_eq!(ref_approach(&graph, high), all);
    assert_eq!(graph.parents(n[3]), vec![n[1], n[1]]);
    assert_eq!(ref_approach(&graph, low), vec![]);
    // Above another reference, both are approached through the legs of both.
    let there = reference(&mut graph, "there");
    place_ref(&mut graph, there, StackSlot::Bottom(n[0]));
    move_ref(&mut graph, high, StackSlot::Above(low));
    assert_eq!(ref_approach(&graph, high), all);
    assert_eq!(ref_approach(&graph, low), all);
    assert_eq!(graph.parents(n[3]), vec![n[1], n[0]]);
}

#[test]
fn a_chain_is_walked_through_once_one_of_its_legs_was_visited() {
    let (graph, n, low, high) = chain();
    let leg = ref_approach(&graph, high)[0];
    let mut picks = SortedSet::new();
    picks.insert(leg.0);
    for parent in graph.parents(leg.0) {
        picks.insert(parent);
    }
    assert_eq!(refs_reachable_with(&graph, leg.0, &picks), vec![low, high]);
    let mut elsewhere = SortedSet::new();
    elsewhere.insert(n[3]);
    elsewhere.insert(n[1]);
    assert_eq!(refs_reachable_with(&graph, n[3], &elsewhere), vec![]);
}
