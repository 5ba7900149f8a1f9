use but_graph::arrangement::{
    carry_stack_above, land_stack_above, move_ref, place_ref, readopt_dangling_refs, repoint_ref,
    settle_chain_lower, splice_out, split_chain, transfer_stack, unhook_ref, SplitBoundary,
    StackSlot,
};
use but_graph::editor_graph::{EditorGraph, EditorGraphIndex};
use but_graph::names::{ObjectId, RefName};
use but_graph::position_checks::{debug_assert_below_wellformed, BelowFault};
use but_graph::positions::{apply_chain_join, prepare_chain_join, ref_depth, reposition_refs};
use but_graph::step::{Pick, PickSettings};

fn pick(b: u8) -> Pick {
    Pick {
        id: ObjectId { hi: b as u128, lo: 0 },
        settings: PickSettings {
            pick_mode: "IfChanged".to_string(),
            sign_commit: "No".to_string(),
            exclude_from_tracking: false,
            conflictable: true,
            tree_merge_mode: "Merge".to_string(),
        },
        preserved_parents: None,
        mutable: true,
    }
}

/// Two commits with a child each, and a chain of three references on the first.
struct Stack {
    graph: EditorGraph,
    nodes: Vec<EditorGraphIndex>,
    refs: Vec<EditorGraphIndex>,
}

fn stack() -> Stack {
    let mut graph = EditorGraph::new();
    let nodes: Vec<_> = (0..4).map(|b| graph.add_node(pick(b))).collect();
    graph.push_parent(nodes[2], nodes[0]);
    graph.push_parent(nodes[3], nodes[1]);
    let refs: Vec<_> = ["low", "mid", "high", "there"]
        .iter()
        .map(|short| {
            let name = RefName::new(format!("refs/heads/{}", short).into_bytes()).unwrap();
            graph.add_reference(name, true)
        })
        .collect();
    place_ref(&mut graph, refs[0], StackSlot::Bottom(nodes[0]));
    place_ref(&mut graph, refs[1], StackSlot::Above(refs[0]));
    place_ref(&mut graph, refs[2], StackSlot::Above(refs[1]));
    place_ref(&mut graph, refs[3], StackSlot::Bottom(nodes[1]));
    Stack { graph, nodes, refs }
}

fn is_sound(graph: &EditorGraph) -> bool {
    debug_assert_below_wellformed(graph).is_none()
}

#[test]
fn placed_references_are_stacked() {
    let s = stack();
    assert!(is_sound(&s.graph));
    assert_eq!(ref_depth(&s.graph, s.refs[2]), 2);
}

#[test]
fn moved_references_stay_stacked() {
    let slots = |s: &Stack| {
        vec![
            StackSlot::Above(s.refs[2]),
            StackSlot::Below(s.refs[0]),
            StackSlot::Above(s.refs[3]),
            StackSlot::Below(s.refs[3]),
            StackSlot::Bottom(s.nodes[1]),
            StackSlot::LaneTop { pick: s.nodes[1], leg: (s.nodes[3], 0) },
            StackSlot::Root(s.nodes[1]),
        ]
    };
    for i in 0..7 {
        let mut s = stack();
        let slot = slots(&s)[i];
        move_ref(&mut s.graph, s.refs[1], slot);
        assert!(is_sound(&s.graph), "{:?}", slot);
        // What sat on the reference sits on what it sat on.
        if i > 0 {
            assert_eq!(s.graph.position_of(s.refs[2]).unwrap().below, Some(s.refs[0]));
        }
    }
}

#[test]
fn a_reference_above_itself_goes_around() {
    let mut s = stack();
    move_ref(&mut s.graph, s.refs[1], StackSlot::Above(s.refs[1]));
    assert_eq!(
        debug_assert_below_wellformed(&s.graph),
        Some(BelowFault::Cycle { node: s.refs[1] })
    );
}

#[test]
fn spliced_out_and_unhooked_references_leave_a_stack() {
    let mut s = stack();
    splice_out(&mut s.graph, s.refs[1], Some(s.refs[0]));
    assert!(is_sound(&s.graph));
    assert_eq!(s.graph.position_of(s.refs[2]).unwrap().below, Some(s.refs[0]));
    for drop_legs in [false, true] {
        let mut s = stack();
        unhook_ref(&mut s.graph, s.refs[1], drop_legs);
        assert!(is_sound(&s.graph));
        assert_eq!(s.graph.position_of(s.refs[1]).unwrap().below, Some(s.refs[0]));
        assert_eq!(s.graph.position_of(s.refs[2]).unwrap().below, Some(s.refs[0]));
    }
}

#[test]
fn references_that_move_together_stay_stacked() {
    for reclassify in [false, true] {
        let mut s = stack();
        reposition_refs(&mut s.graph, s.nodes[0], s.nodes[1], reclassify);
        assert!(is_sound(&s.graph));
        assert_eq!(s.graph.position_of(s.refs[2]).unwrap().on, s.nodes[1]);
    }
    let mut s = stack();
    s.graph.nodes[0].pick = None;
    readopt_dangling_refs(&mut s.graph, s.nodes[1]);
    assert!(is_sound(&s.graph));
    assert_eq!(ref_depth(&s.graph, s.refs[2]), 2);
}

#[test]
fn a_repointed_reference_stays_stacked() {
    let mut s = stack();
    repoint_ref(&mut s.graph, s.refs[1], s.nodes[1]);
    assert!(is_sound(&s.graph));
    assert_eq!(s.graph.position_of(s.refs[1]).unwrap().below, Some(s.refs[3]));
    assert_eq!(s.graph.position_of(s.refs[2]).unwrap().below, Some(s.refs[1]));
}

#[test]
fn a_repointed_reference_leaves_removed_ones_behind() {
    let mut s = stack();
    s.graph.refs[2].live = false;
    repoint_ref(&mut s.graph, s.refs[1], s.nodes[1]);
    assert_eq!(s.graph.position_of(s.refs[2]).unwrap().on, s.nodes[0]);
    assert_eq!(s.graph.position_of(s.refs[2]).unwrap().below, Some(s.refs[1]));
}

#[test]
fn both_parts_of_a_split_chain_are_stacked() {
    for boundary in [SplitBoundary::At, SplitBoundary::Above] {
        let mut s = stack();
        let upper = s.graph.add_node(pick(9));
        let split = split_chain(&mut s.graph, s.refs[1], boundary, upper);
        assert!(split.moved_any);
        assert!(is_sound(&s.graph));
        s.graph.push_parent(upper, s.nodes[0]);
        settle_chain_lower(&mut s.graph, &split.lower, (upper, 0));
        assert!(is_sound(&s.graph));
        assert_eq!(ref_depth(&s.graph, s.refs[2]), (boundary == SplitBoundary::At) as usize);
    }
}

#[test]
fn a_chain_that_is_joined_stays_stacked() {
    let mut s = stack();
    let child = s.graph.add_node(pick(9));
    let join = prepare_chain_join(&s.graph, s.refs[2]);
    s.graph.push_parent(child, s.nodes[0]);
    apply_chain_join(&mut s.graph, &join, (child, 0));
    assert!(is_sound(&s.graph));
    assert_eq!(ref_depth(&s.graph, s.refs[2]), 2);
}

#[test]
fn transferred_and_carried_stacks_stay_stacked() {
    let mut s = stack();
    transfer_stack(&mut s.graph, s.refs[1], s.nodes[0], s.nodes[1]);
    assert!(is_sound(&s.graph));
    assert_eq!(s.graph.position_of(s.refs[1]).unwrap().below, None);
    assert_eq!(s.graph.position_of(s.refs[2]).unwrap().below, Some(s.refs[1]));

    let mut s = stack();
    carry_stack_above(&mut s.graph, s.nodes[0], &vec![(s.nodes[2], 0)], 0, s.nodes[1]);
    assert!(is_sound(&s.graph));
    assert_eq!(s.graph.position_of(s.refs[1]).unwrap().below, Some(s.refs[3]));

    // What rests on the slice in a lane of its own is left behind.
    let mut s = stack();
    s.graph.set_position(s.refs[2], s.nodes[0], &vec![], false, Some(s.refs[1]));
    transfer_stack(&mut s.graph, s.refs[1], s.nodes[0], s.nodes[1]);
    assert_eq!(
        debug_assert_below_wellformed(&s.graph),
        Some(BelowFault::OtherPick { node: s.refs[2], below: s.refs[1] })
    );
}

#[test]
fn a_landed_stack_stays_stacked() {
    let mut s = stack();
    assert!(land_stack_above(&mut s.graph, s.nodes[0], s.refs[3], s.nodes[1]));
    assert!(is_sound(&s.graph));
    assert_eq!(s.graph.position_of(s.refs[0]).unwrap().below, Some(s.refs[3]));
    assert_eq!(ref_depth(&s.graph, s.refs[2]), 3);
}

#[test]
fn a_stack_that_lands_out_of_order_goes_around() {
    let mut s = stack();
    unhook_ref(&mut s.graph, s.refs[2], false);
    move_ref(&mut s.graph, s.refs[0], StackSlot::Above(s.refs[1]));
    move_ref(&mut s.graph, s.refs[2], StackSlot::Above(s.refs[3]));
    assert!(is_sound(&s.graph));
    // The first reference rests on the second one; the top has one underneath.
    assert_eq!(s.graph.position_of(s.refs[0]).unwrap().below, Some(s.refs[1]));
    assert_eq!(ref_depth(&s.graph, s.refs[2]), 1);
    assert!(land_stack_above(&mut s.graph, s.nodes[0], s.refs[2], s.nodes[1]));
    assert_eq!(
        debug_assert_below_wellformed(&s.graph),
        Some(BelowFault::Cycle { node: s.refs[0] })
    );
}
