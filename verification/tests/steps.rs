use std::collections::HashMap;

use but_graph::canonical::{canonical_form, CanonicalStepGraph, Label};
use but_graph::lanes::LaneCarry;
use but_graph::names::{ObjectId, RefName};
use but_graph::step::{Pick, PickSettings, Step};
use but_graph::step_graph::{
    classify_approach, ApproachKind, Direction, Edge, StepGraph, StoredAnchor,
};

fn id(b: u8) -> ObjectId {
    ObjectId { hi: (b as u128) << 120, lo: 0 }
}

fn hex(first: &str) -> String {
    format!("{}{}", first, "0".repeat(40 - first.len()))
}

fn pick(b: u8) -> Step {
    Step::Pick(Pick {
        id: id(b),
        settings: PickSettings {
            pick_mode: "IfChanged".to_string(),
            sign_commit: "No".to_string(),
            exclude_from_tracking: false,
            conflictable: true,
            tree_merge_mode: "Merge".to_string(),
        },
        preserved_parents: None,
        mutable: true,
    })
}

fn reference(short: &str) -> Step {
    Step::Reference {
        refname: RefName::new(format!("refs/heads/{}", short).into_bytes()).unwrap(),
    }
}

fn edge(order: usize) -> Edge {
    Edge { order }
}

/// Two children of a commit, and three references.
fn fork() -> StepGraph {
    let mut graph = StepGraph::new();
    for step in [pick(1), pick(2), pick(3), reference("a"), reference("b"), reference("c")] {
        graph.add_node(step);
    }
    graph.add_edge(1, 0, edge(0));
    graph.add_edge(2, 0, edge(0));
    graph
}

#[test]
fn indices_are_stable_and_edges_are_newest_first() {
    let mut graph = fork();
    let third = graph.add_edge(2, 1, edge(1));
    assert_eq!(third, 2);
    let incoming: Vec<_> = graph
        .edges_directed(0, Direction::Incoming)
        .iter()
        .map(|e| (e.id(), e.source(), e.target(), e.weight().order))
        .collect();
    assert_eq!(incoming, vec![(1, 2, 0, 0), (0, 1, 0, 0)]);
    let outgoing: Vec<_> = graph.edges(2).iter().map(|e| e.target()).collect();
    assert_eq!(outgoing, vec![1, 0]);

    assert_eq!(graph.remove_edge(0), Some(edge(0)));
    assert_eq!(graph.remove_edge(0), None);
    assert_eq!(graph.remove_edge(7), None);
    assert_eq!(graph.add_edge(1, 0, edge(4)), 3);
    let live: Vec<_> = graph.edge_references().iter().map(|e| e.id()).collect();
    assert_eq!(live, vec![1, 2, 3]);
    assert_eq!(graph.externals(Direction::Outgoing), vec![0, 3, 4, 5]);
    assert_eq!(graph.externals(Direction::Incoming), vec![2, 3, 4, 5]);
    assert_eq!(graph.node_indices(), vec![0, 1, 2, 3, 4, 5]);
}

#[test]
fn a_moved_edge_is_the_newest_one() {
    let mut graph = fork();
    graph.add_edge(2, 1, edge(1));
    graph.move_edge(1, 1, edge(5));
    let outgoing: Vec<_> = graph.edges(2).iter().map(|e| (e.id(), e.weight().order)).collect();
    assert_eq!(outgoing, vec![(1, 5), (2, 1)]);
    let incoming: Vec<_> =
        graph.edges_directed(1, Direction::Incoming).iter().map(|e| e.id()).collect();
    assert_eq!(incoming, vec![1, 2]);
    assert_eq!(graph.edges_directed(0, Direction::Incoming).len(), 1);
    graph.move_edge(9, 1, edge(0));
    assert_eq!(graph.edge_references().len(), 3);
}

#[test]
fn a_leg_that_comes_back_is_what_it_was() {
    let mut graph = fork();
    graph.place_anchor(3, 0, 0, &vec![(1, 0)], false);
    graph.remove_edge(0);
    assert_eq!(graph.legs_into_pick(0), vec![(2, 0)]);
    // The lane goes on naming the leg.
    assert_eq!(graph.lane_of(3).unwrap().legs, vec![(1, 0)]);
    assert_eq!(graph.add_edge(1, 0, edge(0)), 2);
    assert_eq!(graph.legs_into_pick(0), vec![(1, 0), (2, 0)]);
    assert_eq!(graph.lane_of(3).unwrap().legs, vec![(1, 0)]);
}

#[test]
fn steps_can_be_replaced() {
    let mut graph = fork();
    graph.set_step(1, Step::Blank);
    assert!(matches!(graph.step(1), Step::Blank));
    assert!(!graph.is_pick(1) && graph.is_pick(2));
    // What is left of a step leads to the commit underneath.
    assert_eq!(graph.resolve_to_pick(1), Some(0));
    assert_eq!(graph.legs_into_pick(0), vec![(2, 0)]);
}

#[test]
fn approaches_are_classified() {
    let legs = vec![(1, 0), (2, 0)];
    assert!(matches!(classify_approach(&vec![], &legs), ApproachKind::Root));
    assert!(matches!(classify_approach(&vec![(2, 0), (1, 0)], &legs), ApproachKind::AllLegs));
    assert!(matches!(
        classify_approach(&vec![(2, 0)], &legs),
        ApproachKind::Lane(l) if l == vec![(2, 0)]
    ));
    let fresh = StoredAnchor::place(&fork(), 0, 3, &legs);
    assert_eq!((fresh.anchor, fresh.rank, fresh.ambiguous), (0, 3, true));
    assert!(matches!(fresh.kind, ApproachKind::AllLegs));
}

#[test]
fn references_share_lanes() {
    let mut graph = fork();
    graph.place_anchor(3, 0, 0, &vec![(1, 0)], false);
    graph.place_anchor(4, 0, 1, &vec![(1, 0)], false);
    graph.place_anchor(5, 0, 0, &vec![], true);
    let lane = graph.lane_of(3).unwrap();
    assert_eq!(lane.members, vec![3, 4]);
    assert_eq!(lane.carry, LaneCarry::Count(1));
    assert_eq!(lane.legs, vec![(1, 0)]);
    assert_eq!(graph.lane_of(5).unwrap().carry, LaneCarry::Nothing);
    assert!(graph.lane_of(0).is_none());
    assert_eq!(graph.lane_table().table.len(), 1);
    let placed: Vec<_> = graph.anchored_refs().iter().map(|(n, a)| (*n, a.rank)).collect();
    assert_eq!(placed, vec![(3, 0), (4, 1), (5, 0)]);

    // A reference joins the lane of another one.
    graph.join_lane_of(5, 4, 2);
    assert_eq!(graph.lane_of(5).unwrap().members, vec![3, 4, 5]);
    let joined = graph.anchor_of(5).unwrap();
    assert_eq!((joined.anchor, joined.rank, joined.ambiguous), (0, 2, false));
    assert!(matches!(graph.ref_kind(5), Some(ApproachKind::Lane(_))));

    // It takes the lane along to another anchor.
    graph.rekey_anchor(5, 1);
    assert_eq!(graph.lane_of(5).unwrap().legs, vec![(1, 0)]);
    assert_eq!(graph.lane_of(3).unwrap().members, vec![3, 4]);
    assert_eq!(graph.anchor_of(5).unwrap().anchor, 1);

    graph.set_rank(5, 8);
    assert_eq!(graph.anchor_of(5).unwrap().rank, 8);
    graph.set_anchor(5, None);
    assert!(graph.anchor_of(5).is_none());
    assert_eq!(graph.lane_table().table.len(), 1);
}

#[test]
fn renamed_legs_are_renamed_everywhere() {
    let mut graph = fork();
    graph.add_edge(1, 0, edge(1));
    graph.place_anchor(3, 0, 0, &vec![(1, 0), (2, 0)], false);
    graph.rename_leg((2, 0), (1, 1));
    let lane = graph.lane_of(3).unwrap();
    assert_eq!(lane.legs, vec![(1, 0), (1, 1)]);
    assert!(matches!(
        graph.ref_kind(3),
        Some(ApproachKind::Lane(legs)) if legs == vec![(1, 0), (1, 1)]
    ));
    // Two legs of the same name are one.
    graph.rename_leg((1, 1), (1, 0));
    let lane = graph.lane_of(3).unwrap();
    assert_eq!((lane.legs.clone(), lane.carry), (vec![(1, 0)], LaneCarry::Count(1)));
}

#[test]
fn positions_are_carried_into_a_rebuilt_graph() {
    let mut source = fork();
    source.place_anchor(3, 0, 0, &vec![(1, 0)], true);
    source.place_anchor(4, 0, 1, &vec![(1, 0)], false);
    source.place_anchor(5, 0, 0, &vec![(2, 0)], false);
    let mut rebuilt = StepGraph::new();
    for step in [reference("a"), pick(2), pick(1), reference("c")] {
        rebuilt.add_node(step);
    }
    rebuilt.add_edge(1, 2, edge(0));
    // The second child and the second reference are gone.
    let mapping: HashMap<usize, usize> =
        [(3usize, 0usize), (1, 1), (0, 2), (5, 3)].into_iter().collect();
    rebuilt.carry_positions_mapped(&source, &mapping);
    let lane = rebuilt.lane_of(0).unwrap();
    assert_eq!(lane.members, vec![0]);
    assert_eq!((lane.legs.clone(), lane.carry), (vec![(1, 0)], LaneCarry::Count(1)));
    let carried = rebuilt.anchor_of(0).unwrap();
    assert_eq!((carried.anchor, carried.rank, carried.ambiguous), (2, 0, true));
    let other = rebuilt.lane_of(3).unwrap();
    assert_eq!((other.legs.len(), other.carry), (0, LaneCarry::Count(0)));
    assert_eq!(rebuilt.anchored_refs().len(), 2);
}

fn chains(form: &CanonicalStepGraph) -> Vec<Vec<String>> {
    (0..form.chains.len()).map(|i| form.chains.at(i).clone()).collect()
}

#[test]
fn connected_references_are_one_chain() {
    let mut graph = StepGraph::new();
    for step in [pick(2), reference("x"), reference("y"), reference("z"), pick(1), Step::Blank] {
        graph.add_node(step);
    }
    graph.add_edge(0, 2, edge(0));
    graph.add_edge(2, 1, edge(0));
    graph.add_edge(1, 4, edge(0));
    graph.add_edge(3, 4, edge(0));
    graph.add_edge(5, 4, edge(3));
    let form = canonical_form(&graph);
    assert_eq!(
        chains(&form),
        vec![
            vec!["refs/heads/x".to_string(), "refs/heads/y".to_string()],
            vec!["refs/heads/z".to_string()],
        ]
    );
    assert_eq!(form.picks.len(), 2);
    assert_eq!(form.picks.value_at(0).flavor, "IfChanged/No/false/true/Merge");
    // The edge within the chain is not an edge of the form.
    assert_eq!(form.edges.len(), 4);
    let blank = form.edges.at(3);
    assert_eq!(blank.0.debug_text(), "None(0)");
    assert_eq!((blank.1).0.debug_text(), format!("Pick(Sha1({}))", hex("01")));
    assert_eq!((blank.1).1, 3);
}

#[test]
fn the_form_does_not_depend_on_indices() {
    let mut a = StepGraph::new();
    for step in [pick(2), reference("x"), reference("y"), pick(1)] {
        a.add_node(step);
    }
    a.add_edge(0, 1, edge(0));
    a.add_edge(1, 2, edge(0));
    a.add_edge(2, 3, edge(0));
    let mut b = StepGraph::new();
    for step in [pick(1), reference("y"), pick(2), reference("x")] {
        b.add_node(step);
    }
    b.add_edge(1, 0, edge(0));
    b.add_edge(2, 3, edge(0));
    b.add_edge(3, 1, edge(0));
    assert!(canonical_form(&a).diff_against(&canonical_form(&b)).is_empty());
}

#[test]
fn forms_differ_line_by_line() {
    let mut a = StepGraph::new();
    a.add_node(pick(1));
    a.add_node(reference("x"));
    a.add_node(pick(2));
    a.add_edge(1, 0, edge(0));
    let mut b = StepGraph::new();
    if let Step::Pick(mut p) = pick(1) {
        p.preserved_parents = Some(vec![id(9)]);
        b.add_node(Step::Pick(p));
    }
    b.add_node(pick(3));
    let lines = canonical_form(&a).diff_against(&canonical_form(&b));
    let info = |kept: &str| {
        format!(
            "PickInfo {{ flavor: \"IfChanged/No/false/true/Merge\", preserved_parents: {} }}",
            kept
        )
    };
    assert_eq!(
        lines,
        vec![
            format!(
                "pick {}: {} != {}",
                hex("01"),
                info("None"),
                info(&format!("Some([Sha1({})])", hex("09")))
            ),
            format!("pick {} only in SELF", hex("02")),
            format!("pick {} only in OTHER", hex("03")),
            "chain only in SELF: {\"refs/heads/x\"}".to_string(),
            format!(
                "edge only in SELF: (Refs({{\"refs/heads/x\"}}), Pick(Sha1({})), 0)",
                hex("01")
            ),
        ]
    );
}

#[test]
fn forms_differ_in_as_many_lines_both_ways() {
    let mut a = fork();
    a.add_edge(3, 0, edge(0));
    a.add_edge(4, 3, edge(0));
    let mut b = fork();
    if let Step::Pick(mut p) = pick(2) {
        p.preserved_parents = Some(vec![id(9)]);
        b.set_step(1, Step::Pick(p));
    }
    b.set_step(2, pick(7));
    b.add_edge(3, 0, edge(1));
    let (a, b) = (canonical_form(&a), canonical_form(&b));
    let (there, back) = (a.diff_against(&b), b.diff_against(&a));
    assert_eq!(there.len(), back.len());
    assert!(there.len() > 3);
}

#[test]
fn each_name_is_in_one_chain_and_chains_are_not_connected() {
    let mut graph = fork();
    graph.add_edge(5, 3, edge(0));
    graph.add_edge(4, 0, edge(0));
    graph.add_edge(3, 1, edge(0));
    let form = canonical_form(&graph);
    let mut names: Vec<String> = chains(&form).concat();
    assert!(chains(&form).iter().all(|c| !c.is_empty()));
    names.sort();
    assert_eq!(names, vec!["refs/heads/a", "refs/heads/b", "refs/heads/c"]);
    for i in 0..form.edges.len() {
        let e = form.edges.at(i);
        assert!(!(matches!(e.0, Label::Refs(_)) && matches!((e.1).0, Label::Refs(_))));
    }
}

#[test]
fn an_anchor_has_a_lane_of_its_kind_and_leaves_the_others() {
    let mut graph = fork();
    let put = |kind: ApproachKind| StoredAnchor { anchor: 0, rank: 0, kind, ambiguous: false };
    graph.set_anchor(3, Some(put(ApproachKind::Lane(vec![(1, 0)]))));
    graph.set_anchor(4, Some(put(ApproachKind::AllLegs)));
    graph.set_anchor(5, Some(put(ApproachKind::Root)));
    assert_eq!(graph.lane_of(4).unwrap().carry, LaneCarry::All);
    assert_eq!(graph.lane_of(5).unwrap().carry, LaneCarry::Nothing);
    graph.set_anchor(5, Some(put(ApproachKind::Lane(vec![(1, 0), (2, 0)]))));
    let lane = graph.lane_of(5).unwrap();
    assert_eq!((lane.carry, lane.legs.clone()), (LaneCarry::Count(2), vec![(1, 0), (2, 0)]));
    let other = graph.lane_of(3).unwrap();
    assert_eq!((other.carry, other.legs.clone()), (LaneCarry::Count(1), vec![(1, 0)]));
    assert_eq!(graph.lane_of(4).unwrap().carry, LaneCarry::All);
}
