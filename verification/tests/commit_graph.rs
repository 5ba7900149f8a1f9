use but_graph::commit::{Commit, CommitFlags, RefInfo, Tip};
use but_graph::commit_graph::CommitGraph;
use but_graph::names::{ObjectId, RefName};
use but_graph::segment_graph::{
    walk_divergence, Connection, Context, EntryPointCommit, NativeOutcome, Segment, SegmentGraph,
};
use but_graph::collections::SortedSet;

fn id(b: u8) -> ObjectId {
    ObjectId { hi: (b as u128) << 120, lo: 0 }
}

fn flags() -> CommitFlags {
    CommitFlags { in_workspace: false, others: 0, shown: String::new() }
}

fn commit(b: u8, parents: &[u8]) -> Commit {
    Commit {
        id: id(b),
        parent_ids: parents.iter().map(|&p| id(p)).collect(),
        flags: flags(),
        refs: Vec::new(),
    }
}

fn name(text: &str) -> RefName {
    RefName::new(text.as_bytes().to_vec()).unwrap()
}

fn named(text: &str) -> RefInfo {
    RefInfo { ref_name: name(text) }
}

fn with_refs(mut c: Commit, names: &[&str]) -> Commit {
    c.refs = names.iter().map(|n| named(n)).collect();
    c
}

fn zeros(first: &str) -> String {
    format!("{}{}", first, "0".repeat(40 - first.len()))
}

#[test]
fn children_generation_and_first_parent_walk() {
    let g = CommitGraph::from_commits(
        vec![commit(3, &[2]), commit(2, &[1]), commit(1, &[])],
        Some(id(3)),
    );
    assert_eq!(g.first_parent(id(3)), Some(id(2)));
    assert_eq!(g.first_parent(id(1)), None);
    assert_eq!(g.children(id(1)), vec![id(2)]);
    assert_eq!(g.node(id(1)).unwrap().generation, 0);
    assert_eq!(g.node(id(3)).unwrap().generation, 2);
    assert_eq!(g.first_parent_run(id(3)), vec![id(3), id(2), id(1)]);
}

fn two_segments() -> SegmentGraph {
    SegmentGraph {
        segments: vec![
            Segment {
                ref_info: None,
                commits: vec![commit(0xA2, &[0xA1]), commit(0xA1, &[0xB0])],
                connections: vec![Connection {
                    src_id: Some(id(0xA1)),
                    dst_id: Some(id(0xB0)),
                    target: 1,
                }],
            },
            Segment { ref_info: None, commits: vec![commit(0xB0, &[])], connections: vec![] },
        ],
        entrypoint: Some((0, EntryPointCommit::SegmentTip)),
        hard_limit_hit: false,
        traversal_tips: vec![],
    }
}

#[test]
fn bridge_from_segment_graph_captures_commits_and_parents() {
    let graph = two_segments();
    let cg = CommitGraph::from_segment_graph(&graph);
    assert!(
        cg.node(id(0xA2)).is_some() && cg.node(id(0xA1)).is_some() && cg.node(id(0xB0)).is_some()
    );
    assert_eq!(cg.first_parent(id(0xA2)), Some(id(0xA1)));
    assert_eq!(cg.first_parent(id(0xA1)), Some(id(0xB0)));
    assert_eq!(cg.first_parent(id(0xB0)), None);
    assert_eq!(cg.children(id(0xB0)), vec![id(0xA1)]);
    assert_eq!(cg.entrypoint, Some(id(0xA2)));
}

#[test]
fn merge_is_a_segment_boundary_so_the_run_stops() {
    let g = CommitGraph::from_commits(
        vec![commit(4, &[2, 3]), commit(2, &[1]), commit(3, &[1]), commit(1, &[])],
        Some(id(4)),
    );
    assert!(g.is_segment_boundary(id(4)), "merge commit starts its own segment");
    assert!(
        g.is_segment_boundary(id(1)),
        "1 has two children (2 and 3) → branch point, a boundary"
    );
    assert_eq!(g.first_parent_run(id(4)), vec![id(4), id(2)]);
}

#[test]
fn a_local_branch_starts_a_segment_and_a_tag_does_not() {
    let g = CommitGraph::from_commits(
        vec![
            commit(3, &[2]),
            with_refs(commit(2, &[1]), &["refs/tags/v1"]),
            with_refs(commit(1, &[]), &["refs/heads/main"]),
        ],
        None,
    );
    assert!(!g.is_segment_boundary(id(2)));
    assert!(g.is_segment_boundary(id(1)));
    assert!(!g.is_segment_boundary(id(9)));
    assert_eq!(g.first_parent_run(id(3)), vec![id(3), id(2)]);
    assert_eq!(g.commit_by_ref(&name("refs/tags/v1")), Some(id(2)));
    assert_eq!(g.commit_by_ref(&name("refs/tags/v2")), None);
    assert_eq!(g.refs_at(id(1)).len(), 1);
    assert!(g.refs_at(id(1))[0].same(&name("refs/heads/main")));
    assert!(g.refs_at(id(9)).is_empty());
}

#[test]
fn parents_outside_the_graph_are_kept_but_not_walked() {
    let g = CommitGraph::from_commits(vec![commit(3, &[9, 2]), commit(2, &[])], None);
    assert_eq!(g.all_parent_ids(id(3)), vec![id(9), id(2)]);
    assert_eq!(g.parents(id(3)), vec![id(2)]);
    assert_eq!(g.first_parent(id(3)), None);
    assert_eq!(g.node(id(3)).unwrap().generation, 1);
    assert_eq!(g.commit_ids(), vec![id(3), id(2)]);
    assert!(g.parents(id(7)).is_empty());
}

#[test]
fn cut_connections_are_not_walked() {
    let mut g = CommitGraph::from_commits(vec![commit(2, &[1]), commit(1, &[])], None);
    assert!(g.is_connected(id(2), id(1)));
    g.set_connected(SortedSet::new());
    assert!(!g.is_connected(id(2), id(1)));
    assert_eq!(g.first_parent(id(2)), None);
    assert!(g.children(id(1)).is_empty());
    assert!(g.all_parent_ids(id(2)).is_empty());
    assert_eq!(g.parents(id(2)), vec![id(1)]);
    assert_eq!(g.connected_parents(id(2)), vec![]);
    assert_eq!(g.node(id(2)).unwrap().generation, 1);
}

#[test]
fn generations_are_the_longest_way_from_a_root() {
    let g = CommitGraph::from_commits(
        vec![
            commit(5, &[1, 4]),
            commit(4, &[3]),
            commit(3, &[1]),
            commit(1, &[]),
        ],
        None,
    );
    assert_eq!(g.node(id(1)).unwrap().generation, 0);
    assert_eq!(g.node(id(3)).unwrap().generation, 1);
    assert_eq!(g.node(id(4)).unwrap().generation, 2);
    assert_eq!(g.node(id(5)).unwrap().generation, 3);
    assert_eq!(g.toposort_parents_first(), vec![id(1), id(3), id(4), id(5)]);
}

#[test]
fn commits_in_the_workspace_are_found_by_their_flag() {
    let mut a = commit(2, &[1]);
    a.flags = CommitFlags { in_workspace: true, others: 0, shown: "InWorkspace".to_string() };
    let g = CommitGraph::from_commits(vec![a, commit(1, &[])], None);
    assert_eq!(g.in_workspace(), vec![id(2)]);
}

#[test]
fn managed_commits_are_marked_by_their_message() {
    let mut g = CommitGraph::from_commits(vec![commit(1, &[])], None);
    g.mark_managed_ws_commit_by_message(id(1), None);
    g.mark_managed_ws_commit_by_message(id(1), Some(false));
    assert!(!g.is_managed_ws_commit(id(1)));
    g.mark_managed_ws_commit_by_message(id(1), Some(true));
    assert!(g.is_managed_ws_commit(id(1)));
}

#[test]
fn the_name_of_a_segment_goes_to_its_tip() {
    let mut graph = two_segments();
    graph.segments[0].ref_info = Some(named("refs/heads/a"));
    graph.segments[1].ref_info = Some(named("refs/heads/b"));
    graph.segments[1].commits[0].refs = vec![named("refs/heads/x"), named("refs/heads/b")];
    let cg = CommitGraph::from_segment_graph(&graph);
    assert!(cg.refs_at(id(0xA2))[0].same(&name("refs/heads/a")));
    assert!(cg.refs_at(id(0xA1)).is_empty());
    assert_eq!(cg.refs_at(id(0xB0)).len(), 2);
    assert!(cg.refs_at(id(0xB0))[0].same(&name("refs/heads/x")));
    assert!(cg.entrypoint_ref().unwrap().same(&name("refs/heads/a")));
}

#[test]
fn connections_go_through_segments_without_commits() {
    let mut graph = two_segments();
    graph.segments[0].connections[0] = Connection { src_id: None, dst_id: None, target: 2 };
    graph.segments.push(Segment {
        ref_info: Some(named("refs/heads/empty")),
        commits: vec![],
        connections: vec![Connection { src_id: None, dst_id: None, target: 1 }],
    });
    let cg = CommitGraph::from_segment_graph(&graph);
    assert!(cg.is_connected(id(0xA1), id(0xB0)));
    assert_eq!(cg.first_parent(id(0xA1)), Some(id(0xB0)));
}

#[test]
fn the_same_graph_has_no_differences() {
    let a = CommitGraph::from_segment_graph(&two_segments());
    let b = CommitGraph::from_segment_graph(&two_segments());
    assert!(a.diff_against(&b).is_empty());
    assert_eq!(walk_divergence(&a, &b), None);
}

#[test]
fn differences_are_one_line_each() {
    let mut left = commit(1, &[7]);
    left.flags = CommitFlags { in_workspace: true, others: 3, shown: "InWorkspace|3".to_string() };
    let a = CommitGraph::from_commits(
        vec![with_refs(left, &["refs/heads/b", "refs/heads/a"]), commit(2, &[])],
        Some(id(1)),
    );
    let b = CommitGraph::from_commits(
        vec![with_refs(commit(1, &[]), &["refs/heads/a"]), commit(3, &[])],
        None,
    );
    let (one, two, three) = (zeros("01"), zeros("02"), zeros("03"));
    let want = vec![
        format!("{one}: parents [Sha1({})] != []", zeros("07")),
        format!("{one}: flags InWorkspace|3 != "),
        format!("{one}: refs [\"refs/heads/b\", \"refs/heads/a\"] != [\"refs/heads/a\"]"),
        format!("{two}: only in SELF"),
        format!("{three}: only in OTHER"),
        format!("entrypoint Some(Sha1({one})) != None"),
    ];
    assert_eq!(a.diff_against(&b), want);
    assert_eq!(
        walk_divergence(&a, &b),
        Some(format!("NATIVE_WALK_DIVERGENCE (6 lines):\n{}", want.join("\n")))
    );
}

#[test]
fn the_order_of_references_is_a_difference() {
    let graph = |names: &[&str]| {
        CommitGraph::from_commits(vec![with_refs(commit(1, &[]), names)], None)
    };
    let (a, b) = (graph(&["refs/heads/x", "refs/heads/y"]), graph(&["refs/heads/y", "refs/heads/x"]));
    let one = zeros("01");
    assert_eq!(
        a.diff_against(&b),
        vec![format!(
            "{one}: refs [\"refs/heads/x\", \"refs/heads/y\"] != [\"refs/heads/y\", \"refs/heads/x\"]"
        )]
    );
    assert!(a.diff_against(&a).is_empty());
}

#[test]
fn no_connections_are_not_all_connections() {
    let all = CommitGraph::from_commits(vec![commit(2, &[1]), commit(1, &[])], None);
    let mut none = CommitGraph::from_commits(vec![commit(2, &[1]), commit(1, &[])], None);
    none.set_connected(SortedSet::new());
    assert_eq!(all.diff_against(&none), vec!["connected None != Some({})".to_string()]);
    assert_eq!(none.diff_against(&all), vec!["connected Some({}) != None".to_string()]);
}

#[test]
fn parents_outside_a_graph_of_segments_are_kept() {
    let segments = SegmentGraph {
        segments: vec![Segment {
            ref_info: None,
            commits: vec![commit(0xA1, &[0xB0])],
            connections: vec![],
        }],
        entrypoint: Some((0, EntryPointCommit::SegmentTip)),
        hard_limit_hit: false,
        traversal_tips: Vec::new(),
    };
    let cg = CommitGraph::from_segment_graph(&segments);
    assert_eq!(cg.all_parent_ids(id(0xA1)), vec![id(0xB0)]);
    assert!(cg.parents(id(0xA1)).is_empty());
}

fn outcome(entrypoint: u8) -> NativeOutcome {
    let mut connected = SortedSet::new();
    connected.insert((id(0xA2), id(0xA1)));
    connected.insert((id(0xA1), id(0xB0)));
    NativeOutcome {
        commits: vec![commit(0xA2, &[0xA1]), commit(0xA1, &[0xB0]), commit(0xB0, &[])],
        entrypoint: Some(id(entrypoint)),
        entrypoint_ref: None,
        connected,
        hard_limit_hit: false,
        tips: vec![],
    }
}

#[test]
fn both_traversals_have_to_agree() {
    let raw = two_segments();
    let g = CommitGraph::from_walk(outcome(0xA2), Some(&raw)).ok().unwrap();
    assert_eq!(g.commit_ids(), vec![id(0xA2), id(0xA1), id(0xB0)]);
    assert!(!g.explicit_tips);
    assert!(CommitGraph::from_walk_tips(outcome(0xA2), Some(&raw)).ok().unwrap().explicit_tips);
    assert!(CommitGraph::from_walk(outcome(0xA1), None).is_ok());
    let line = format!("entrypoint Some(Sha1({})) != Some(Sha1({}))", zeros("a1"), zeros("a2"));
    assert_eq!(
        CommitGraph::from_walk(outcome(0xA1), Some(&raw)).err().unwrap(),
        format!("NATIVE_WALK_DIVERGENCE (1 lines):\n{line}")
    );
    assert_eq!(
        CommitGraph::from_walk_tips(outcome(0xA1), Some(&raw)).err().unwrap(),
        format!("NATIVE_WALK_DIVERGENCE tips (1 lines):\n{line}")
    );
}

#[test]
fn other_fields_are_compared_too() {
    let mut connected = SortedSet::new();
    connected.insert((id(2), id(1)));
    let outcome = |connected, tips: Vec<Tip>, hard: bool| NativeOutcome {
        commits: vec![commit(2, &[1]), commit(1, &[])],
        entrypoint: Some(id(2)),
        entrypoint_ref: Some(name("refs/heads/main")),
        connected,
        hard_limit_hit: hard,
        tips,
    };
    let a = CommitGraph::from_native_outcome(outcome(
        connected,
        vec![Tip { shown: "Tip(2)".to_string() }],
        true,
    ));
    let mut b = CommitGraph::from_native_outcome(outcome(SortedSet::new(), vec![], false));
    b.entrypoint_ref = None;
    b.explicit_tips = true;
    b.mark_managed_ws_commit_by_message(id(1), Some(true));
    assert_eq!(
        a.diff_against(&b),
        vec![
            "entrypoint_ref Some(\"refs/heads/main\") != None".to_string(),
            format!("connected only in SELF: (Sha1({}), Sha1({}))", zeros("02"), zeros("01")),
            "hard_limit_hit true != false".to_string(),
            "traversal_tips [Tip(2)] != []".to_string(),
            "explicit_tips false != true".to_string(),
            format!("managed_ws_commits {{}} != {{Sha1({})}}", zeros("01")),
        ]
    );
}

#[test]
fn post_processing_records_the_limit_and_the_tip() {
    let (graph, detach) = two_segments().post_processed(
        id(0xB0),
        Context {
            hard_limit: true,
            detach_entrypoint: true,
            dangerously_skip_postprocessing_for_debugging: true,
        },
    );
    assert!(graph.hard_limit_hit);
    assert!(detach);
    assert_eq!(graph.entrypoint_commit(), Some((id(0xB0), 1)));
}

#[test]
fn segments_know_whether_they_are_valid() {
    let mut graph = two_segments();
    assert!(graph.is_wf());
    assert!(but_graph::derivation::has_distinct_commits(&graph));
    graph.segments[1].commits.push(commit(0xA1, &[]));
    assert!(!but_graph::derivation::has_distinct_commits(&graph));
    graph.segments[0].connections[0].target = 2;
    assert!(!graph.is_wf());
}

#[test]
fn names_are_what_git_accepts() {
    assert!(RefName::new(b"refs/heads/a b".to_vec()).is_none());
    assert!(RefName::new(b"refs/heads/main".to_vec()).is_some());
    assert!(name("refs/heads/main").is_local_branch());
    assert!(!name("refs/remotes/origin/main").is_local_branch());
    assert_eq!(name("refs/heads/main").shorten(), b"main".to_vec());
    assert_eq!(name("refs/heads/main").to_text(), "refs/heads/main");
    assert_eq!(
        ObjectId { hi: 0x0123456789abcdef_0011223344556677, lo: 0x8899aabb }.to_hex(),
        "0123456789abcdef00112233445566778899aabb"
    );
}

#[test]
fn generations_do_not_depend_on_the_order_of_the_commits() {
    let commits = || {
        vec![commit(5, &[1, 4]), commit(4, &[3]), commit(3, &[1]), commit(1, &[]), commit(6, &[4])]
    };
    let a = CommitGraph::from_commits(commits(), None);
    let mut turned = commits();
    turned.reverse();
    turned.swap(1, 3);
    let b = CommitGraph::from_commits(turned, None);
    for x in [1, 3, 4, 5, 6] {
        assert_eq!(a.node(id(x)).unwrap().generation, b.node(id(x)).unwrap().generation);
    }
    assert_eq!(b.node(id(5)).unwrap().generation, 3);
    assert_eq!(b.node(id(6)).unwrap().generation, 3);
}

#[test]
fn what_is_above_a_cut_connection_has_no_place_in_the_order() {
    let mut g = CommitGraph::from_commits(
        vec![commit(4, &[3]), commit(3, &[2, 1]), commit(2, &[]), commit(1, &[])],
        None,
    );
    assert_eq!(g.toposort_parents_first(), vec![id(2), id(1), id(3), id(4)]);
    let mut links = SortedSet::new();
    links.insert((id(4), id(3)));
    links.insert((id(3), id(2)));
    g.set_connected(links);
    assert_eq!(g.toposort_parents_first(), vec![id(2), id(1)]);
}
