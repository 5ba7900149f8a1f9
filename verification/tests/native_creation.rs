use but_graph::collections::SortedSet;
use but_graph::commit::{Commit, CommitFlags, RefInfo};
use but_graph::commit_graph::CommitGraph;
use but_graph::creation::PickDefaults;
use but_graph::derivation::DeriveError;
use but_graph::names::{ObjectId, RefName};
use but_graph::native_creation::{
    create_native, ExtraEntry, ExtraRefMutability, NativeParts, NativeSource, RestingChain,
};
use but_graph::segment_graph::{Connection, EntryPointCommit, Segment, SegmentGraph};
use but_graph::stacks::{Stack, StackSegment};
use but_graph::step::{PickSettings, Step};

fn id(b: u8) -> ObjectId {
    ObjectId { hi: (b as u128) << 120, lo: 0 }
}

fn name(short: &str) -> RefName {
    RefName::new(format!("refs/heads/{}", short).into_bytes()).unwrap()
}

fn commit(b: u8, parents: &[u8]) -> Commit {
    Commit {
        id: id(b),
        parent_ids: parents.iter().map(|&p| id(p)).collect(),
        flags: CommitFlags { in_workspace: false, others: 0, shown: String::new() },
        refs: Vec::new(),
    }
}

fn to(src: u8, dst: u8, target: usize) -> Connection {
    Connection { src_id: Some(id(src)), dst_id: Some(id(dst)), target }
}

fn segment(short: &str, commits: Vec<Commit>, connections: Vec<Connection>) -> Segment {
    Segment { ref_info: Some(RefInfo { ref_name: name(short) }), commits, connections }
}

fn source(segments: Vec<Segment>, ws: Option<u8>) -> NativeSource {
    NativeSource {
        graph: SegmentGraph {
            segments,
            entrypoint: Some((0, EntryPointCommit::SegmentTip)),
            hard_limit_hit: false,
            traversal_tips: Vec::new(),
        },
        workspace_commit_id: ws.map(id),
        tip_below_entry: None,
        resting_chains: Vec::new(),
        merge_bypass: SortedSet::new(),
        stacks: Vec::new(),
        extra_refs: Vec::new(),
    }
}

/// A commit with two parents on a common base.
fn lanes() -> Vec<Segment> {
    vec![
        segment("top", vec![commit(9, &[2, 3])], vec![to(9, 2, 1), to(9, 3, 2)]),
        segment("a", vec![commit(2, &[1])], vec![to(2, 1, 3)]),
        segment("b", vec![commit(3, &[1])], vec![to(3, 1, 3)]),
        segment("main", vec![commit(1, &[])], vec![]),
    ]
}

fn settings(sign: &str) -> PickSettings {
    PickSettings {
        pick_mode: "IfChanged".to_string(),
        sign_commit: sign.to_string(),
        exclude_from_tracking: false,
        conflictable: true,
        tree_merge_mode: "Merge".to_string(),
    }
}

fn create(source: &NativeSource) -> NativeParts {
    let defaults = PickDefaults {
        pick: settings("Never"),
        workspace_pick: settings("Workspace"),
        mutable: true,
    };
    match create_native(source, &defaults, &"Yes".to_string()) {
        Ok(parts) => parts,
        Err(e) => panic!("{:?}", e),
    }
}

fn steps(parts: &NativeParts) -> Vec<String> {
    parts
        .graph
        .node_indices()
        .into_iter()
        .map(|i| match parts.graph.step(i) {
            Step::Pick(p) => p.id.to_hex()[..2].to_string(),
            Step::Reference { refname } => String::from_utf8(refname.shorten()).unwrap(),
            Step::Blank => "-".to_string(),
        })
        .collect()
}

fn edges(parts: &NativeParts) -> Vec<(usize, usize, usize)> {
    parts
        .graph
        .edge_references()
        .iter()
        .map(|e| (e.source(), e.target(), e.weight().order))
        .collect()
}

#[test]
fn commits_are_connected_through_the_references_on_them() {
    let parts = create(&source(lanes(), Some(9)));
    assert_eq!(steps(&parts), vec!["top", "09", "a", "02", "b", "03", "main", "01"]);
    assert_eq!(
        edges(&parts),
        vec![
            (0, 1, 0),
            (2, 3, 0),
            (4, 5, 0),
            (6, 7, 0),
            (1, 2, 0),
            (1, 4, 1),
            (3, 6, 0),
            (5, 6, 0),
        ]
    );
    assert_eq!(parts.references.len(), 4);
    assert_eq!(parts.head_selectors.len(), 1);
    assert_eq!((parts.head_selectors[0].id, parts.head_selectors[0].revision), (0, 0));
    assert_eq!(parts.immutable_references.len(), 0);
    let sign = |i: usize| match parts.graph.step(i) {
        Step::Pick(p) => p.settings.sign_commit.clone(),
        _ => panic!(),
    };
    assert_eq!((sign(1), sign(3)), ("Workspace".to_string(), "Yes".to_string()));
}

fn empty_on(below: u8) -> RestingChain {
    RestingChain { refs: vec![name("empty"), name("under")], fed: true, below: Some(id(below)) }
}

#[test]
fn empty_branches_are_spliced_in() {
    let mut from = source(lanes(), Some(9));
    from.resting_chains = vec![empty_on(2)];
    from.stacks = vec![Stack {
        id: "None".to_string(),
        segments: vec![
            StackSegment { name: Some(name("empty")), base: Some(id(2)), commits: vec![] },
            StackSegment { name: Some(name("under")), base: Some(id(2)), commits: vec![] },
            StackSegment { name: Some(name("a")), base: Some(id(1)), commits: vec![id(2)] },
        ],
    }];
    let parts = create(&from);
    assert_eq!(
        steps(&parts),
        vec!["top", "09", "a", "02", "b", "03", "main", "01", "empty", "under"]
    );
    // The chain rests on the references of its commit, and the lane leads to the chain.
    assert_eq!(
        edges(&parts)[4..].to_vec(),
        vec![(8, 9, 0), (9, 2, 0), (1, 4, 1), (1, 8, 2), (3, 6, 0), (5, 6, 0)]
    );
}

#[test]
fn empty_branches_at_the_bottom_rest_on_the_base() {
    let mut from = source(lanes(), Some(9));
    from.resting_chains = vec![empty_on(1)];
    from.stacks = vec![Stack {
        id: "None".to_string(),
        segments: vec![
            StackSegment { name: Some(name("a")), base: None, commits: vec![id(2)] },
            StackSegment { name: Some(name("empty")), base: Some(id(1)), commits: vec![] },
        ],
    }];
    let parts = create(&from);
    // The parent of the commit is reached through the chain, behind its parents.
    assert!(edges(&parts).contains(&(3, 8, 1)));
    assert!(!edges(&parts).contains(&(3, 6, 0)));
}

#[test]
fn chains_that_nothing_leads_to_are_left_out() {
    let mut from = source(lanes(), Some(9));
    let mut chain = empty_on(1);
    chain.fed = false;
    from.resting_chains = vec![chain];
    assert_eq!(steps(&create(&from)).len(), 8);
    // One that is asked for is there.
    from.graph.segments.push(segment("under", vec![], vec![]));
    from.extra_refs = vec![ExtraEntry {
        name: name("under"),
        mutability: ExtraRefMutability::Immutable,
        found: Some((4, id(1))),
    }];
    let parts = create(&from);
    assert_eq!(steps(&parts).len(), 10);
    assert_eq!(parts.immutable_references.len(), 1);
    assert!(parts.immutable_references.contains(&name("under")));
}

#[test]
fn merges_do_not_see_the_references_that_they_bypass() {
    let mut from = source(lanes(), None);
    from.merge_bypass.insert(id(2));
    let parts = create(&from);
    assert_eq!(edges(&parts)[4..6].to_vec(), vec![(1, 3, 0), (1, 4, 1)]);
    // The workspace commit does.
    let mut from = source(lanes(), Some(9));
    from.merge_bypass.insert(id(2));
    assert_eq!(edges(&create(&from))[4..6].to_vec(), vec![(1, 2, 0), (1, 4, 1)]);
}

#[test]
fn commits_whose_connections_were_cut_lead_to_their_parents() {
    let mut segments = lanes();
    segments[0].connections.pop();
    let mut from = source(segments, None);
    // What is not connected is not in reach, and then the parents are preserved.
    let parts = create(&from);
    assert_eq!(steps(&parts), vec!["top", "09", "a", "02", "main", "01"]);
    match parts.graph.step(1) {
        Step::Pick(p) => assert_eq!(p.preserved_parents, Some(vec![id(2), id(3)])),
        _ => panic!(),
    }
    from.extra_refs = vec![ExtraEntry {
        name: name("b"),
        mutability: ExtraRefMutability::Immutable,
        found: Some((2, id(3))),
    }];
    let parts = create(&from);
    assert_eq!(edges(&parts)[4..6].to_vec(), vec![(1, 3, 0), (1, 5, 1)]);
    assert_eq!(parts.immutable_references.len(), 1);
    assert!(parts.immutable_references.contains(&name("b")));
    match parts.graph.step(1) {
        Step::Pick(p) => assert_eq!(p.preserved_parents, None),
        _ => panic!(),
    }
}

#[test]
fn an_entrypoint_without_commits_is_entered_below() {
    let mut segments = lanes();
    segments.insert(0, segment("empty", vec![], vec![]));
    for s in segments.iter_mut() {
        for c in s.connections.iter_mut() {
            c.target += 1;
        }
    }
    let mut from = source(segments, None);
    from.tip_below_entry = Some(id(2));
    let mut chain = empty_on(2);
    chain.fed = false;
    from.resting_chains = vec![chain];
    let parts = create(&from);
    assert_eq!(steps(&parts), vec!["a", "02", "main", "01", "empty", "under"]);
    assert_eq!(parts.head_selectors[0].id, 4);
}

#[test]
fn a_repeated_commit_has_steps_each_time() {
    let mut segments = lanes();
    segments.push(segment("twin", vec![commit(3, &[1])], vec![to(3, 1, 3)]));
    let parts = create(&source(segments, None));
    assert_eq!(
        steps(&parts),
        vec!["top", "09", "a", "02", "twin", "03", "main", "01", "twin", "03"]
    );
    let tail: Vec<_> = edges(&parts)[5..].to_vec();
    assert_eq!(tail, vec![(1, 2, 0), (1, 4, 1), (3, 6, 0), (9, 6, 0), (9, 6, 0)]);
}

#[test]
fn what_is_not_found_fails() {
    let mut from = source(lanes(), None);
    from.extra_refs = vec![ExtraEntry {
        name: name("gone"),
        mutability: ExtraRefMutability::Mutable,
        found: None,
    }];
    let defaults =
        PickDefaults { pick: settings("a"), workspace_pick: settings("b"), mutable: false };
    match create_native(&from, &defaults, &"c".to_string()) {
        Err(DeriveError::UnknownRef(gone)) => assert!(gone.same(&name("gone"))),
        _ => panic!(),
    }
    from.graph.entrypoint = None;
    assert!(matches!(
        create_native(&from, &defaults, &"c".to_string()),
        Err(DeriveError::NoEntrypoint)
    ));
}

#[test]
fn only_connected_parents_are_followed() {
    let mut segments = lanes();
    segments[0].connections.pop();
    let graph = source(segments, None).graph;
    let cg = CommitGraph::from_segment_graph(&graph);
    assert_eq!(cg.connected_parents(id(9)), vec![id(2)]);
    assert_eq!(cg.connected_parents(id(3)), vec![id(1)]);
    assert_eq!(cg.connected_parents(id(7)), vec![]);
}
