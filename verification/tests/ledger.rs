use but_graph::collections::SortedSet;
use but_graph::commit::{Commit, CommitFlags, RefInfo};
use but_graph::commit_graph::CommitGraph;
use but_graph::creation::{
    create_native, CreationError, Editor, EditorError, GraphEditorOptions, PickDefaults,
    Surroundings, WorkspaceGraph,
};
use but_graph::derivation::{has_distinct_commits, is_derivable, DeriveError, ExtraRef};
use but_graph::editor_graph::{EditorGraph, EditorGraphIndex};
use but_graph::names::{ObjectId, RefName};
use but_graph::placements::{
    assert_ledger_parity, assert_native_parity, canonical_picks, extract, Checkout, Creation,
    NativeDivergence, PlacedRef, PlacementError, RefPlacements, Selector,
};
use but_graph::position_checks::debug_assert_below_wellformed;
use but_graph::positions::ref_depth;
use but_graph::segment_graph::{Connection, EntryPointCommit, Segment, SegmentGraph};
use but_graph::step::{Pick, PickSettings};

fn id(b: u8) -> ObjectId {
    ObjectId { hi: (b as u128) << 120, lo: 0 }
}

fn name(short: &str) -> RefName {
    RefName::new(format!("refs/heads/{}", short).into_bytes()).unwrap()
}

fn commit(b: u8, parents: &[u8]) -> Commit {
    Commit {
        id: id(b),
        parent_ids: parents.iter().map(|&p| id(p)).collect(),
        flags: CommitFlags { in_workspace: false, others: 0, shown: String::new() },
        refs: Vec::new(),
    }
}

fn to(src: Option<u8>, dst: Option<u8>, target: usize) -> Connection {
    Connection { src_id: src.map(id), dst_id: dst.map(id), target }
}

fn segment(short: Option<&str>, commits: Vec<Commit>, connections: Vec<Connection>) -> Segment {
    Segment {
        ref_info: short.map(|s| RefInfo { ref_name: name(s) }),
        commits,
        connections,
    }
}

fn graph(segments: Vec<Segment>) -> SegmentGraph {
    SegmentGraph {
        segments,
        entrypoint: Some((0, EntryPointCommit::SegmentTip)),
        hard_limit_hit: false,
        traversal_tips: Vec::new(),
    }
}

const WS: u8 = 9;

/// A workspace commit with two lanes and an empty one, above a common base.
fn workspace() -> SegmentGraph {
    graph(vec![
        segment(
            Some("workspace"),
            vec![commit(WS, &[2, 3])],
            vec![to(None, None, 4), to(Some(WS), Some(3), 2), to(Some(WS), Some(2), 1)],
        ),
        segment(Some("a"), vec![commit(2, &[1])], vec![to(Some(2), Some(1), 3)]),
        segment(Some("b"), vec![commit(3, &[1])], vec![to(Some(3), Some(1), 3)]),
        segment(Some("main"), vec![commit(1, &[])], vec![]),
        segment(Some("empty"), vec![], vec![to(None, Some(1), 3)]),
    ])
}

fn ledger_of(graph: &SegmentGraph, ws: Option<u8>) -> RefPlacements {
    let none = vec![];
    assert!(graph.is_wf());
    assert!(is_derivable(graph, &none, ws.map(id)));
    match but_graph::derivation::derive(graph, &none, ws.map(id)) {
        Ok(ledger) => ledger,
        Err(e) => panic!("{:?}", e),
    }
}

fn shown(r: &PlacedRef) -> (String, Option<ObjectId>, Option<String>, bool, Vec<(ObjectId, usize)>) {
    (
        String::from_utf8(r.name.shorten()).unwrap(),
        r.anchor,
        r.below.as_ref().map(|b| String::from_utf8(b.shorten()).unwrap()),
        r.ambiguous,
        r.approach.clone(),
    )
}

#[test]
fn references_are_placed_by_the_segments() {
    let ledger = ledger_of(&workspace(), Some(WS));
    let seen: Vec<_> = ledger.refs.iter().map(shown).collect();
    assert_eq!(
        seen,
        vec![
            ("workspace".to_string(), Some(id(WS)), None, false, vec![]),
            ("a".to_string(), Some(id(2)), None, false, vec![(id(WS), 1)]),
            ("b".to_string(), Some(id(3)), None, false, vec![(id(WS), 2)]),
            ("main".to_string(), Some(id(1)), None, true, vec![(id(2), 0), (id(3), 0)]),
            ("empty".to_string(), Some(id(1)), Some("main".to_string()), false, vec![(id(WS), 0)]),
        ]
    );
    // One parent for each lane, in the order of the ranks.
    assert_eq!(ledger.ws_parents, Some(vec![id(1), id(2), id(3)]));
    assert_eq!(ledger.head_refs.len(), 1);
    assert!(ledger.head_refs[0].same(&name("workspace")));
    assert_eq!(ledger.mutable_commits.len(), 4);
    assert!(ledger.refs.iter().all(|r| r.mutable));
}

#[test]
fn connections_without_a_parent_come_behind_the_parents() {
    let mut segments = workspace();
    segments.segments[0].connections[0] = to(Some(WS), None, 4);
    let ledger = ledger_of(&segments, Some(WS));
    assert_eq!(ledger.ws_parents, Some(vec![id(2), id(3), id(1)]));
    assert_eq!(shown(&ledger.refs[4]).4, vec![(id(WS), 2)]);
    assert_eq!(shown(&ledger.refs[1]).4, vec![(id(WS), 0)]);
}

#[test]
fn only_what_is_reachable_may_be_changed() {
    let mut segments = workspace();
    segments.entrypoint = Some((1, EntryPointCommit::SegmentTip));
    let ledger = ledger_of(&segments, None);
    let mutable: Vec<bool> = ledger.refs.iter().map(|r| r.mutable).collect();
    assert_eq!(mutable, vec![false, true, false, true, false]);
    assert!(ledger.mutable_commits.contains(&id(2)) && ledger.mutable_commits.contains(&id(1)));
    assert_eq!(ledger.mutable_commits.len(), 2);
    assert_eq!(ledger.ws_parents, None);

    let extra = vec![ExtraRef { name: name("b"), segment: Some(2) }];
    let ledger = but_graph::derivation::derive(&segments, &extra, None).unwrap_or_else(|_| panic!());
    assert!(ledger.refs[2].mutable && !ledger.refs[0].mutable);
    assert_eq!(ledger.mutable_commits.len(), 3);
}

#[test]
fn nothing_is_derived_without_an_entrypoint_or_an_extra_reference() {
    let mut segments = workspace();
    let extra = vec![
        ExtraRef { name: name("b"), segment: Some(2) },
        ExtraRef { name: name("missing"), segment: None },
    ];
    match but_graph::derivation::derive(&segments, &extra, None) {
        Err(DeriveError::UnknownRef(missing)) => assert!(missing.same(&name("missing"))),
        _ => panic!(),
    }
    segments.entrypoint = None;
    assert!(matches!(
        but_graph::derivation::derive(&segments, &extra, None),
        Err(DeriveError::NoEntrypoint)
    ));
}

#[test]
fn commits_lead_to_their_real_parents() {
    // The connection goes to the wrong segment, so the commit leads past the name of its parent.
    let segments = graph(vec![
        segment(Some("top"), vec![commit(2, &[1])], vec![to(Some(2), None, 2)]),
        segment(Some("low"), vec![commit(1, &[])], vec![]),
        segment(Some("other"), vec![commit(5, &[])], vec![]),
    ]);
    let ledger = ledger_of(&segments, None);
    assert_eq!(shown(&ledger.refs[1]).4, vec![]);
    assert_eq!(shown(&ledger.refs[2]).4, vec![]);

    // The workspace commit keeps what it has.
    let ledger = ledger_of(&segments, Some(2));
    assert_eq!(shown(&ledger.refs[2]).4, vec![(id(2), 0)]);
    assert_eq!(ledger.ws_parents, Some(vec![id(5)]));

    // So does one with a parent that is not there.
    let segments = graph(vec![
        segment(Some("top"), vec![commit(2, &[1, 7])], vec![to(Some(2), None, 2)]),
        segment(Some("low"), vec![commit(1, &[])], vec![]),
        segment(Some("other"), vec![commit(5, &[])], vec![]),
    ]);
    let ledger = ledger_of(&segments, None);
    assert_eq!(shown(&ledger.refs[2]).4, vec![(id(2), 0)]);
}

#[test]
fn places_that_lead_to_no_commit_are_given_up() {
    let segments = graph(vec![
        segment(
            Some("workspace"),
            vec![commit(WS, &[2, 3])],
            vec![to(Some(WS), Some(2), 1), to(Some(WS), Some(3), 2)],
        ),
        segment(Some("unborn"), vec![], vec![]),
        segment(Some("b"), vec![commit(3, &[])], vec![]),
    ]);
    let ledger = ledger_of(&segments, Some(WS));
    assert_eq!(shown(&ledger.refs[1]), ("unborn".to_string(), None, None, false, vec![]));
    assert_eq!(shown(&ledger.refs[2]).4, vec![(id(WS), 0)]);
    assert_eq!(ledger.ws_parents, Some(vec![id(3)]));
}

#[test]
fn a_commit_can_be_there_twice() {
    let mut segments = graph(vec![
        segment(
            Some("workspace"),
            vec![commit(WS, &[2, 3])],
            vec![to(Some(WS), Some(2), 1), to(Some(WS), Some(3), 2)],
        ),
        segment(Some("unborn"), vec![], vec![]),
        segment(Some("b"), vec![commit(3, &[])], vec![]),
        segment(Some("twin"), vec![commit(3, &[])], vec![]),
    ]);
    assert!(!has_distinct_commits(&segments));
    let ledger = ledger_of(&segments, Some(WS));
    assert_eq!(shown(&ledger.refs[2]).4, vec![(id(WS), 0)]);
    assert_eq!(shown(&ledger.refs[3]).1, Some(id(3)));

    // The place behind the one that is given up has room to move up once, and not twice.
    segments.segments.push(segment(Some("copy"), vec![commit(WS, &[2, 3])], vec![]));
    segments.segments[4].connections =
        vec![to(Some(WS), Some(2), 1), to(Some(WS), Some(3), 2)];
    assert!(!is_derivable(&segments, &vec![], Some(id(WS))));
    assert!(has_distinct_commits(&workspace()));
    assert!(is_derivable(&workspace(), &vec![], Some(id(WS))));
}

#[test]
fn references_on_commits_and_segments_without_anything_are_walked_through() {
    let mut tagged = commit(2, &[1]);
    tagged.refs = vec![RefInfo { ref_name: name("x") }, RefInfo { ref_name: name("y") }];
    let segments = graph(vec![
        segment(Some("top"), vec![tagged], vec![to(Some(2), Some(1), 1)]),
        segment(None, vec![], vec![to(None, None, 2)]),
        segment(Some("low"), vec![commit(1, &[])], vec![]),
    ]);
    let ledger = ledger_of(&segments, None);
    let seen: Vec<_> = ledger.refs.iter().map(shown).collect();
    assert_eq!(
        seen,
        vec![
            ("top".to_string(), Some(id(2)), Some("x".to_string()), false, vec![]),
            ("x".to_string(), Some(id(2)), Some("y".to_string()), false, vec![]),
            ("y".to_string(), Some(id(2)), None, false, vec![]),
            ("low".to_string(), Some(id(1)), None, false, vec![(id(2), 0)]),
        ]
    );
}

fn settings(sign: &str) -> PickSettings {
    PickSettings {
        pick_mode: "IfChanged".to_string(),
        sign_commit: sign.to_string(),
        exclude_from_tracking: false,
        conflictable: true,
        tree_merge_mode: "Merge".to_string(),
    }
}

fn defaults() -> PickDefaults {
    PickDefaults { pick: settings("Never"), workspace_pick: settings("Workspace"), mutable: true }
}

fn around() -> Surroundings<u8, u16, u32, u64> {
    Surroundings { repo: 1, history: 2, workspace: 3, meta: 4 }
}

fn from(segments: SegmentGraph, ws: Option<u8>) -> WorkspaceGraph {
    let commit_graph = CommitGraph::from_segment_graph(&segments);
    WorkspaceGraph { segments, commit_graph: Some(commit_graph), workspace_commit_id: ws.map(id) }
}

#[test]
fn an_editor_is_created_from_the_workspace() {
    let from = from(workspace(), Some(WS));
    assert!(from.is_editable(&vec![]));
    let editor = match Editor::create(&from, &defaults(), around()) {
        Ok(editor) => editor,
        Err(e) => panic!("{:?}", e),
    };
    assert_eq!((editor.repo, editor.history, editor.workspace, editor.meta), (1, 2, 3, 4));
    // Each node has the index that its commit has.
    let ids = from.commit_graph.as_ref().unwrap().commit_ids();
    assert_eq!(ids, vec![id(WS), id(2), id(3), id(1)]);
    for (i, wanted) in ids.iter().enumerate() {
        assert_eq!(editor.graph.commit_id(EditorGraphIndex::Node(i)), Some(*wanted));
    }
    let node = |i: usize| EditorGraphIndex::Node(i);
    assert_eq!(editor.graph.parents(node(0)), vec![node(3), node(1), node(2)]);
    assert_eq!(editor.graph.parents(node(1)), vec![node(3)]);
    let ws = editor.graph.pick_at(node(0)).unwrap();
    assert_eq!(ws.settings.sign_commit, "Workspace");
    let a = editor.graph.pick_at(node(1)).unwrap();
    assert_eq!(a.settings.sign_commit, "IfSignCommitsEnabled");
    assert!(a.mutable && a.preserved_parents.is_none());
    assert_eq!(editor.initial_references.len(), 5);
    assert_eq!(
        editor.checkouts,
        vec![Checkout::Head {
            selector: Selector { id: EditorGraphIndex::Ref(0) },
            merge_base_override: None,
        }]
    );
    // What was derived is what can be read back.
    let derived = ledger_of(&from.segments, Some(WS));
    let extracted = match extract(&editor.graph, &editor.checkouts, Some(id(WS))) {
        Ok(ledger) => ledger,
        Err(e) => panic!("{:?}", e),
    };
    assert!(assert_ledger_parity(&extracted, &derived).is_none());
}

#[test]
fn created_references_are_stacked() {
    let from = from(workspace(), Some(WS));
    let editor = Editor::create(&from, &defaults(), around()).unwrap_or_else(|_| panic!());
    assert_eq!(debug_assert_below_wellformed(&editor.graph), None);
    let (main, empty) = (EditorGraphIndex::Ref(3), EditorGraphIndex::Ref(4));
    assert_eq!(editor.graph.position_of(empty).unwrap().below, Some(main));
    assert_eq!(ref_depth(&editor.graph, empty), 1);
}

#[test]
fn parents_that_are_not_there_are_preserved() {
    let segments = graph(vec![
        segment(Some("top"), vec![commit(2, &[7, 1])], vec![to(Some(2), Some(1), 1)]),
        segment(Some("low"), vec![commit(1, &[])], vec![]),
    ]);
    let from = from(segments, None);
    let options = GraphEditorOptions {
        default_sign_commit: "Yes".to_string(),
        extra_mutable_refs: vec![],
    };
    let editor = Editor::create_with_opts(&from, &defaults(), around(), &options)
        .unwrap_or_else(|_| panic!());
    let top = editor.graph.pick_at(EditorGraphIndex::Node(0)).unwrap();
    assert_eq!(top.preserved_parents, Some(vec![id(7), id(1)]));
    assert_eq!(top.settings.sign_commit, "Yes");
    assert_eq!(editor.graph.parents(EditorGraphIndex::Node(0)), vec![EditorGraphIndex::Node(1)]);
}

#[test]
fn options_have_defaults() {
    let options = GraphEditorOptions::default();
    assert_eq!(options.default_sign_commit, "IfSignCommitsEnabled");
    assert!(options.extra_mutable_refs.is_empty());
}

#[test]
fn there_is_no_editor_without_a_ledger_or_commits() {
    let mut none = from(workspace(), Some(WS));
    none.commit_graph = None;
    assert!(matches!(
        Editor::create(&none, &defaults(), around()),
        Err(EditorError::Create(CreationError::NoCommitGraph))
    ));
    let mut nowhere = from(workspace(), Some(WS));
    nowhere.segments.entrypoint = None;
    assert!(matches!(
        Editor::create(&nowhere, &defaults(), around()),
        Err(EditorError::Derive(DeriveError::NoEntrypoint))
    ));
    let options = GraphEditorOptions {
        default_sign_commit: "Yes".to_string(),
        extra_mutable_refs: vec![ExtraRef { name: name("gone"), segment: None }],
    };
    assert!(matches!(
        Editor::create_with_opts(&from(workspace(), Some(WS)), &defaults(), around(), &options),
        Err(EditorError::Derive(DeriveError::UnknownRef(_)))
    ));
    // A commit of the segments is not in the commit graph.
    let mut foreign = from(workspace(), None);
    foreign.commit_graph = Some(CommitGraph::from_commits(vec![commit(WS, &[])], None));
    assert!(foreign.is_editable(&vec![]));
    assert!(matches!(
        Editor::create(&foreign, &defaults(), around()),
        Err(EditorError::Create(CreationError::UnknownAnchor(i))) if i == id(2)
    ));
    foreign.workspace_commit_id = Some(id(WS));
    assert!(!foreign.is_editable(&vec![]));
}

fn placed(short: &str, anchor: Option<u8>, below: Option<&str>, approach: Vec<(u8, usize)>) -> PlacedRef {
    PlacedRef {
        name: name(short),
        mutable: true,
        anchor: anchor.map(id),
        below: below.map(name),
        ambiguous: false,
        approach: approach.into_iter().map(|(b, s)| (id(b), s)).collect(),
    }
}

fn small_ledger(refs: Vec<PlacedRef>, heads: &[&str]) -> RefPlacements {
    RefPlacements {
        refs,
        mutable_commits: SortedSet::new(),
        head_refs: heads.iter().map(|h| name(h)).collect(),
        ws_parents: None,
    }
}

fn create_from(ledger: &RefPlacements) -> Result<Creation, CreationError> {
    let cg = CommitGraph::from_commits(vec![commit(2, &[1]), commit(1, &[])], None);
    create_native(Some(&cg), None, &defaults(), &GraphEditorOptions::default(), ledger)
}

#[test]
fn a_ledger_has_to_name_what_is_there() {
    let unknown = |ledger: RefPlacements| match create_from(&ledger) {
        Ok(_) => panic!(),
        Err(e) => e,
    };
    assert!(matches!(
        unknown(small_ledger(vec![placed("x", Some(8), None, vec![])], &[])),
        CreationError::UnknownAnchor(i) if i == id(8)
    ));
    assert!(matches!(
        unknown(small_ledger(vec![placed("x", Some(1), Some("y"), vec![])], &[])),
        CreationError::UnknownBelow(n) if n.same(&name("y"))
    ));
    assert!(matches!(
        unknown(small_ledger(vec![placed("x", Some(1), None, vec![(8, 0)])], &[])),
        CreationError::UnknownSource(i) if i == id(8)
    ));
    assert!(matches!(
        unknown(small_ledger(vec![placed("x", Some(1), None, vec![(2, 0)])], &["x", "z"])),
        CreationError::UnknownHead(n) if n.same(&name("z"))
    ));
    let made = create_from(&small_ledger(vec![placed("x", None, Some("y"), vec![])], &[]))
        .unwrap_or_else(|_| panic!());
    assert_eq!(made.graph.position_of(EditorGraphIndex::Ref(0)), None);
    assert!(!made.graph.pick_at(EditorGraphIndex::Node(0)).unwrap().mutable);
}

#[test]
fn creations_are_compared_by_ids_and_names() {
    let ledger = || small_ledger(
        vec![placed("x", Some(1), Some("y"), vec![(2, 0)]), placed("y", Some(1), None, vec![(2, 0)])],
        &["x"],
    );
    let a = create_from(&ledger()).unwrap_or_else(|_| panic!());
    let b = create_from(&ledger()).unwrap_or_else(|_| panic!());
    assert!(matches!(assert_native_parity(&a, &b, None), Ok(None)));

    let mut other = ledger();
    other.refs[1].ambiguous = true;
    let c = create_from(&other).unwrap_or_else(|_| panic!());
    match assert_native_parity(&a, &c, None) {
        Ok(Some(NativeDivergence::Refs(d))) => {
            assert_eq!(d.first_only.len(), 1);
            assert!(d.first_only[0].name.same(&name("y")) && !d.first_only[0].ambiguous);
            assert!(d.second_only[0].ambiguous);
        }
        _ => panic!(),
    }

    let mut rewritten = ledger();
    rewritten.mutable_commits.insert(id(2));
    let d = create_from(&rewritten).unwrap_or_else(|_| panic!());
    match assert_native_parity(&a, &d, None) {
        Ok(Some(NativeDivergence::Picks { first_only, second_only })) => {
            assert_eq!(first_only, vec![id(2)]);
            assert_eq!(second_only, vec![id(2)]);
        }
        _ => panic!(),
    }

    let mut fewer = create_from(&ledger()).unwrap_or_else(|_| panic!());
    fewer.initial_references.pop();
    assert!(matches!(
        assert_native_parity(&a, &fewer, None),
        Ok(Some(NativeDivergence::InitialReferences))
    ));

    // Another index for the same reference: one that was removed comes first.
    let mut shifted = EditorGraph::new();
    for pick in [2u8, 1u8] {
        shifted.add_node(Pick {
            id: id(pick),
            settings: settings("IfSignCommitsEnabled"),
            preserved_parents: None,
            mutable: false,
        });
    }
    shifted.push_parent(EditorGraphIndex::Node(0), EditorGraphIndex::Node(1));
    shifted.add_reference(name("gone"), true);
    shifted.refs[0].live = false;
    let x = shifted.add_reference(name("x"), true);
    let y = shifted.add_reference(name("y"), true);
    let leg = vec![(EditorGraphIndex::Node(0), 0usize)];
    shifted.set_position(x, EditorGraphIndex::Node(1), &leg, false, Some(y));
    shifted.set_position(y, EditorGraphIndex::Node(1), &leg, false, None);
    let e = Creation {
        graph: shifted,
        initial_references: vec![name("x"), name("y")],
        checkouts: vec![Checkout::Head { selector: Selector { id: x }, merge_base_override: None }],
    };
    assert!(matches!(assert_native_parity(&a, &e, None), Ok(Some(NativeDivergence::RefArenaOrder))));
}

#[test]
fn ledgers_differ_in_references_and_commits() {
    let mut a = small_ledger(vec![placed("x", Some(1), None, vec![])], &[]);
    let b = small_ledger(vec![placed("x", Some(2), None, vec![])], &[]);
    a.mutable_commits.insert(id(1));
    let d = assert_ledger_parity(&a, &b).unwrap();
    assert_eq!(d.first_only[0].anchor, Some(id(1)));
    assert_eq!(d.second_only[0].anchor, Some(id(2)));
    assert_eq!(d.first_mutable, vec![id(1)]);
    assert!(d.second_mutable.is_empty());
}

fn bare_pick(b: u8) -> Pick {
    Pick { id: id(b), settings: settings("No"), preserved_parents: None, mutable: b == 1 }
}

#[test]
fn only_a_fresh_graph_has_a_ledger() {
    let mut graph = EditorGraph::new();
    let low = graph.add_node(bare_pick(1));
    let top = graph.add_node(bare_pick(2));
    graph.push_parent(top, low);
    let x = graph.add_reference(name("x"), true);
    let y = graph.add_reference(name("y"), false);
    graph.set_position(x, low, &vec![(top, 0)], false, Some(y));
    graph.set_position(y, low, &vec![(top, 0)], false, None);
    let head = |id| vec![Checkout::Head { selector: Selector { id }, merge_base_override: None }];

    let ledger = extract(&graph, &head(x), Some(id(2))).unwrap_or_else(|_| panic!());
    assert_eq!(shown(&ledger.refs[0]), (
        "x".to_string(),
        Some(id(1)),
        Some("y".to_string()),
        false,
        vec![(id(2), 0)],
    ));
    assert!(!ledger.refs[1].mutable);
    assert_eq!(ledger.mutable_commits.len(), 1);
    assert_eq!(ledger.ws_parents, Some(vec![id(1)]));

    let fails = |graph: &EditorGraph, at, ws| match extract(graph, &head(at), ws) {
        Ok(_) => panic!(),
        Err(e) => e,
    };
    assert_eq!(fails(&graph, top, None), PlacementError::CheckoutNotARef);
    graph.push_parent(top, x);
    assert_eq!(fails(&graph, x, Some(id(2))), PlacementError::ParentNotAPick);
    assert_eq!(canonical_picks(&graph).err(), Some(PlacementError::ParentNotAPick));
    graph.refs[1].live = false;
    assert_eq!(fails(&graph, x, None), PlacementError::DeadBelow);
    graph.nodes[0].pick = None;
    assert_eq!(fails(&graph, x, None), PlacementError::Unresolved);

    let mut twice = EditorGraph::new();
    twice.add_node(bare_pick(1));
    twice.add_node(bare_pick(1));
    assert_eq!(canonical_picks(&twice).err(), Some(PlacementError::DuplicatePick(id(1))));
}

/// A commit above a name that is connected with two of its parents, and above a third parent.
fn split_name(first: Connection, second: Connection) -> SegmentGraph {
    graph(vec![
        segment(
            Some("top"),
            vec![commit(5, &[1, 2, 3])],
            vec![to(Some(5), Some(1), 1), to(Some(5), Some(3), 4)],
        ),
        segment(Some("split"), vec![], vec![first, second]),
        segment(Some("one"), vec![commit(1, &[])], vec![]),
        segment(Some("two"), vec![commit(2, &[])], vec![]),
        segment(Some("three"), vec![commit(3, &[])], vec![]),
    ])
}

fn read_back(from: &WorkspaceGraph) -> bool {
    let ws = from.workspace_commit_id;
    let editor = Editor::create(from, &defaults(), around()).unwrap_or_else(|_| panic!());
    let extracted = extract(&editor.graph, &editor.checkouts, ws).unwrap_or_else(|_| panic!());
    let derived = but_graph::derivation::derive(&from.segments, &vec![], ws)
        .unwrap_or_else(|_| panic!());
    assert_ledger_parity(&extracted, &derived).is_none()
}

#[test]
fn a_name_above_two_commits_is_not_read_back() {
    let segments = || split_name(to(None, Some(1), 2), to(None, Some(2), 3));
    let ledger = ledger_of(&segments(), None);
    let three = ledger.refs.iter().find(|r| r.name.same(&name("three"))).unwrap();
    // The name is one parent here, and the commit has two parents through it.
    assert_eq!(three.approach, vec![(id(5), 1)]);
    let cg = CommitGraph::from_segment_graph(&segments());
    assert_eq!(cg.parents(id(5))[1], id(2));
    assert!(!read_back(&from(segments(), None)));
    // Connected with one commit only, all is read back.
    let mut straight = segments();
    straight.segments[1].connections.remove(1);
    straight.segments[0].connections.push(to(Some(5), Some(2), 3));
    assert!(read_back(&from(straight, None)));
    assert!(read_back(&from(workspace(), Some(WS))));
}

#[test]
fn a_name_that_is_there_twice_is_not_read_back() {
    let segments = |low: &str| {
        graph(vec![
            segment(Some("top"), vec![commit(2, &[1])], vec![to(Some(2), Some(1), 1)]),
            segment(Some(low), vec![commit(1, &[])], vec![]),
        ])
    };
    assert!(read_back(&from(segments("low"), None)));
    let twice = from(segments("top"), None);
    let editor = Editor::create(&twice, &defaults(), around()).unwrap_or_else(|_| panic!());
    let extracted =
        extract(&editor.graph, &editor.checkouts, None).unwrap_or_else(|_| panic!());
    // One of both has a place, and the other has none.
    assert_eq!(extracted.refs.iter().filter(|r| r.anchor.is_none()).count(), 1);
    assert!(ledger_of(&twice.segments, None).refs.iter().all(|r| r.anchor.is_some()));
}
