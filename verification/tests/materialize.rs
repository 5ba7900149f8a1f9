use but_graph::editor_graph::{EditorGraph, EditorGraphIndex};
use but_graph::materialize::{
    assert_write_through_parity, projection_fingerprint, Change, LogChange, MaterializeError,
    PreviousValue, RefEdit, RefLog, SuccessfulRebase, Target,
};
use but_graph::names::{ObjectId, RefName};
use but_graph::placements::{Checkout, Selector};
use but_graph::stacks::{Stack, StackSegment};
use but_graph::step::{Pick, PickSettings};

fn id(b: u8) -> ObjectId {
    ObjectId { hi: (b as u128) << 120, lo: 0 }
}

fn hex(first: &str) -> String {
    format!("{}{}", first, "0".repeat(40 - first.len()))
}

fn name(short: &str) -> RefName {
    RefName::new(format!("refs/heads/{}", short).into_bytes()).unwrap()
}

fn pick(b: u8) -> Pick {
    Pick {
        id: id(b),
        settings: PickSettings {
            pick_mode: "IfChanged".to_string(),
            sign_commit: "No".to_string(),
            exclude_from_tracking: false,
            conflictable: true,
            tree_merge_mode: "Merge".to_string(),
        },
        preserved_parents: None,
        mutable: true,
    }
}

fn head(ix: EditorGraphIndex, base: Option<u8>) -> Checkout {
    Checkout::Head { selector: Selector { id: ix }, merge_base_override: base.map(id) }
}

fn edit() -> RefEdit {
    RefEdit {
        change: Change::Delete { expected: PreviousValue::MustExist, mode: RefLog::AndReference },
        name: b"refs/heads/old".to_vec(),
        deref: false,
    }
}

/// A commit with the branch `main`, a branch that is nowhere, and what is left of a commit.
fn rebase(checkouts: Vec<Checkout>) -> SuccessfulRebase<u8, u16, u32, u64> {
    let mut graph = EditorGraph::new();
    let low = graph.add_node(pick(1));
    graph.add_node(pick(2));
    graph.nodes[1].pick = None;
    let main = graph.add_reference(name("main"), true);
    graph.add_reference(name("unborn"), true);
    graph.set_position(main, low, &vec![], false, None);
    SuccessfulRebase {
        graph,
        initial_references: vec![name("main")],
        ref_edits: vec![edit()],
        checkouts,
        repo: 1,
        history: 2,
        workspace: 3,
        meta: 4,
    }
}

#[test]
fn head_goes_to_the_reference_that_is_selected() {
    let plan = rebase(vec![head(EditorGraphIndex::Ref(0), Some(7))]).materialize();
    assert_eq!(plan.failure, None);
    assert_eq!(plan.checkouts.len(), 1);
    assert_eq!(plan.checkouts[0].new_head, id(1));
    assert_eq!(plan.checkouts[0].options.merge_base_override, Some(id(7)));
    assert!(plan.checkouts[0].options.skip_head_update);
    assert!(plan.checkouts[0].options.allow_conflicted_commit_checkout);
    let (edits, repo, outcome) = plan.all_ref_edits(&Some(name("other")));
    assert_eq!((repo, outcome.history, outcome.workspace, outcome.meta), (1, 2, 3, 4));
    assert_eq!(outcome.graph.refs.len(), 2);
    assert_eq!(edits.len(), 2);
    assert_eq!(edits[0].name, b"refs/heads/old".to_vec());
    assert_eq!(edits[1].name, b"HEAD".to_vec());
    assert!(!edits[1].deref);
    match &edits[1].change {
        Change::Update {
            log: LogChange { mode: RefLog::AndReference, force_create_reflog: false, message },
            expected: PreviousValue::Any,
            new: Target::Symbolic(to),
        } => {
            assert_eq!(message.as_slice(), b"safe checkout (initial): main");
            assert!(to.same(&name("main")));
        }
        other => panic!("{:?}", other),
    }
}

#[test]
fn head_stays_where_it_is_to_be() {
    let plan = rebase(vec![head(EditorGraphIndex::Ref(0), None)]).materialize();
    assert_eq!(plan.all_ref_edits(&Some(name("main"))).0.len(), 1);
    // A detached head is at no reference.
    let plan = rebase(vec![head(EditorGraphIndex::Ref(0), None)]).materialize();
    assert_eq!(plan.all_ref_edits(&None).0.len(), 2);
    // A commit is checked out as it is, and the last checkout decides.
    let plan = rebase(vec![
        head(EditorGraphIndex::Ref(0), None),
        head(EditorGraphIndex::Node(0), None),
    ])
    .materialize();
    assert_eq!(plan.checkouts.len(), 2);
    assert!(plan.head_reference_update.is_none());
    assert_eq!(plan.all_ref_edits(&None).0.len(), 1);
}

#[test]
fn nothing_is_done_after_a_failure() {
    let plan = rebase(vec![
        head(EditorGraphIndex::Node(0), None),
        head(EditorGraphIndex::Node(1), None),
        head(EditorGraphIndex::Ref(1), None),
    ])
    .materialize();
    assert_eq!(plan.checkouts.len(), 1);
    assert_eq!(plan.failure, Some(MaterializeError::SelectsNothing));
    assert_eq!(plan.failure.unwrap().to_text(), "Checkout selector is pointing to none");
    let plan = rebase(vec![head(EditorGraphIndex::Ref(1), None)]).materialize();
    assert_eq!(plan.failure, Some(MaterializeError::NoCommitToReference));
    assert_eq!(plan.failure.unwrap().to_text(), "No commit to reference");
}

#[test]
fn a_rebase_can_be_made_real_without_a_checkout() {
    let plan = rebase(vec![head(EditorGraphIndex::Node(1), None)]).materialize_without_checkout();
    assert!(plan.checkouts.is_empty() && plan.failure.is_none());
    let (edits, _, outcome) = plan.all_ref_edits(&None);
    assert_eq!(edits.len(), 1);
    assert_eq!(outcome.meta, 4);
}

#[test]
fn a_rebase_can_be_edited_again() {
    let editor = rebase(vec![head(EditorGraphIndex::Ref(0), None)]).into_editor();
    assert_eq!((editor.repo, editor.history, editor.workspace, editor.meta), (1, 2, 3, 4));
    assert_eq!(editor.checkouts, vec![head(EditorGraphIndex::Ref(0), None)]);
    assert_eq!(editor.initial_references.len(), 1);
    assert_eq!(editor.graph.commit_id(EditorGraphIndex::Node(0)), Some(id(1)));
}

fn stacks() -> Vec<Stack> {
    vec![Stack {
        id: "Some(7)".to_string(),
        segments: vec![
            StackSegment { name: Some(name("a")), base: Some(id(1)), commits: vec![id(3), id(2)] },
            StackSegment { name: None, base: None, commits: vec![] },
        ],
    }]
}

#[test]
fn projections_have_fingerprints() {
    assert_eq!(
        projection_fingerprint(&stacks()),
        format!(
            "stack Some(7)\n  refs/heads/a base=Some(Sha1({})) commits=[{}, {}]\n  <anon> base=None commits=[]\n",
            hex("01"),
            hex("03"),
            hex("02")
        )
    );
    assert_eq!(projection_fingerprint(&vec![]), "");
}

#[test]
fn projections_have_to_be_the_same() {
    assert_eq!(assert_write_through_parity(&None, &stacks()), None);
    assert_eq!(assert_write_through_parity(&Some(stacks()), &stacks()), None);
    let short = vec![Stack { id: "None".to_string(), segments: vec![] }];
    assert_eq!(
        assert_write_through_parity(&Some(short), &vec![]).unwrap(),
        "WRITE-THROUGH DIVERGENCE\n--- mutate-then-project\nstack None\n\n--- rewalk-then-project\n"
    );
}
