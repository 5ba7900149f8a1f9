//! The steps of a rebase: commits to pick and references to set.

use crate::commit::clone_ids;
use crate::names::{ObjectId, RefName};
use crate::text::{truth, truth_text};
use vstd::prelude::*;
use vstd::string::*;

verus! {

/// How a commit is picked. The modes are given by the text that they are shown as.
#[derive(Debug)]
pub struct PickSettings {
    /// When the commit is picked anew.
    pub pick_mode: String,
    /// Whether the new commit is signed.
    pub sign_commit: String,
    /// Whether the commit stays out of the mapping from old to new commits.
    pub exclude_from_tracking: bool,
    /// Whether the new commit may hold conflicts.
    pub conflictable: bool,
    /// How the trees are merged.
    pub tree_merge_mode: String,
}

/// A commit to pick.
#[derive(Debug)]
pub struct Pick {
    /// The id of the commit.
    pub id: ObjectId,
    /// How the commit is picked.
    pub settings: PickSettings,
    /// The parents that the commit keeps, where they are not all in the graph.
    pub preserved_parents: Option<Vec<ObjectId>>,
    /// Whether the commit may be rewritten.
    pub mutable: bool,
}

/// A step of a rebase.
#[derive(Debug)]
pub enum Step {
    /// A commit is picked.
    Pick(Pick),
    /// A reference is set.
    Reference {
        /// The name of the reference.
        refname: RefName,
    },
    /// Nothing is done: the step was removed, or never was one.
    Blank,
}

/// What [`PickSettings`] stand for.
#[verifier::ext_equal]
pub struct SettingsView {
    /// When the commit is picked anew.
    pub pick_mode: Seq<char>,
    /// Whether the new commit is signed.
    pub sign_commit: Seq<char>,
    /// Whether the commit stays out of the mapping from old to new commits.
    pub exclude_from_tracking: bool,
    /// Whether the new commit may hold conflicts.
    pub conflictable: bool,
    /// How the trees are merged.
    pub tree_merge_mode: Seq<char>,
}

/// What a [`Pick`] stands for.
#[verifier::ext_equal]
pub struct PickView {
    /// The id of the commit.
    pub id: ObjectId,
    /// How the commit is picked.
    pub settings: SettingsView,
    /// The parents that the commit keeps, where they are not all in the graph.
    pub preserved_parents: Option<Seq<ObjectId>>,
    /// Whether the commit may be rewritten.
    pub mutable: bool,
}

/// What a [`Step`] stands for.
#[verifier::ext_equal]
pub enum StepView {
    /// A commit is picked.
    Pick(PickView),
    /// A reference is set.
    Reference(Seq<u8>),
    /// Nothing is done.
    Blank,
}

/// The ids of an optional list.
pub open spec fn opt_ids(ids: Option<Vec<ObjectId>>) -> Option<Seq<ObjectId>> {
    match ids {
        Some(ids) => Some(ids@),
        None => None,
    }
}

impl View for PickSettings {
    type V = SettingsView;

    open spec fn view(&self) -> SettingsView {
        SettingsView {
            pick_mode: self.pick_mode@,
            sign_commit: self.sign_commit@,
            exclude_from_tracking: self.exclude_from_tracking,
            conflictable: self.conflictable,
            tree_merge_mode: self.tree_merge_mode@,
        }
    }
}

impl View for Pick {
    type V = PickView;

    open spec fn view(&self) -> PickView {
        PickView {
            id: self.id,
            settings: self.settings@,
            preserved_parents: opt_ids(self.preserved_parents),
            mutable: self.mutable,
        }
    }
}

impl View for Step {
    type V = StepView;

    open spec fn view(&self) -> StepView {
        match self {
            Step::Pick(pick) => StepView::Pick(pick@),
            Step::Reference { refname } => StepView::Reference(refname@),
            Step::Blank => StepView::Blank,
        }
    }
}

/// A copy of the ids, if there are some.
pub fn clone_opt_ids(ids: &Option<Vec<ObjectId>>) -> (r: Option<Vec<ObjectId>>)
    ensures
        opt_ids(r) == opt_ids(*ids),
{
    match ids {
        Some(ids) => Some(clone_ids(ids)),
        None => None,
    }
}

impl Clone for PickSettings {
    fn clone(&self) -> (r: Self)
        ensures
            r@ == self@,
    {
        PickSettings {
            pick_mode: self.pick_mode.clone(),
            sign_commit: self.sign_commit.clone(),
            exclude_from_tracking: self.exclude_from_tracking,
            conflictable: self.conflictable,
            tree_merge_mode: self.tree_merge_mode.clone(),
        }
    }
}

impl Clone for Pick {
    fn clone(&self) -> (r: Self)
        ensures
            r@ == self@,
    {
        Pick {
            id: self.id,
            settings: self.settings.clone(),
            preserved_parents: clone_opt_ids(&self.preserved_parents),
            mutable: self.mutable,
        }
    }
}

impl Clone for Step {
    fn clone(&self) -> (r: Self)
        ensures
            r@ == self@,
    {
        match self {
            Step::Pick(pick) => Step::Pick(pick.clone()),
            Step::Reference { refname } => Step::Reference { refname: refname.clone() },
            Step::Blank => Step::Blank,
        }
    }
}

/// The settings as one text.
pub open spec fn flavor(settings: SettingsView) -> Seq<char> {
    settings.pick_mode + "/"@ + settings.sign_commit + "/"@ + truth(settings.exclude_from_tracking)
        + "/"@ + truth(settings.conflictable) + "/"@ + settings.tree_merge_mode
}

impl PickSettings {
    /// The settings as one text.
    pub fn flavor_text(&self) -> (r: String)
        ensures
            r@ == flavor(self@),
    {
        let mut r = self.pick_mode.clone();
        r.append("/");
        r.append(self.sign_commit.as_str());
        r.append("/");
        r.append(truth_text(self.exclude_from_tracking));
        r.append("/");
        r.append(truth_text(self.conflictable));
        r.append("/");
        r.append(self.tree_merge_mode.as_str());
        r
    }

    /// Whether both are the same settings.
    pub fn same(&self, other: &PickSettings) -> (r: bool)
        ensures
            r == (self@ == other@),
    {
        self.pick_mode == other.pick_mode && self.sign_commit == other.sign_commit
            && self.exclude_from_tracking == other.exclude_from_tracking && self.conflictable
            == other.conflictable && self.tree_merge_mode == other.tree_merge_mode
    }
}

/// Whether both are the same ids, or neither is there.
pub fn same_opt_ids(a: &Option<Vec<ObjectId>>, b: &Option<Vec<ObjectId>>) -> (r: bool)
    ensures
        r == (opt_ids(*a) == opt_ids(*b)),
{
    match (a, b) {
        (Some(a), Some(b)) => crate::commit::same_ids(a, b),
        (None, None) => true,
        _ => false,
    }
}

impl Pick {
    /// Whether both are the same pick.
    pub fn same(&self, other: &Pick) -> (r: bool)
        ensures
            r == (self@ == other@),
    {
        self.id == other.id && self.settings.same(&other.settings) && same_opt_ids(
            &self.preserved_parents,
            &other.preserved_parents,
        ) && self.mutable == other.mutable
    }
}

} // verus!
