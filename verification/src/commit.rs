//! Commits as the traversal yields them.

use crate::names::{ObjectId, RefName};
use vstd::prelude::*;
use vstd::string::*;

verus! {

/// What the traversal found out about a commit, with the text that it is shown as.
#[derive(Debug)]
pub struct CommitFlags {
    /// Going up from the commit leads to at least one tip that is a workspace.
    pub in_workspace: bool,
    /// All other flags, goals among them, one bit each.
    pub others: u64,
    /// The text.
    pub shown: String,
}

/// What [`CommitFlags`] stand for.
#[verifier::ext_equal]
pub struct FlagsView {
    /// Going up from the commit leads to at least one tip that is a workspace.
    pub in_workspace: bool,
    /// All other flags.
    pub others: u64,
    /// The text.
    pub shown: Seq<char>,
}

impl View for CommitFlags {
    type V = FlagsView;

    open spec fn view(&self) -> FlagsView {
        FlagsView { in_workspace: self.in_workspace, others: self.others, shown: self.shown@ }
    }
}

/// The same flags are set, whatever they are shown as.
pub open spec fn same_flags(a: FlagsView, b: FlagsView) -> bool {
    a.in_workspace == b.in_workspace && a.others == b.others
}

impl CommitFlags {
    /// The flags as they stand in reports.
    pub fn debug_string(&self) -> (r: String)
        ensures
            r@ == self@.shown,
    {
        self.shown.clone()
    }

    /// Whether the same flags are set.
    pub fn same(&self, other: &CommitFlags) -> (r: bool)
        ensures
            r == same_flags(self@, other@),
    {
        self.in_workspace == other.in_workspace && self.others == other.others
    }
}

impl Clone for CommitFlags {
    fn clone(&self) -> (r: Self)
        ensures
            r@ == self@,
    {
        CommitFlags {
            in_workspace: self.in_workspace,
            others: self.others,
            shown: self.shown.clone(),
        }
    }
}

/// A reference that points at a commit or names a segment.
#[derive(Debug)]
pub struct RefInfo {
    /// The name of the reference.
    pub ref_name: RefName,
}

/// A commit of the traversal.
#[derive(Debug)]
pub struct Commit {
    /// The id of the commit.
    pub id: ObjectId,
    /// The ids of the parents, the first parent first.
    pub parent_ids: Vec<ObjectId>,
    /// What the traversal found out about the commit.
    pub flags: CommitFlags,
    /// The references that point at the commit.
    pub refs: Vec<RefInfo>,
}

/// A tip that a traversal started at, by the text it is shown as.
#[derive(Debug)]
pub struct Tip {
    /// The text.
    pub shown: String,
}

/// What a [`Commit`] stands for.
#[verifier::ext_equal]
pub struct CommitView {
    /// The id of the commit.
    pub id: ObjectId,
    /// The ids of the parents, the first parent first.
    pub parent_ids: Seq<ObjectId>,
    /// What the traversal found out about the commit.
    pub flags: FlagsView,
    /// The names of the references that point at the commit.
    pub refs: Seq<Seq<u8>>,
}

impl View for RefInfo {
    type V = Seq<u8>;

    open spec fn view(&self) -> Seq<u8> {
        self.ref_name@
    }
}

impl View for Tip {
    type V = Seq<char>;

    open spec fn view(&self) -> Seq<char> {
        self.shown@
    }
}

/// The names of `refs`.
pub open spec fn ref_names(refs: Seq<RefInfo>) -> Seq<Seq<u8>> {
    refs.map_values(|r: RefInfo| r@)
}

/// The names themselves.
pub open spec fn names_view(names: Seq<RefName>) -> Seq<Seq<u8>> {
    names.map_values(|n: RefName| n@)
}

/// What the tips are shown as.
pub open spec fn tips_view(tips: Seq<Tip>) -> Seq<Seq<char>> {
    tips.map_values(|t: Tip| t@)
}

impl View for Commit {
    type V = CommitView;

    open spec fn view(&self) -> CommitView {
        CommitView {
            id: self.id,
            parent_ids: self.parent_ids@,
            flags: self.flags@,
            refs: ref_names(self.refs@),
        }
    }
}

/// What `commits` stand for.
pub open spec fn commits_view(commits: Seq<Commit>) -> Seq<CommitView> {
    commits.map_values(|c: Commit| c@)
}

impl Clone for RefInfo {
    fn clone(&self) -> (r: Self)
        ensures
            r@ == self@,
    {
        RefInfo { ref_name: self.ref_name.clone() }
    }
}

impl Clone for Tip {
    fn clone(&self) -> (r: Self)
        ensures
            r@ == self@,
    {
        Tip { shown: self.shown.clone() }
    }
}

/// A copy of the ids.
pub fn clone_ids(ids: &Vec<ObjectId>) -> (r: Vec<ObjectId>)
    ensures
        r@ == ids@,
{
    let r = ids.clone();
    assert(r@ =~= ids@);
    r
}

/// A copy of the references.
pub fn clone_refs(refs: &Vec<RefInfo>) -> (r: Vec<RefInfo>)
    ensures
        ref_names(r@) == ref_names(refs@),
{
    let mut r: Vec<RefInfo> = Vec::new();
    let mut i: usize = 0;
    while i < refs.len()
        invariant
            i <= refs@.len(),
            ref_names(r@) =~= ref_names(refs@).take(i as int),
        decreases refs.len() - i,
    {
        let ghost before = r@;
        r.push(refs[i].clone());
        assert(ref_names(r@) =~= ref_names(before).push(refs@[i as int]@));
        i += 1;
    }
    r
}

/// Whether both hold the same names in the same order.
pub fn same_refs(a: &Vec<RefInfo>, b: &Vec<RefInfo>) -> (r: bool)
    ensures
        r == (ref_names(a@) == ref_names(b@)),
{
    if a.len() != b.len() {
        assert(ref_names(a@).len() != ref_names(b@).len());
        return false;
    }
    let mut i: usize = 0;
    while i < a.len()
        invariant
            i <= a@.len(),
            a@.len() == b@.len(),
            forall|j: int| 0 <= j < i ==> ref_names(a@)[j] == ref_names(b@)[j],
        decreases a.len() - i,
    {
        if !a[i].ref_name.same(&b[i].ref_name) {
            assert(ref_names(a@)[i as int] != ref_names(b@)[i as int]);
            return false;
        }
        i += 1;
    }
    assert(ref_names(a@) =~= ref_names(b@));
    true
}

/// A copy of the name, if there is one.
pub fn clone_opt_name(name: &Option<RefName>) -> (r: Option<RefName>)
    ensures
        opt_name(r) == opt_name(*name),
{
    match name {
        Some(name) => Some(name.clone()),
        None => None,
    }
}

/// What an optional name stands for.
pub open spec fn opt_name(name: Option<RefName>) -> Option<Seq<u8>> {
    match name {
        Some(name) => Some(name@),
        None => None,
    }
}

/// Whether both are the same name, or neither is there.
pub fn same_opt_name(a: &Option<RefName>, b: &Option<RefName>) -> (r: bool)
    ensures
        r == (opt_name(*a) == opt_name(*b)),
{
    match (a, b) {
        (Some(a), Some(b)) => a.same(b),
        (None, None) => true,
        _ => false,
    }
}

/// A copy of the tips.
pub fn clone_tips(tips: &Vec<Tip>) -> (r: Vec<Tip>)
    ensures
        tips_view(r@) == tips_view(tips@),
{
    let mut r: Vec<Tip> = Vec::new();
    let mut i: usize = 0;
    while i < tips.len()
        invariant
            i <= tips@.len(),
            tips_view(r@) =~= tips_view(tips@).take(i as int),
        decreases tips.len() - i,
    {
        let ghost before = r@;
        r.push(tips[i].clone());
        assert(tips_view(r@) =~= tips_view(before).push(tips@[i as int]@));
        i += 1;
    }
    r
}

impl Clone for Commit {
    fn clone(&self) -> (r: Self)
        ensures
            r@ == self@,
    {
        Commit {
            id: self.id,
            parent_ids: clone_ids(&self.parent_ids),
            flags: self.flags.clone(),
            refs: clone_refs(&self.refs),
        }
    }
}

/// Whether both hold the same ids in the same order.
pub fn same_ids(a: &Vec<ObjectId>, b: &Vec<ObjectId>) -> (r: bool)
    ensures
        r == (a@ == b@),
{
    if a.len() != b.len() {
        return false;
    }
    let mut i: usize = 0;
    while i < a.len()
        invariant
            i <= a@.len(),
            a@.len() == b@.len(),
            forall|j: int| 0 <= j < i ==> a@[j] == b@[j],
        decreases a.len() - i,
    {
        if a[i] != b[i] {
            return false;
        }
        i += 1;
    }
    assert(a@ =~= b@);
    true
}

} // verus!
