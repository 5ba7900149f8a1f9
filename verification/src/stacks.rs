//! The stacks that a workspace shows.

use crate::commit::opt_name;
use crate::names::{ObjectId, RefName};
use vstd::prelude::*;
use vstd::string::*;

verus! {

/// A segment of a stack.
#[derive(Debug)]
pub struct StackSegment {
    /// The name of the segment.
    pub name: Option<RefName>,
    /// The commit that the segment rests on.
    pub base: Option<ObjectId>,
    /// The commits, from the tip down.
    pub commits: Vec<ObjectId>,
}

/// A stack of segments.
#[derive(Debug)]
pub struct Stack {
    /// The id of the stack, or that there is none, as it is shown in reports.
    pub id: String,
    /// The segments, from the tip down.
    pub segments: Vec<StackSegment>,
}

/// What a [`StackSegment`] stands for.
#[verifier::ext_equal]
pub struct StackSegmentView {
    /// The name of the segment.
    pub name: Option<Seq<u8>>,
    /// The commit that the segment rests on.
    pub base: Option<ObjectId>,
    /// The commits, from the tip down.
    pub commits: Seq<ObjectId>,
}

/// What a [`Stack`] stands for.
#[verifier::ext_equal]
pub struct StackView {
    /// The id of the stack, or that there is none, as it is shown in reports.
    pub id: Seq<char>,
    /// The segments, from the tip down.
    pub segments: Seq<StackSegmentView>,
}

impl View for StackSegment {
    type V = StackSegmentView;

    open spec fn view(&self) -> StackSegmentView {
        StackSegmentView { name: opt_name(self.name), base: self.base, commits: self.commits@ }
    }
}

/// What the segments stand for.
pub open spec fn stack_segments_view(segments: Seq<StackSegment>) -> Seq<StackSegmentView> {
    segments.map_values(|s: StackSegment| s@)
}

impl View for Stack {
    type V = StackView;

    open spec fn view(&self) -> StackView {
        StackView { id: self.id@, segments: stack_segments_view(self.segments@) }
    }
}

/// What the stacks stand for.
pub open spec fn stacks_view(stacks: Seq<Stack>) -> Seq<StackView> {
    stacks.map_values(|s: Stack| s@)
}

} // verus!
