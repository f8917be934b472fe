//! The elements of a compiled route pattern.

use vstd::prelude::*;

verus! {

/// One element of a route pattern.
#[derive(Debug, PartialEq)]
pub enum Segment {
    /// Matches exactly one path segment equal to the text.
    Static(String),
    /// Matches exactly one path segment and binds it to the name.
    Param(String),
    /// Matches all path segments that are left, and ends the pattern.
    Continue,
}

/// What a `Segment` stands for.
pub enum SegmentView {
    Static(Seq<char>),
    Param(Seq<char>),
    Continue,
}

impl View for Segment {
    type V = SegmentView;

    open spec fn view(&self) -> SegmentView {
        match self {
            Segment::Static(text) => SegmentView::Static(text@),
            Segment::Param(name) => SegmentView::Param(name@),
            Segment::Continue => SegmentView::Continue,
        }
    }
}

impl Clone for Segment {
    fn clone(&self) -> (copy: Self)
        ensures
            copy == *self,
    {
        match self {
            Segment::Static(text) => Segment::Static(text.clone()),
            Segment::Param(name) => Segment::Param(name.clone()),
            Segment::Continue => Segment::Continue,
        }
    }
}

/// What each segment of `v` stands for, in order.
pub open spec fn pattern_view(v: Seq<Segment>) -> Seq<SegmentView> {
    Seq::new(v.len(), |i: int| v[i]@)
}

/// A pattern in which `Continue` stands nowhere but in the last place.
pub open spec fn continue_only_last(pattern: Seq<SegmentView>) -> bool {
    forall|i: int| 0 <= i < pattern.len() - 1 ==> !(#[trigger] pattern[i] is Continue)
}

/// A pattern that ends in `Continue`, and so takes any number of further
/// path segments.
pub open spec fn is_open(pattern: Seq<SegmentView>) -> bool {
    pattern.len() > 0 && pattern[pattern.len() - 1] is Continue
}

/// The number of segments of the pattern that each take exactly one path
/// segment: all of them but a closing `Continue`.
pub open spec fn fixed_len(pattern: Seq<SegmentView>) -> int {
    if is_open(pattern) {
        pattern.len() - 1
    } else {
        pattern.len() as int
    }
}

} // verus!
