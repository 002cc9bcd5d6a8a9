use vstd::prelude::*;
use vstd::std_specs::cmp::PartialEqSpecImpl;
use crate::operation::Operation;
use crate::operation::OperationView;
use crate::path;
use crate::path::Path;
use crate::path::after;
use crate::path::before;
use crate::path::below_root;
use crate::point::Point;
use crate::point::PointView;
use crate::point::point_after;
use crate::point::point_before;
use crate::point::point_transform_fits;
use crate::point::point_transformed;

verus! {

/// What a range is: its two end points, in the order they were given.
pub struct RangeView {
    pub anchor: PointView,
    pub focus: PointView,
}

/// The range runs backward: its anchor comes after its focus.
pub open spec fn backward(r: RangeView) -> bool {
    point_after(r.anchor, r.focus)
}

/// The end point of the range that comes first.
pub open spec fn start_of(r: RangeView) -> PointView {
    if backward(r) {
        r.focus
    } else {
        r.anchor
    }
}

/// The end point of the range that comes last.
pub open spec fn end_of(r: RangeView) -> PointView {
    if backward(r) {
        r.anchor
    } else {
        r.focus
    }
}

/// The path lies between the paths of the two ends of the range, those
/// included.
pub open spec fn covers_path(r: RangeView, target: Seq<int>) -> bool {
    !before(target, start_of(r).path) && !after(target, end_of(r).path)
}

/// The point lies between the two ends of the range, those included.
pub open spec fn covers_point(r: RangeView, target: PointView) -> bool {
    !point_before(target, start_of(r)) && !point_after(target, end_of(r))
}

/// The two ranges meet: an end of `target` lies in `r`, or `target` starts
/// before `r` and ends after it.
pub open spec fn covers_range(r: RangeView, target: RangeView) -> bool {
    ||| covers_point(r, target.anchor)
    ||| covers_point(r, target.focus)
    ||| (point_before(start_of(target), start_of(r)) && point_after(end_of(target), end_of(r)))
}

/// The later of the two starts.
pub open spec fn later_start(a: RangeView, b: RangeView) -> PointView {
    if point_before(start_of(a), start_of(b)) {
        start_of(b)
    } else {
        start_of(a)
    }
}

/// The earlier of the two ends.
pub open spec fn earlier_end(a: RangeView, b: RangeView) -> PointView {
    if point_before(end_of(a), end_of(b)) {
        end_of(a)
    } else {
        end_of(b)
    }
}

/// What the two ranges share: the forward range from the later start to the
/// earlier end, unless that end comes before that start.
pub open spec fn intersection_of(a: RangeView, b: RangeView) -> Option<RangeView> {
    if point_before(earlier_end(a, b), later_start(a, b)) {
        None
    } else {
        Some(RangeView { anchor: later_start(a, b), focus: earlier_end(a, b) })
    }
}

/// Which way each end of a range leans when an operation cuts the document
/// exactly there.
#[derive(Debug, Clone, Copy, PartialEq, Eq, Structural)]
pub enum Affinity {
    /// Both ends lean forward.
    Forward,
    /// Both ends lean backward.
    Backward,
    /// The ends lean away from each other, so that the range grows.
    Outward,
    /// The ends lean towards each other, so that the range shrinks.
    Inward,
    /// No leaning: an end that is cut exactly is lost.
    Neither,
}

impl Default for Affinity {
    fn default() -> (r: Affinity)
        ensures
            r == Affinity::Inward,
    {
        Affinity::Inward
    }
}

/// How the anchor of `r` leans under `affinity`.
pub open spec fn anchor_affinity(r: RangeView, affinity: Affinity) -> path::Affinity {
    match affinity {
        Affinity::Inward => if backward(r) {
            path::Affinity::Backward
        } else {
            path::Affinity::Forward
        },
        Affinity::Outward => if backward(r) {
            path::Affinity::Forward
        } else {
            path::Affinity::Backward
        },
        Affinity::Forward => path::Affinity::Forward,
        Affinity::Backward => path::Affinity::Backward,
        Affinity::Neither => path::Affinity::Neither,
    }
}

/// How the focus of `r` leans under `affinity`.
pub open spec fn focus_affinity(r: RangeView, affinity: Affinity) -> path::Affinity {
    match affinity {
        Affinity::Inward => if backward(r) {
            path::Affinity::Forward
        } else {
            path::Affinity::Backward
        },
        Affinity::Outward => if backward(r) {
            path::Affinity::Backward
        } else {
            path::Affinity::Forward
        },
        Affinity::Forward => path::Affinity::Forward,
        Affinity::Backward => path::Affinity::Backward,
        Affinity::Neither => path::Affinity::Neither,
    }
}

/// Where the range `r` is found after `op` has been applied: each end goes
/// where the operation takes it, leaning as `affinity` says. The range is
/// lost if either end is.
pub open spec fn range_transformed(r: RangeView, op: OperationView, affinity: Affinity) -> Option<
    RangeView,
> {
    match (
        point_transformed(r.anchor, op, anchor_affinity(r, affinity)),
        point_transformed(r.focus, op, focus_affinity(r, affinity)),
    ) {
        (Some(anchor), Some(focus)) => Some(RangeView { anchor, focus }),
        _ => None,
    }
}

/// What an optional range is.
pub open spec fn optional_range_view(o: Option<Range>) -> Option<RangeView> {
    match o {
        Some(r) => Some(r@),
        None => None,
    }
}

/// A span of a document between two points. The anchor is where the span was
/// started and the focus where it ends; the focus may lie before the anchor.
#[derive(Debug, Eq)]
pub struct Range {
    anchor: Point,
    focus: Point,
}

impl View for Range {
    type V = RangeView;

    closed spec fn view(&self) -> RangeView {
        RangeView { anchor: self.anchor@, focus: self.focus@ }
    }
}

impl Clone for Range {
    fn clone(&self) -> (r: Range)
        ensures
            r@ == self@,
    {
        Range { anchor: self.anchor.clone(), focus: self.focus.clone() }
    }
}

impl PartialEq for Range {
    fn eq(&self, other: &Range) -> (r: bool) {
        self.anchor == other.anchor && self.focus == other.focus
    }
}

impl PartialEqSpecImpl for Range {
    open spec fn obeys_eq_spec() -> bool {
        true
    }

    open spec fn eq_spec(&self, other: &Range) -> bool {
        self@ == other@
    }
}

impl Range {
    /// The range from `anchor` to `focus`.
    pub fn new(anchor: Point, focus: Point) -> (r: Range)
        ensures
            r@ == (RangeView { anchor: anchor@, focus: focus@ }),
    {
        Range { anchor, focus }
    }

    /// The two ends of the range in document order: the start and then the
    /// end, or the end and then the start when `reverse` is set.
    pub fn edges(&self, reverse: bool) -> (r: (&Point, &Point))
        ensures
            r.0@ == if reverse {
                end_of(self@)
            } else {
                start_of(self@)
            },
            r.1@ == if reverse {
                start_of(self@)
            } else {
                end_of(self@)
            },
    {
        if self.is_backward() == reverse {
            (&self.anchor, &self.focus)
        } else {
            (&self.focus, &self.anchor)
        }
    }

    /// Whether the path lies between the paths of the two ends of the range,
    /// those included.
    pub fn includes_path(&self, target: &Path) -> (r: bool)
        ensures
            r == covers_path(self@, target@),
    {
        let (start, end) = self.edges(false);
        let is_after_start = !target.is_before(&start.path);
        let is_before_end = !target.is_after(&end.path);
        is_after_start && is_before_end
    }

    /// Whether the point lies between the two ends of the range, those
    /// included.
    pub fn includes_point(&self, target: &Point) -> (r: bool)
        ensures
            r == covers_point(self@, target@),
    {
        let (start, end) = self.edges(false);
        let is_after_start = !target.is_before(start);
        let is_before_end = !target.is_after(end);
        is_after_start && is_before_end
    }

    /// Whether the two ranges meet: an end of `target` lies in this range, or
    /// `target` starts before this range and ends after it.
    pub fn includes_range(&self, target: &Range) -> (r: bool)
        ensures
            r == covers_range(self@, target@),
    {
        if self.includes_point(&target.anchor) || self.includes_point(&target.focus) {
            return true;
        }
        let (rs, re) = self.edges(false);
        let (ts, te) = target.edges(false);
        ts.is_before(rs) && te.is_after(re)
    }

    /// What the two ranges share: the forward range from the later start to
    /// the earlier end, or nothing where that end comes before that start.
    pub fn intersection(&self, another: &Range) -> (r: Option<Range>)
        ensures
            optional_range_view(r) == intersection_of(self@, another@),
    {
        let (s1, e1) = self.edges(false);
        let (s2, e2) = another.edges(false);
        let start = if s1.is_before(s2) {
            s2
        } else {
            s1
        };
        let end = if e1.is_before(e2) {
            e1
        } else {
            e2
        };
        if end.is_before(start) {
            None
        } else {
            Some(Range { anchor: start.clone(), focus: end.clone() })
        }
    }

    /// Whether the anchor comes after the focus.
    pub fn is_backward(&self) -> (r: bool)
        ensures
            r == backward(self@),
    {
        self.anchor.is_after(&self.focus)
    }

    /// Whether the two ends are the same point.
    pub fn is_collapsed(&self) -> (r: bool)
        ensures
            r == (self@.anchor == self@.focus),
    {
        self.anchor == self.focus
    }

    /// Whether the two ends are different points.
    pub fn is_expanded(&self) -> (r: bool)
        ensures
            r == (self@.anchor != self@.focus),
    {
        !self.is_collapsed()
    }

    /// Whether the anchor does not come after the focus.
    pub fn is_forward(&self) -> (r: bool)
        ensures
            r == !backward(self@),
    {
        !self.is_backward()
    }

    /// The end of the range that comes first.
    pub fn start(&self) -> (r: Point)
        ensures
            r@ == start_of(self@),
    {
        let (s, _) = self.edges(false);
        s.clone()
    }

    /// Where the range is found after `op` has been applied: the new range,
    /// or nothing if either end is no longer in the document. `affinity`
    /// says which way each end leans where a node is split exactly there.
    pub fn transform(range: &Range, op: &Operation, affinity: Affinity) -> (r: Option<Range>)
        requires
            range@.anchor.path.len() > 0 || range@.focus.path.len() > 0 ==> below_root(op@),
            point_transform_fits(range@.anchor, op@, anchor_affinity(range@, affinity)),
            point_transform_fits(range@.focus, op@, focus_affinity(range@, affinity)),
        ensures
            optional_range_view(r) == range_transformed(range@, op@, affinity),
    {
        let (affinity_anchor, affinity_focus) = match affinity {
            Affinity::Inward => {
                if range.is_forward() {
                    (path::Affinity::Forward, path::Affinity::Backward)
                } else {
                    (path::Affinity::Backward, path::Affinity::Forward)
                }
            },
            Affinity::Outward => {
                if range.is_forward() {
                    (path::Affinity::Backward, path::Affinity::Forward)
                } else {
                    (path::Affinity::Forward, path::Affinity::Backward)
                }
            },
            Affinity::Forward => (path::Affinity::Forward, path::Affinity::Forward),
            Affinity::Backward => (path::Affinity::Backward, path::Affinity::Backward),
            Affinity::Neither => (path::Affinity::Neither, path::Affinity::Neither),
        };
        let anchor = Point::transform(&range.anchor, op, affinity_anchor);
        let focus = Point::transform(&range.focus, op, affinity_focus);
        match (anchor, focus) {
            (Some(anchor), Some(focus)) => Some(Range { anchor, focus }),
            _ => None,
        }
    }

    /// The two ends of the range as they were given: the anchor and then the
    /// focus.
    pub fn points(&self) -> (r: (&Point, &Point))
        ensures
            r.0@ == self@.anchor,
            r.1@ == self@.focus,
    {
        (&self.anchor, &self.focus)
    }
}

} // verus!
