use vstd::prelude::*;
use vstd::std_specs::cmp::PartialEqSpecImpl;
use vstd::std_specs::cmp::PartialOrdSpecImpl;
use vstd::utf8::encode_utf8;
use std::cmp::Ordering;
use crate::operation::Operation;
use crate::operation::OperationView;
use crate::path::Affinity;
use crate::path::Path;
use crate::path::after;
use crate::path::ancestor_of;
use crate::path::before;
use crate::path::below_root;
use crate::path::representable;
use crate::path::transformed;

verus! {

/// What a point is: the path of a text leaf and an offset into its string.
pub struct PointView {
    pub path: Seq<int>,
    pub offset: int,
}

/// `a` comes before `b`: its path comes first in document order, or neither
/// path comes first and its offset is the smaller one.
pub open spec fn point_before(a: PointView, b: PointView) -> bool {
    before(a.path, b.path) || (!after(a.path, b.path) && a.offset < b.offset)
}

/// `a` comes after `b`: its path comes later in document order, or neither
/// path comes first and its offset is the larger one.
pub open spec fn point_after(a: PointView, b: PointView) -> bool {
    after(a.path, b.path) || (!before(a.path, b.path) && a.offset > b.offset)
}

/// How two points compare: by path, then by offset.
pub open spec fn point_order(a: PointView, b: PointView) -> Ordering {
    if point_before(a, b) {
        Ordering::Less
    } else if point_after(a, b) {
        Ordering::Greater
    } else {
        Ordering::Equal
    }
}

/// How many bytes the string `text` holds in its UTF-8 form, in which
/// offsets are counted.
pub open spec fn byte_len(text: Seq<char>) -> int {
    encode_utf8(text).len() as int
}

/// How many of the `len` bytes removed at `removed_at` stood before `offset`.
pub open spec fn removed_before(offset: int, removed_at: int, len: int) -> int {
    if offset <= removed_at {
        0
    } else if offset - removed_at <= len {
        offset - removed_at
    } else {
        len
    }
}

/// Where the point `pt` is found after `op` has been applied, if it is still
/// in the document.
///
/// Inserted text at or before the point pushes it right; removed text before
/// it pulls it left. A merge carries the points of the merged node over to
/// the end of the preceding one. A split carries the points behind the cut
/// over to the new node; a point exactly at the cut goes with `affinity`, and
/// is lost with no affinity. A point in a removed node is lost.
pub open spec fn point_transformed(pt: PointView, op: OperationView, affinity: Affinity) -> Option<
    PointView,
> {
    match op {
        OperationView::InsertNode { .. } | OperationView::MoveNode { .. } => {
            match transformed(pt.path, op, affinity) {
                Some(path) => Some(PointView { path, offset: pt.offset }),
                None => None,
            }
        },
        OperationView::InsertText { path, offset, text } => {
            if path == pt.path && offset <= pt.offset {
                Some(PointView { path: pt.path, offset: pt.offset + byte_len(text) })
            } else {
                Some(pt)
            }
        },
        OperationView::RemoveText { path, offset, text } => {
            if path == pt.path || ancestor_of(path, pt.path) {
                Some(
                    PointView {
                        path: pt.path,
                        offset: pt.offset - removed_before(pt.offset, offset, byte_len(text)),
                    },
                )
            } else {
                Some(pt)
            }
        },
        OperationView::MergeNode { path, position, .. } => {
            let offset = if path == pt.path {
                pt.offset + position
            } else {
                pt.offset
            };
            match transformed(pt.path, op, affinity) {
                Some(path) => Some(PointView { path, offset }),
                None => None,
            }
        },
        OperationView::RemoveNode { path, .. } => {
            if path == pt.path || ancestor_of(path, pt.path) {
                None
            } else {
                match transformed(pt.path, op, affinity) {
                    Some(path) => Some(PointView { path, offset: pt.offset }),
                    None => None,
                }
            }
        },
        OperationView::SplitNode { path, position, .. } => {
            if path == pt.path {
                if position == pt.offset && affinity == Affinity::Neither {
                    None
                } else if position < pt.offset || (position == pt.offset && affinity
                    == Affinity::Forward) {
                    match transformed(pt.path, op, Affinity::Forward) {
                        Some(path) => Some(PointView { path, offset: pt.offset - position }),
                        None => None,
                    }
                } else {
                    Some(pt)
                }
            } else {
                match transformed(pt.path, op, affinity) {
                    Some(path) => Some(PointView { path, offset: pt.offset }),
                    None => None,
                }
            }
        },
        _ => Some(pt),
    }
}

/// The point that `point_transformed` gives, if any, is one that a point can
/// hold.
pub open spec fn point_transform_fits(pt: PointView, op: OperationView, affinity: Affinity) -> bool {
    match point_transformed(pt, op, affinity) {
        Some(q) => representable(q.path) && 0 <= q.offset <= usize::MAX,
        None => true,
    }
}

/// What an optional point is.
pub open spec fn optional_point_view(o: Option<Point>) -> Option<PointView> {
    match o {
        Some(p) => Some(p@),
        None => None,
    }
}

/// A position inside a text leaf: the leaf's path and an offset into its
/// string, counted in bytes.
#[derive(Debug, Eq)]
pub struct Point {
    pub path: Path,
    pub offset: usize,
}

impl View for Point {
    type V = PointView;

    open spec fn view(&self) -> PointView {
        PointView { path: self.path@, offset: self.offset as int }
    }
}

impl Clone for Point {
    fn clone(&self) -> (r: Point)
        ensures
            r@ == self@,
    {
        Point { path: self.path.clone(), offset: self.offset }
    }
}

impl PartialEq for Point {
    fn eq(&self, other: &Point) -> (r: bool) {
        self.path == other.path && self.offset == other.offset
    }
}

impl PartialEqSpecImpl for Point {
    open spec fn obeys_eq_spec() -> bool {
        true
    }

    open spec fn eq_spec(&self, other: &Point) -> bool {
        self@ == other@
    }
}

impl PartialOrd for Point {
    fn partial_cmp(&self, other: &Point) -> (r: Option<Ordering>) {
        Some(self.cmp(other))
    }
}

impl PartialOrdSpecImpl for Point {
    open spec fn obeys_partial_cmp_spec() -> bool {
        true
    }

    open spec fn partial_cmp_spec(&self, other: &Point) -> Option<Ordering> {
        Some(point_order(self@, other@))
    }
}

impl Point {
    /// How this point compares with `other`: by path, then by offset.
    pub fn cmp(&self, other: &Point) -> (o: Ordering)
        ensures
            o == point_order(self@, other@),
    {
        if self.is_before(other) {
            Ordering::Less
        } else if self.is_after(other) {
            Ordering::Greater
        } else {
            Ordering::Equal
        }
    }

    /// Whether this point comes after `another`.
    pub fn is_after(&self, another: &Point) -> (r: bool)
        ensures
            r == point_after(self@, another@),
    {
        if self.path.is_after(&another.path) {
            true
        } else if self.path.is_before(&another.path) {
            false
        } else {
            self.offset > another.offset
        }
    }

    /// Whether this point comes before `another`.
    pub fn is_before(&self, another: &Point) -> (r: bool)
        ensures
            r == point_before(self@, another@),
    {
        if self.path.is_before(&another.path) {
            true
        } else if self.path.is_after(&another.path) {
            false
        } else {
            self.offset < another.offset
        }
    }

    /// Where the point is found after `op` has been applied: the new point,
    /// or nothing if its place is no longer in the document. `affinity`
    /// decides for a point exactly where a node is split.
    pub fn transform(point: &Point, op: &Operation, affinity: Affinity) -> (r: Option<Point>)
        requires
            point@.path.len() > 0 ==> below_root(op@),
            point_transform_fits(point@, op@, affinity),
        ensures
            optional_point_view(r) == point_transformed(point@, op@, affinity),
    {
        let mut path = point.path.clone();
        let mut offset = point.offset;
        match op {
            Operation::InsertNode { .. } | Operation::MoveNode { .. } => {
                match Path::transform(&point.path, op, affinity) {
                    Some(p) => {
                        path = p;
                    },
                    None => {
                        return None;
                    },
                }
            },
            Operation::InsertText { path: op_path, offset: op_offset, text } => {
                if *op_path == point.path && *op_offset <= offset {
                    offset = offset + text.as_str().as_bytes().len();
                }
            },
            Operation::MergeNode { path: op_path, position, .. } => {
                if *op_path == point.path {
                    offset = offset + *position;
                }
                match Path::transform(&point.path, op, affinity) {
                    Some(p) => {
                        path = p;
                    },
                    None => {
                        return None;
                    },
                }
            },
            Operation::RemoveText { path: op_path, offset: op_offset, text } => {
                if *op_path == point.path || op_path.is_ancestor(&point.path) {
                    if offset > *op_offset {
                        let len = text.as_str().as_bytes().len();
                        let gap = offset - *op_offset;
                        if gap <= len {
                            offset = offset - gap;
                        } else {
                            offset = offset - len;
                        }
                    }
                }
            },
            Operation::RemoveNode { path: op_path, .. } => {
                if *op_path == point.path || op_path.is_ancestor(&point.path) {
                    return None;
                }
                match Path::transform(&point.path, op, affinity) {
                    Some(p) => {
                        path = p;
                    },
                    None => {
                        return None;
                    },
                }
            },
            Operation::SplitNode { path: op_path, position, .. } => {
                if *op_path == point.path {
                    if *position == offset && affinity == Affinity::Neither {
                        return None;
                    } else if *position < offset || (*position == offset && affinity
                        == Affinity::Forward) {
                        offset = offset - *position;
                        match Path::transform(&point.path, op, Affinity::Forward) {
                            Some(p) => {
                                path = p;
                            },
                            None => {
                                return None;
                            },
                        }
                    }
                } else {
                    match Path::transform(&point.path, op, affinity) {
                        Some(p) => {
                            path = p;
                        },
                        None => {
                            return None;
                        },
                    }
                }
            },
            _ => {},
        }
        Some(Point { path, offset })
    }
}

} // verus!
