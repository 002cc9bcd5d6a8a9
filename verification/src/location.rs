use vstd::prelude::*;
use crate::path::Path;
use crate::point::Point;
use crate::range::Range;

verus! {

/// Any of the three ways to name a place in a document.
pub enum Location {
    Path(Path),
    Point(Point),
    Range(Range),
}

/// Two paths that delimit a region of a document: its first position and the
/// position just past its last.
pub struct Span(pub Path, pub Path);

} // verus!
