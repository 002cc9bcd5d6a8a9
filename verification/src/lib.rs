//! The document model of a rich-text editor: a tree of elements and text
//! leaves, paths, points and ranges that name places in it, the operations
//! that change it, and how places move when an operation is applied.

pub mod editor;
pub mod element;
pub mod location;
pub mod node;
pub mod operation;
pub mod path;
pub mod point;
pub mod range;
pub mod round_trip;
pub mod text;
pub mod traversal;

pub use editor::Editor;
pub use element::Element;
pub use location::Location;
pub use location::Span;
pub use node::Node;
pub use operation::Operation;
pub use path::Path;
pub use point::Point;
pub use range::Range;
pub use text::Text;
