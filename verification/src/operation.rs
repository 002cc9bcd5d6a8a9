use vstd::prelude::*;
use vstd::std_specs::cmp::PartialEqSpecImpl;
use crate::node::Node;
use crate::node::NodeView;
use crate::node::node_view;
use crate::path::Affinity;
use crate::path::Path;
use crate::path::ancestor_of;
use crate::path::moved;
use crate::path::next_of;
use crate::path::previous_of;
use crate::path::representable;
use crate::path::sibling_of;
use crate::path::transformed;
use crate::range::Range;
use crate::range::RangeView;

verus! {

/// What an operation is.
#[allow(inconsistent_fields)]
pub enum OperationView {
    InsertNode { node: NodeView, path: Seq<int> },
    InsertText { path: Seq<int>, offset: int, text: Seq<char> },
    MergeNode { path: Seq<int>, position: int, properties: NodeView },
    MoveNode { path: Seq<int>, new_path: Seq<int> },
    RemoveNode { path: Seq<int>, node: NodeView },
    RemoveText { path: Seq<int>, offset: int, text: Seq<char> },
    SetNode { path: Seq<int>, properties: Option<NodeView>, new_properties: Option<NodeView> },
    SetSelection {
        path: Seq<int>,
        properties: Option<RangeView>,
        new_properties: Option<RangeView>,
    },
    SplitNode { path: Seq<int>, position: int, properties: NodeView },
}

/// One atomic change to a document.
#[allow(inconsistent_fields)]
#[derive(Debug)]
pub enum Operation {
    InsertNode { node: Node, path: Path },
    InsertText { path: Path, offset: usize, text: String },
    MergeNode { path: Path, position: usize, properties: Node },
    MoveNode { path: Path, new_path: Path },
    RemoveNode { path: Path, node: Node },
    RemoveText { path: Path, offset: usize, text: String },
    SetNode { path: Path, properties: Option<Node>, new_properties: Option<Node> },
    SetSelection { path: Path, properties: Option<Range>, new_properties: Option<Range> },
    SplitNode { path: Path, position: usize, properties: Node },
}

pub open spec fn operation_view(op: Operation) -> OperationView
    decreases op,
{
    match op {
        Operation::InsertNode { node, path } => OperationView::InsertNode {
            node: node_view(node),
            path: path@,
        },
        Operation::InsertText { path, offset, text } => OperationView::InsertText {
            path: path@,
            offset: offset as int,
            text: text@,
        },
        Operation::MergeNode { path, position, properties } => OperationView::MergeNode {
            path: path@,
            position: position as int,
            properties: node_view(properties),
        },
        Operation::MoveNode { path, new_path } => OperationView::MoveNode {
            path: path@,
            new_path: new_path@,
        },
        Operation::RemoveNode { path, node } => OperationView::RemoveNode {
            path: path@,
            node: node_view(node),
        },
        Operation::RemoveText { path, offset, text } => OperationView::RemoveText {
            path: path@,
            offset: offset as int,
            text: text@,
        },
        Operation::SetNode { path, properties, new_properties } => OperationView::SetNode {
            path: path@,
            properties: match properties {
                Some(n) => Some(node_view(n)),
                None => None,
            },
            new_properties: match new_properties {
                Some(n) => Some(node_view(n)),
                None => None,
            },
        },
        Operation::SetSelection { path, properties, new_properties } => {
            OperationView::SetSelection {
                path: path@,
                properties: match properties {
                    Some(r) => Some(r@),
                    None => None,
                },
                new_properties: match new_properties {
                    Some(r) => Some(r@),
                    None => None,
                },
            }
        },
        Operation::SplitNode { path, position, properties } => OperationView::SplitNode {
            path: path@,
            position: position as int,
            properties: node_view(properties),
        },
    }
}

impl Clone for Operation {
    fn clone(&self) -> (r: Operation)
        ensures
            r@ == self@,
        decreases self,
    {
        match self {
            Operation::InsertNode { node, path } => Operation::InsertNode {
                node: node.clone(),
                path: path.clone(),
            },
            Operation::InsertText { path, offset, text } => Operation::InsertText {
                path: path.clone(),
                offset: *offset,
                text: text.clone(),
            },
            Operation::MergeNode { path, position, properties } => Operation::MergeNode {
                path: path.clone(),
                position: *position,
                properties: properties.clone(),
            },
            Operation::MoveNode { path, new_path } => Operation::MoveNode {
                path: path.clone(),
                new_path: new_path.clone(),
            },
            Operation::RemoveNode { path, node } => Operation::RemoveNode {
                path: path.clone(),
                node: node.clone(),
            },
            Operation::RemoveText { path, offset, text } => Operation::RemoveText {
                path: path.clone(),
                offset: *offset,
                text: text.clone(),
            },
            Operation::SetNode { path, properties, new_properties } => Operation::SetNode {
                path: path.clone(),
                properties: match properties {
                    Some(n) => Some(n.clone()),
                    None => None,
                },
                new_properties: match new_properties {
                    Some(n) => Some(n.clone()),
                    None => None,
                },
            },
            Operation::SetSelection { path, properties, new_properties } => {
                Operation::SetSelection {
                    path: path.clone(),
                    properties: match properties {
                        Some(r) => Some(r.clone()),
                        None => None,
                    },
                    new_properties: match new_properties {
                        Some(r) => Some(r.clone()),
                        None => None,
                    },
                }
            },
            Operation::SplitNode { path, position, properties } => Operation::SplitNode {
                path: path.clone(),
                position: *position,
                properties: properties.clone(),
            },
        }
    }
}

/// Whether the two optional nodes are the same.
fn same_node(a: &Option<Node>, b: &Option<Node>) -> (r: bool)
    ensures
        r == (match (*a, *b) {
            (Some(x), Some(y)) => x@ == y@,
            (None, None) => true,
            _ => false,
        }),
    decreases a,
{
    match (a, b) {
        (Some(x), Some(y)) => x.same(y),
        (None, None) => true,
        _ => false,
    }
}

/// Whether the two optional ranges are the same.
fn same_range(a: &Option<Range>, b: &Option<Range>) -> (r: bool)
    ensures
        r == (match (*a, *b) {
            (Some(x), Some(y)) => x@ == y@,
            (None, None) => true,
            _ => false,
        }),
{
    match (a, b) {
        (Some(x), Some(y)) => x == y,
        (None, None) => true,
        _ => false,
    }
}

impl Operation {
    /// Whether the two operations are the same.
    pub fn same(&self, other: &Operation) -> (r: bool)
        ensures
            r == (self@ == other@),
        decreases self,
    {
        match self {
            Operation::InsertNode { node: n1, path: p1 } => match other {
                Operation::InsertNode { node: n2, path: p2 } => n1.same(n2) && p1 == p2,
                _ => false,
            },
            Operation::InsertText { path: p1, offset: o1, text: t1 } => match other {
                Operation::InsertText { path: p2, offset: o2, text: t2 } => p1 == p2 && *o1
                    == *o2 && *t1 == *t2,
                _ => false,
            },
            Operation::MergeNode { path: p1, position: o1, properties: n1 } => match other {
                Operation::MergeNode { path: p2, position: o2, properties: n2 } => p1 == p2
                    && *o1 == *o2 && n1.same(n2),
                _ => false,
            },
            Operation::MoveNode { path: p1, new_path: q1 } => match other {
                Operation::MoveNode { path: p2, new_path: q2 } => p1 == p2 && q1 == q2,
                _ => false,
            },
            Operation::RemoveNode { path: p1, node: n1 } => match other {
                Operation::RemoveNode { path: p2, node: n2 } => p1 == p2 && n1.same(n2),
                _ => false,
            },
            Operation::RemoveText { path: p1, offset: o1, text: t1 } => match other {
                Operation::RemoveText { path: p2, offset: o2, text: t2 } => p1 == p2 && *o1
                    == *o2 && *t1 == *t2,
                _ => false,
            },
            Operation::SetNode { path: p1, properties: a1, new_properties: b1 } => match other {
                Operation::SetNode { path: p2, properties: a2, new_properties: b2 } => p1 == p2
                    && same_node(a1, a2) && same_node(b1, b2),
                _ => false,
            },
            Operation::SetSelection {
                path: p1,
                properties: a1,
                new_properties: b1,
            } => match other {
                Operation::SetSelection { path: p2, properties: a2, new_properties: b2 } => p1
                    == p2 && same_range(a1, a2) && same_range(b1, b2),
                _ => false,
            },
            Operation::SplitNode { path: p1, position: o1, properties: n1 } => match other {
                Operation::SplitNode { path: p2, position: o2, properties: n2 } => p1 == p2
                    && *o1 == *o2 && n1.same(n2),
                _ => false,
            },
        }
    }
}

impl PartialEq for Operation {
    fn eq(&self, other: &Operation) -> (r: bool) {
        self.same(other)
    }
}

impl PartialEqSpecImpl for Operation {
    open spec fn obeys_eq_spec() -> bool {
        true
    }

    open spec fn eq_spec(&self, other: &Operation) -> bool {
        self@ == other@
    }
}

impl View for Operation {
    type V = OperationView;

    open spec fn view(&self) -> OperationView {
        operation_view(*self)
    }
}

/// The operation that undoes `op`.
///
/// Inserting and removing undo each other, and so do merging and splitting: a
/// merge is undone by a split of the preceding sibling, a split by a merge of
/// the following one. Setting is undone by setting back. A move within one
/// parent is undone by the move back. Any other move is undone by moving the
/// node from where it went to where the move has left its old place: those
/// are the places that the move takes the node's own path and the path of its
/// following sibling to.
pub open spec fn inverse_of(op: OperationView) -> OperationView {
    match op {
        OperationView::InsertNode { node, path } => OperationView::RemoveNode { path, node },
        OperationView::InsertText { path, offset, text } => OperationView::RemoveText {
            path,
            offset,
            text,
        },
        OperationView::MergeNode { path, position, properties } => OperationView::SplitNode {
            path: previous_of(path).unwrap(),
            position,
            properties,
        },
        OperationView::MoveNode { path, new_path } => {
            if path == new_path {
                op
            } else if sibling_of(path, new_path) {
                OperationView::MoveNode { path: new_path, new_path: path }
            } else {
                OperationView::MoveNode {
                    path: transformed(path, op, Affinity::Forward).unwrap(),
                    new_path: transformed(next_of(path).unwrap(), op, Affinity::Forward).unwrap(),
                }
            }
        },
        OperationView::RemoveNode { path, node } => OperationView::InsertNode { node, path },
        OperationView::RemoveText { path, offset, text } => OperationView::InsertText {
            path,
            offset,
            text,
        },
        OperationView::SetNode { path, properties, new_properties } => OperationView::SetNode {
            path,
            properties: new_properties,
            new_properties: properties,
        },
        OperationView::SetSelection {
            path,
            properties,
            new_properties,
        } => OperationView::SetSelection {
            path,
            properties: new_properties,
            new_properties: properties,
        },
        OperationView::SplitNode { path, position, properties } => OperationView::MergeNode {
            path: next_of(path).unwrap(),
            position,
            properties,
        },
    }
}

/// The operation has an inverse that paths can hold: a merged node has a
/// preceding sibling, a split or moved node is not the root and has room for
/// a following sibling, and a move that leaves the parent ends below the
/// root.
pub open spec fn invertible(op: OperationView) -> bool {
    match op {
        OperationView::MergeNode { path, .. } => previous_of(path) is Some,
        OperationView::SplitNode { path, .. } => path.len() > 0 && path.last() < usize::MAX,
        OperationView::MoveNode { path, new_path } => {
            ||| path == new_path
            ||| sibling_of(path, new_path)
            ||| {
                &&& path.len() > 0
                &&& path.last() < usize::MAX
                &&& new_path.len() > 0
                &&& representable(moved(path, path, new_path))
                &&& representable(moved(next_of(path).unwrap(), path, new_path))
            }
        },
        _ => true,
    }
}

impl Operation {
    /// The operation that undoes this one.
    pub fn inverse(self) -> (r: Operation)
        requires
            invertible(self@),
        ensures
            r@ == inverse_of(self@),
    {
        match self {
            Operation::InsertNode { node, path } => Operation::RemoveNode { node, path },
            Operation::InsertText { path, offset, text } => Operation::RemoveText {
                path,
                offset,
                text,
            },
            Operation::MergeNode { path, position, properties } => {
                let previous = path.previous();
                Operation::SplitNode { path: previous.unwrap(), position, properties }
            },
            Operation::MoveNode { path, new_path } => {
                if path == new_path {
                    return Operation::MoveNode { path, new_path };
                }
                if path.is_sibling(&new_path) {
                    return Operation::MoveNode { path: new_path, new_path: path };
                }
                let following = path.next().unwrap();
                let op = Operation::MoveNode { path, new_path };
                let (inverse_path, inverse_new_path) = match &op {
                    Operation::MoveNode { path, .. } => (
                        Path::transform(path, &op, Affinity::Forward),
                        Path::transform(&following, &op, Affinity::Forward),
                    ),
                    _ => (None, None),
                };
                Operation::MoveNode {
                    path: inverse_path.unwrap(),
                    new_path: inverse_new_path.unwrap(),
                }
            },
            Operation::RemoveNode { node, path } => Operation::InsertNode { node, path },
            Operation::RemoveText { path, offset, text } => Operation::InsertText {
                path,
                offset,
                text,
            },
            Operation::SetNode { path, properties, new_properties } => Operation::SetNode {
                path,
                properties: new_properties,
                new_properties: properties,
            },
            Operation::SetSelection { path, properties, new_properties } => {
                Operation::SetSelection {
                    path,
                    properties: new_properties,
                    new_properties: properties,
                }
            },
            Operation::SplitNode { path, position, properties } => {
                let following = path.next();
                Operation::MergeNode { path: following.unwrap(), position, properties }
            },
        }
    }
}

/// Every index of `p` is zero or more.
pub open spec fn natural(p: Seq<int>) -> bool {
    forall|i: int| 0 <= i < p.len() ==> 0 <= #[trigger] p[i]
}

/// The paths that an operation names are paths: none of their indices is
/// negative.
pub open spec fn names_paths(op: OperationView) -> bool {
    match op {
        OperationView::InsertNode { path, .. } => natural(path),
        OperationView::InsertText { path, .. } => natural(path),
        OperationView::MergeNode { path, .. } => natural(path),
        OperationView::MoveNode { path, new_path } => natural(path) && natural(new_path),
        OperationView::RemoveNode { path, .. } => natural(path),
        OperationView::RemoveText { path, .. } => natural(path),
        OperationView::SetNode { path, .. } => natural(path),
        OperationView::SetSelection { path, .. } => natural(path),
        OperationView::SplitNode { path, .. } => natural(path),
    }
}

/// The operation is one whose inverse leads back to it: a merged node has a
/// preceding sibling, a split node is not the root, and a node that is moved
/// out of its parent is below the root, goes below the root, and does not go
/// into itself.
pub open spec fn reversible(op: OperationView) -> bool {
    match op {
        OperationView::MergeNode { path, .. } => previous_of(path) is Some,
        OperationView::SplitNode { path, .. } => path.len() > 0,
        OperationView::MoveNode { path, new_path } => {
            ||| path == new_path
            ||| sibling_of(path, new_path)
            ||| (path.len() > 0 && new_path.len() > 0 && !ancestor_of(path, new_path))
        },
        _ => true,
    }
}

/// The inverse of the inverse of an operation is the operation.
pub proof fn law_inverse_twice(op: OperationView)
    requires
        names_paths(op),
        reversible(op),
    ensures
        inverse_of(inverse_of(op)) == op,
{
    match op {
        OperationView::MergeNode { path, position, properties } => {
            let previous = previous_of(path).unwrap();
            assert(next_of(previous).unwrap() =~= path);
        },
        OperationView::SplitNode { path, position, properties } => {
            let following = next_of(path).unwrap();
            assert(previous_of(following).unwrap() =~= path);
        },
        OperationView::MoveNode { path, new_path } => {
            if path == new_path {
            } else if sibling_of(path, new_path) {
                assert(sibling_of(new_path, path));
            } else {
                crate::round_trip::lemma_move_inverse(path, new_path);
            }
        },
        _ => {},
    }
}

} // verus!
