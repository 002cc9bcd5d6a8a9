use vstd::prelude::*;
use vstd::std_specs::cmp::PartialEqSpecImpl;
use vstd::std_specs::convert::IntoSpec;
use crate::node::Descendant;
use crate::node::DescendantView;
use crate::node::descendant_view;
use crate::node::descendants_view;
use crate::operation::Operation;
use crate::operation::OperationView;
use crate::operation::operation_view;
use crate::range::Range;
use crate::range::RangeView;
use crate::text::Marks;

verus! {

/// What the root of a document is: its children, the current selection, the
/// operations applied so far, and the marks waiting for the next insertion.
pub struct EditorView {
    pub children: Seq<DescendantView>,
    pub selection: Option<RangeView>,
    pub operations: Seq<OperationView>,
    pub marks: Option<Marks>,
}

/// The root of a document.
#[derive(Debug)]
pub struct Editor {
    children: Vec<Descendant>,
    selection: Option<Range>,
    operations: Vec<Operation>,
    marks: Option<Marks>,
}

impl View for Editor {
    type V = EditorView;

    closed spec fn view(&self) -> EditorView
        decreases self,
    {
        EditorView {
            children: Seq::new(
                self.children@.len(),
                |i: int|
                    if 0 <= i < self.children@.len() {
                        descendant_view(self.children@[i])
                    } else {
                        arbitrary()
                    },
            ),
            selection: match self.selection {
                Some(r) => Some(r@),
                None => None,
            },
            operations: Seq::new(
                self.operations@.len(),
                |i: int|
                    if 0 <= i < self.operations@.len() {
                        operation_view(self.operations@[i])
                    } else {
                        arbitrary()
                    },
            ),
            marks: self.marks,
        }
    }
}

impl Clone for Editor {
    fn clone(&self) -> (r: Editor)
        ensures
            r@ == self@,
        decreases self,
    {
        let mut children: Vec<Descendant> = Vec::new();
        let mut i: usize = 0;
        while i < self.children.len()
            invariant
                i <= self.children@.len(),
                children@.len() == i,
                forall|j: int|
                    0 <= j < i ==> descendant_view(#[trigger] children@[j]) == descendant_view(
                        self.children@[j],
                    ),
            decreases self.children.len() - i,
        {
            children.push(self.children[i].clone());
            i += 1;
        }
        let mut operations: Vec<Operation> = Vec::new();
        let mut k: usize = 0;
        while k < self.operations.len()
            invariant
                k <= self.operations@.len(),
                operations@.len() == k,
                forall|j: int|
                    0 <= j < k ==> operation_view(#[trigger] operations@[j]) == operation_view(
                        self.operations@[j],
                    ),
            decreases self.operations.len() - k,
        {
            operations.push(self.operations[k].clone());
            k += 1;
        }
        let selection = match &self.selection {
            Some(r) => Some(r.clone()),
            None => None,
        };
        let r = Editor { children, selection, operations, marks: self.marks };
        assert(r@.children =~= self@.children);
        assert(r@.operations =~= self@.operations);
        r
    }
}

impl Editor {
    /// Whether the two documents are the same.
    pub fn same(&self, other: &Editor) -> (r: bool)
        ensures
            r == (self@ == other@),
        decreases self,
    {
        let n = self.children.len();
        if n != other.children.len() {
            assert(self@.children.len() != other@.children.len());
            return false;
        }
        let mut i: usize = 0;
        while i < n
            invariant
                i <= n,
                n == self.children@.len(),
                n == other.children@.len(),
                forall|j: int| 0 <= j < i ==> self@.children[j] == other@.children[j],
            decreases n - i,
        {
            if !self.children[i].same(&other.children[i]) {
                assert(self@.children[i as int] != other@.children[i as int]);
                return false;
            }
            i += 1;
        }
        assert(self@.children =~= other@.children);
        let m = self.operations.len();
        if m != other.operations.len() {
            assert(self@.operations.len() != other@.operations.len());
            return false;
        }
        let mut k: usize = 0;
        while k < m
            invariant
                k <= m,
                m == self.operations@.len(),
                m == other.operations@.len(),
                forall|j: int| 0 <= j < k ==> self@.operations[j] == other@.operations[j],
            decreases m - k,
        {
            if !self.operations[k].same(&other.operations[k]) {
                assert(self@.operations[k as int] != other@.operations[k as int]);
                return false;
            }
            k += 1;
        }
        assert(self@.operations =~= other@.operations);
        let same_selection = match (&self.selection, &other.selection) {
            (Some(a), Some(b)) => a == b,
            (None, None) => true,
            _ => false,
        };
        let same_marks = match (self.marks, other.marks) {
            (Some(a), Some(b)) => a == b,
            (None, None) => true,
            _ => false,
        };
        same_selection && same_marks
    }
}

impl PartialEq for Editor {
    fn eq(&self, other: &Editor) -> (r: bool) {
        self.same(other)
    }
}

impl PartialEqSpecImpl for Editor {
    open spec fn obeys_eq_spec() -> bool {
        true
    }

    open spec fn eq_spec(&self, other: &Editor) -> bool {
        self@ == other@
    }
}

impl Editor {
    /// A document without children, selection, operations or waiting marks.
    pub fn new() -> (r: Editor)
        ensures
            r@ == (EditorView {
                children: Seq::empty(),
                selection: None,
                operations: Seq::empty(),
                marks: None,
            }),
    {
        let r = Editor {
            children: Vec::new(),
            selection: None,
            operations: Vec::new(),
            marks: None,
        };
        assert(r@.children =~= Seq::<DescendantView>::empty());
        assert(r@.operations =~= Seq::<OperationView>::empty());
        r
    }

    /// The document with `child` added behind its children.
    pub fn add_child<C: Into<Descendant>>(self, child: C) -> (r: Editor)
        ensures
            exists|d: Descendant|
                call_ensures(C::into, (child,), d) && r@ == (EditorView {
                    children: self@.children.push(d@),
                    ..self@
                }),
            C::obeys_into_spec() ==> r@ == (EditorView {
                children: self@.children.push(child.into_spec()@),
                ..self@
            }),
    {
        let ghost before = self@;
        let mut children = self.children;
        let d: Descendant = child.into();
        children.push(d);
        let r = Editor {
            children,
            selection: self.selection,
            operations: self.operations,
            marks: self.marks,
        };
        assert(r@.children =~= before.children.push(d@));
        assert(r@.operations =~= before.operations);
        r
    }

    /// The `i`th child of the document.
    pub fn child(&self, i: usize) -> (r: Option<&Descendant>)
        ensures
            match r {
                Some(d) => i < self@.children.len() && d@ == self@.children[i as int],
                None => i >= self@.children.len(),
            },
    {
        if i < self.children.len() {
            Some(&self.children[i])
        } else {
            None
        }
    }

    /// The children of the document, in order.
    pub fn children(&self) -> (r: Vec<Descendant>)
        ensures
            descendants_view(r@) == self@.children,
    {
        let c = self.clone();
        assert(descendants_view(c.children@) =~= c@.children);
        c.children
    }

    /// Whether the document has a child.
    pub fn has_children(&self) -> (r: bool)
        ensures
            r == (self@.children.len() > 0),
    {
        self.children.len() > 0
    }

    /// How many children the document has.
    pub fn num_children(&self) -> (n: usize)
        ensures
            n == self@.children.len(),
    {
        self.children.len()
    }
}

} // verus!
