use vstd::prelude::*;
use vstd::std_specs::cmp::PartialEqSpecImpl;
use vstd::std_specs::convert::IntoSpec;
use crate::node::Descendant;
use crate::node::DescendantView;
use crate::node::descendant_view;
use crate::node::descendants_view;

verus! {

/// What an element is: its children, in order.
pub struct ElementView {
    pub children: Seq<DescendantView>,
}

/// An inner node of the document tree, holding its children in order.
#[derive(Debug)]
pub struct Element {
    children: Vec<Descendant>,
}

impl View for Element {
    type V = ElementView;

    closed spec fn view(&self) -> ElementView
        decreases self,
    {
        ElementView {
            children: Seq::new(
                self.children@.len(),
                |i: int|
                    if 0 <= i < self.children@.len() {
                        descendant_view(self.children@[i])
                    } else {
                        arbitrary()
                    },
            ),
        }
    }
}

impl Clone for Element {
    fn clone(&self) -> (r: Element)
        ensures
            r@ == self@,
        decreases self,
    {
        let mut children: Vec<Descendant> = Vec::new();
        let mut i: usize = 0;
        while i < self.children.len()
            invariant
                i <= self.children@.len(),
                children@.len() == i,
                forall|j: int| 0 <= j < i ==> descendant_view(#[trigger] children@[j]) == descendant_view(self.children@[j]),
            decreases self.children.len() - i,
        {
            children.push(self.children[i].clone());
            i += 1;
        }
        let r = Element { children };
        assert(r@.children =~= self@.children);
        r
    }
}

impl Element {
    /// Whether the two elements hold the same children.
    pub fn same(&self, other: &Element) -> (r: bool)
        ensures
            r == (self@ == other@),
        decreases self,
    {
        let n = self.children.len();
        if n != other.children.len() {
            assert(self@.children.len() != other@.children.len());
            return false;
        }
        let mut i: usize = 0;
        while i < n
            invariant
                i <= n,
                n == self.children@.len(),
                n == other.children@.len(),
                forall|j: int| 0 <= j < i ==> self@.children[j] == other@.children[j],
            decreases n - i,
        {
            if !self.children[i].same(&other.children[i]) {
                assert(self@.children[i as int] != other@.children[i as int]);
                return false;
            }
            i += 1;
        }
        assert(self@.children =~= other@.children);
        true
    }
}

impl PartialEq for Element {
    fn eq(&self, other: &Element) -> (r: bool) {
        self.same(other)
    }
}

impl PartialEqSpecImpl for Element {
    open spec fn obeys_eq_spec() -> bool {
        true
    }

    open spec fn eq_spec(&self, other: &Element) -> bool {
        self@ == other@
    }
}

impl Element {
    /// An element without children.
    pub fn new() -> (r: Element)
        ensures
            r@.children == Seq::<DescendantView>::empty(),
    {
        let r = Element { children: Vec::new() };
        assert(r@.children =~= Seq::<DescendantView>::empty());
        r
    }

    /// The element with `child` added behind its children.
    pub fn add_child<C: Into<Descendant>>(self, child: C) -> (r: Element)
        ensures
            exists|d: Descendant|
                call_ensures(C::into, (child,), d) && r@.children == self@.children.push(d@),
            C::obeys_into_spec() ==> r@.children == self@.children.push(child.into_spec()@),
    {
        let mut children = self.children;
        let ghost before = children@;
        let d: Descendant = child.into();
        children.push(d);
        let r = Element { children };
        assert(r@.children =~= self@.children.push(d@));
        r
    }

    /// The `i`th child of the element.
    pub fn child(&self, i: usize) -> (r: Option<&Descendant>)
        ensures
            match r {
                Some(d) => i < self@.children.len() && d@ == self@.children[i as int],
                None => i >= self@.children.len(),
            },
    {
        if i < self.children.len() {
            Some(&self.children[i])
        } else {
            None
        }
    }

    /// The children of the element, in order.
    pub fn children(&self) -> (r: Vec<Descendant>)
        ensures
            descendants_view(r@) == self@.children,
    {
        let c = self.clone();
        assert(descendants_view(c.children@) =~= c@.children);
        c.children
    }

    /// Whether the element has a child.
    pub fn has_children(&self) -> (r: bool)
        ensures
            r == (self@.children.len() > 0),
    {
        self.children.len() > 0
    }

    /// How many children the element has.
    pub fn num_children(&self) -> (n: usize)
        ensures
            n == self@.children.len(),
    {
        self.children.len()
    }
}

} // verus!
