use vstd::prelude::*;
use vstd::std_specs::cmp::PartialEqSpecImpl;
use vstd::std_specs::convert::FromSpecImpl;
use crate::editor::Editor;
use crate::editor::EditorView;
use crate::element::Element;
use crate::element::ElementView;
use crate::path::Path;
use crate::path::ancestors_of;
use crate::path::common_prefix;
use crate::text::Text;
use crate::text::TextView;

verus! {

/// The children of a node, in order. A text leaf has none.
pub open spec fn children_of(n: NodeView) -> Seq<DescendantView> {
    match n {
        NodeView::Editor(e) => e.children,
        NodeView::Element(e) => e.children,
        NodeView::Text(_) => Seq::empty(),
    }
}

/// A descendant, seen as a node.
pub open spec fn as_node(d: DescendantView) -> NodeView {
    match d {
        DescendantView::Text(t) => NodeView::Text(t),
        DescendantView::Element(e) => NodeView::Element(e),
    }
}

/// The `i`th child of a node, seen as a node.
pub open spec fn child_at(n: NodeView, i: int) -> Option<NodeView> {
    if 0 <= i < children_of(n).len() {
        Some(as_node(children_of(n)[i]))
    } else {
        None
    }
}

/// The node that the path `p` leads to from the node `n`: `n` itself for the
/// empty path, else the child, at the last index of `p`, of the node that the
/// rest of `p` leads to.
pub open spec fn node_at(n: NodeView, p: Seq<int>) -> Option<NodeView>
    decreases p.len(),
{
    if p.len() == 0 {
        Some(n)
    } else {
        match node_at(n, p.drop_last()) {
            Some(parent) => child_at(parent, p.last()),
            None => None,
        }
    }
}

/// The node that can hold children that the path `p` leads to from `n`.
pub open spec fn ancestor_at(n: NodeView, p: Seq<int>) -> Option<AncestorView> {
    match node_at(n, p) {
        Some(NodeView::Editor(e)) => Some(AncestorView::Editor(e)),
        Some(NodeView::Element(e)) => Some(AncestorView::Element(e)),
        _ => None,
    }
}

/// The node below a root that the path `p` leads to from `n`.
pub open spec fn descendant_at(n: NodeView, p: Seq<int>) -> Option<DescendantView> {
    match node_at(n, p) {
        Some(NodeView::Element(e)) => Some(DescendantView::Element(e)),
        Some(NodeView::Text(t)) => Some(DescendantView::Text(t)),
        _ => None,
    }
}

/// The children of a node that can hold children.
pub open spec fn ancestor_children(a: AncestorView) -> Seq<DescendantView> {
    match a {
        AncestorView::Editor(e) => e.children,
        AncestorView::Element(e) => e.children,
    }
}

/// The children of the node at `p`, each with its path, in order, or last
/// child first when `reverse` is set.
pub open spec fn child_entries(c: Seq<DescendantView>, p: Seq<int>, reverse: bool) -> Seq<
    (DescendantView, Seq<int>),
> {
    Seq::new(
        c.len(),
        |i: int|
            if reverse {
                (c[c.len() - 1 - i], p.push(c.len() - 1 - i))
            } else {
                (c[i], p.push(i))
            },
    )
}

/// What a descendant is.
pub enum DescendantView {
    Text(TextView),
    Element(ElementView),
}

/// A node below the root: a text leaf or an element.
#[derive(Debug)]
pub enum Descendant {
    Text(Text),
    Element(Element),
}

pub open spec fn descendant_view(d: Descendant) -> DescendantView
    decreases d,
{
    match d {
        Descendant::Text(t) => DescendantView::Text(t@),
        Descendant::Element(e) => DescendantView::Element(e@),
    }
}

/// What each node of a list of descendants is.
pub open spec fn descendants_view(v: Seq<Descendant>) -> Seq<DescendantView> {
    v.map_values(|d: Descendant| d@)
}

impl Clone for Descendant {
    fn clone(&self) -> (r: Descendant)
        ensures
            r@ == self@,
        decreases self,
    {
        match self {
            Descendant::Text(t) => Descendant::Text(t.clone()),
            Descendant::Element(e) => Descendant::Element(e.clone()),
        }
    }
}

impl Descendant {
    /// Whether the two descendants are the same.
    pub fn same(&self, other: &Descendant) -> (r: bool)
        ensures
            r == (self@ == other@),
        decreases self,
    {
        match (self, other) {
            (Descendant::Text(a), Descendant::Text(b)) => a == b,
            (Descendant::Element(a), Descendant::Element(b)) => a.same(b),
            _ => false,
        }
    }
}

impl PartialEq for Descendant {
    fn eq(&self, other: &Descendant) -> (r: bool) {
        self.same(other)
    }
}

impl PartialEqSpecImpl for Descendant {
    open spec fn obeys_eq_spec() -> bool {
        true
    }

    open spec fn eq_spec(&self, other: &Descendant) -> bool {
        self@ == other@
    }
}

impl View for Descendant {
    type V = DescendantView;

    open spec fn view(&self) -> DescendantView {
        descendant_view(*self)
    }
}

impl From<Text> for Descendant {
    fn from(t: Text) -> (r: Descendant) {
        Descendant::Text(t)
    }
}

impl FromSpecImpl<Text> for Descendant {
    open spec fn obeys_from_spec() -> bool {
        true
    }

    open spec fn from_spec(t: Text) -> Descendant {
        Descendant::Text(t)
    }
}

impl From<Element> for Descendant {
    fn from(e: Element) -> (r: Descendant) {
        Descendant::Element(e)
    }
}

impl FromSpecImpl<Element> for Descendant {
    open spec fn obeys_from_spec() -> bool {
        true
    }

    open spec fn from_spec(e: Element) -> Descendant {
        Descendant::Element(e)
    }
}

/// What a node that can hold children is.
pub enum AncestorView {
    Editor(EditorView),
    Element(ElementView),
}

/// A node that can hold children: the root or an element.
#[derive(Debug)]
pub enum Ancestor {
    Editor(Editor),
    Element(Element),
}

/// What a node is.
pub enum NodeView {
    Editor(EditorView),
    Element(ElementView),
    Text(TextView),
}

/// Any node of a document: the root, an element or a text leaf.
#[derive(Debug)]
pub enum Node {
    Editor(Editor),
    Element(Element),
    Text(Text),
}

pub open spec fn node_view(n: Node) -> NodeView
    decreases n,
{
    match n {
        Node::Editor(e) => NodeView::Editor(e@),
        Node::Element(e) => NodeView::Element(e@),
        Node::Text(t) => NodeView::Text(t@),
    }
}

impl Clone for Node {
    fn clone(&self) -> (r: Node)
        ensures
            r@ == self@,
        decreases self,
    {
        match self {
            Node::Editor(e) => Node::Editor(e.clone()),
            Node::Element(e) => Node::Element(e.clone()),
            Node::Text(t) => Node::Text(t.clone()),
        }
    }
}

impl Node {
    /// Whether the two nodes are the same.
    pub fn same(&self, other: &Node) -> (r: bool)
        ensures
            r == (self@ == other@),
        decreases self,
    {
        match (self, other) {
            (Node::Editor(a), Node::Editor(b)) => a.same(b),
            (Node::Element(a), Node::Element(b)) => a.same(b),
            (Node::Text(a), Node::Text(b)) => a == b,
            _ => false,
        }
    }
}

impl PartialEq for Node {
    fn eq(&self, other: &Node) -> (r: bool) {
        self.same(other)
    }
}

impl PartialEqSpecImpl for Node {
    open spec fn obeys_eq_spec() -> bool {
        true
    }

    open spec fn eq_spec(&self, other: &Node) -> bool {
        self@ == other@
    }
}

impl View for Node {
    type V = NodeView;

    open spec fn view(&self) -> NodeView {
        node_view(*self)
    }
}

impl Clone for Ancestor {
    fn clone(&self) -> (r: Ancestor)
        ensures
            r@ == self@,
    {
        match self {
            Ancestor::Editor(e) => Ancestor::Editor(e.clone()),
            Ancestor::Element(e) => Ancestor::Element(e.clone()),
        }
    }
}

impl Ancestor {
    /// Whether the two nodes are the same.
    pub fn same(&self, other: &Ancestor) -> (r: bool)
        ensures
            r == (self@ == other@),
    {
        match (self, other) {
            (Ancestor::Editor(a), Ancestor::Editor(b)) => a.same(b),
            (Ancestor::Element(a), Ancestor::Element(b)) => a.same(b),
            _ => false,
        }
    }
}

impl PartialEq for Ancestor {
    fn eq(&self, other: &Ancestor) -> (r: bool) {
        self.same(other)
    }
}

impl PartialEqSpecImpl for Ancestor {
    open spec fn obeys_eq_spec() -> bool {
        true
    }

    open spec fn eq_spec(&self, other: &Ancestor) -> bool {
        self@ == other@
    }
}

impl View for Ancestor {
    type V = AncestorView;

    open spec fn view(&self) -> AncestorView {
        match *self {
            Ancestor::Editor(e) => AncestorView::Editor(e@),
            Ancestor::Element(e) => AncestorView::Element(e@),
        }
    }
}

impl From<Descendant> for Node {
    fn from(d: Descendant) -> (r: Node) {
        match d {
            Descendant::Text(t) => Node::Text(t),
            Descendant::Element(e) => Node::Element(e),
        }
    }
}

impl FromSpecImpl<Descendant> for Node {
    open spec fn obeys_from_spec() -> bool {
        true
    }

    open spec fn from_spec(d: Descendant) -> Node {
        match d {
            Descendant::Text(t) => Node::Text(t),
            Descendant::Element(e) => Node::Element(e),
        }
    }
}

impl From<Box<Ancestor>> for Node {
    fn from(a: Box<Ancestor>) -> (r: Node) {
        match *a {
            Ancestor::Editor(e) => Node::Editor(e),
            Ancestor::Element(e) => Node::Element(e),
        }
    }
}

impl FromSpecImpl<Box<Ancestor>> for Node {
    open spec fn obeys_from_spec() -> bool {
        true
    }

    open spec fn from_spec(a: Box<Ancestor>) -> Node {
        match *a {
            Ancestor::Editor(e) => Node::Editor(e),
            Ancestor::Element(e) => Node::Element(e),
        }
    }
}

impl Descendant {
    /// A copy of the descendant, as a node.
    pub fn to_node(&self) -> (r: Node)
        ensures
            r@ == as_node(self@),
    {
        match self {
            Descendant::Text(t) => Node::Text(t.clone()),
            Descendant::Element(e) => Node::Element(e.clone()),
        }
    }

    /// The `i`th child of the descendant. A text leaf has none.
    fn child_ref(&self, i: usize) -> (r: Option<&Descendant>)
        ensures
            match r {
                Some(d) => child_at(as_node(self@), i as int) == Some(as_node(d@)),
                None => child_at(as_node(self@), i as int) is None,
            },
    {
        match self {
            Descendant::Text(_) => None,
            Descendant::Element(e) => e.child(i),
        }
    }
}

impl Ancestor {
    /// The children of the node, in order.
    pub fn children(&self) -> (r: Vec<Descendant>)
        ensures
            descendants_view(r@) == ancestor_children(self@),
    {
        match self {
            Ancestor::Editor(e) => e.children(),
            Ancestor::Element(e) => e.children(),
        }
    }

    /// The `i`th child of the node.
    pub fn child(&self, i: usize) -> (r: Option<Descendant>)
        ensures
            match r {
                Some(d) => i < ancestor_children(self@).len() && d@ == ancestor_children(
                    self@,
                )[i as int],
                None => i >= ancestor_children(self@).len(),
            },
    {
        let found = match self {
            Ancestor::Editor(n) => n.child(i),
            Ancestor::Element(n) => n.child(i),
        };
        match found {
            Some(d) => Some(d.clone()),
            None => None,
        }
    }
}

/// What an optional node is.
pub open spec fn optional_node_view(o: Option<Box<Node>>) -> Option<NodeView> {
    match o {
        Some(n) => Some(n@),
        None => None,
    }
}

/// What each entry of a list of descendants is: the node and its path.
pub open spec fn descendant_entries_view(v: Seq<(Descendant, Path)>) -> Seq<
    (DescendantView, Seq<int>),
> {
    v.map_values(|e: (Descendant, Path)| (e.0@, e.1@))
}

/// Every path of `paths` leads, from `n`, to a node that can hold children.
pub open spec fn all_ancestors(n: NodeView, paths: Seq<Seq<int>>) -> bool {
    forall|i: int| 0 <= i < paths.len() ==> ancestor_at(n, #[trigger] paths[i]) is Some
}

/// Every path of `paths` leads, from `n`, to a node below a root.
pub open spec fn all_descendants(n: NodeView, paths: Seq<Seq<int>>) -> bool {
    forall|i: int| 0 <= i < paths.len() ==> descendant_at(n, #[trigger] paths[i]) is Some
}

impl Node {
    /// The `i`th child of the node, by reference. A text leaf has none.
    fn child_ref(&self, i: usize) -> (r: Option<&Descendant>)
        ensures
            match r {
                Some(d) => child_at(self@, i as int) == Some(as_node(d@)),
                None => child_at(self@, i as int) is None,
            },
    {
        match self {
            Node::Editor(n) => n.child(i),
            Node::Element(n) => n.child(i),
            Node::Text(_) => None,
        }
    }

    /// The descendant that the path, which is not empty, leads to from this
    /// node, by reference.
    fn find(&self, path: &Path) -> (r: Option<&Descendant>)
        requires
            path@.len() > 0,
        ensures
            match r {
                Some(d) => node_at(self@, path@) == Some(as_node(d@)),
                None => node_at(self@, path@) is None,
            },
    {
        let n = path.len();
        let first = path.get(0).unwrap();
        assert(path@.subrange(0, 1).drop_last() =~= Seq::<int>::empty());
        assert(node_at(self@, path@.subrange(0, 1).drop_last()) == Some(self@));
        let mut cur: &Descendant = match self.child_ref(first) {
            Some(d) => d,
            None => {
                proof {
                    lemma_node_at_prefix(self@, path@, 1);
                }
                return None;
            },
        };
        let mut i: usize = 1;
        while i < n
            invariant
                1 <= i <= n,
                n == path@.len(),
                node_at(self@, path@.subrange(0, i as int)) == Some(as_node(cur@)),
            decreases n - i,
        {
            let index = path.get(i).unwrap();
            assert(path@.subrange(0, i + 1).drop_last() =~= path@.subrange(0, i as int));
            match cur.child_ref(index) {
                Some(d) => {
                    cur = d;
                },
                None => {
                    proof {
                        lemma_node_at_prefix(self@, path@, i + 1);
                    }
                    return None;
                },
            }
            i += 1;
        }
        assert(path@.subrange(0, n as int) =~= path@);
        Some(cur)
    }

    /// The `i`th child of the node, as a node. A text leaf has none.
    pub fn child_node(&self, i: usize) -> (r: Option<Node>)
        ensures
            match r {
                Some(n) => child_at(self@, i as int) == Some(n@),
                None => child_at(self@, i as int) is None,
            },
    {
        match self.child_ref(i) {
            Some(d) => Some(d.to_node()),
            None => None,
        }
    }

    /// Whether the node has a child.
    pub fn has_children(&self) -> (r: bool)
        ensures
            r == (children_of(self@).len() > 0),
    {
        match self {
            Node::Editor(n) => n.has_children(),
            Node::Element(n) => n.has_children(),
            Node::Text(_) => false,
        }
    }

    /// How many children the node has.
    pub fn num_children(&self) -> (n: usize)
        ensures
            n == children_of(self@).len(),
    {
        match self {
            Node::Editor(n) => n.num_children(),
            Node::Element(n) => n.num_children(),
            Node::Text(_) => 0,
        }
    }

    /// The node that the path leads to, if it is one that can hold children.
    pub fn ancestor(&self, path: &Path) -> (r: Option<Box<Ancestor>>)
        ensures
            match r {
                Some(a) => ancestor_at(self@, path@) == Some(a@),
                None => ancestor_at(self@, path@) is None,
            },
    {
        if path.len() == 0 {
            return match self {
                Node::Element(e) => Some(Box::new(Ancestor::Element(e.clone()))),
                Node::Editor(e) => Some(Box::new(Ancestor::Editor(e.clone()))),
                Node::Text(_) => None,
            };
        }
        match self.find(path) {
            Some(Descendant::Element(e)) => Some(Box::new(Ancestor::Element(e.clone()))),
            _ => None,
        }
    }

    /// The nodes above the node that the path leads to, each with its path,
    /// from the root down, or from the parent up when `reverse` is set.
    pub fn ancestors(&self, path: &Path, reverse: bool) -> (r: Vec<(Box<Ancestor>, Path)>)
        requires
            all_ancestors(self@, ancestors_of(path@, reverse)),
        ensures
            r@.len() == path@.len(),
            forall|i: int|
                0 <= i < r@.len() ==> {
                    &&& (#[trigger] r@[i]).1@ == ancestors_of(path@, reverse)[i]
                    &&& Some(r@[i].0@) == ancestor_at(self@, ancestors_of(path@, reverse)[i])
                },
    {
        let paths = path.ancestors(reverse);
        let ghost want = ancestors_of(path@, reverse);
        let mut out: Vec<(Box<Ancestor>, Path)> = Vec::new();
        let mut i: usize = 0;
        while i < paths.len()
            invariant
                i <= paths@.len(),
                crate::path::paths_view(paths@) == want,
                want.len() == path@.len(),
                all_ancestors(self@, want),
                out@.len() == i,
                forall|j: int|
                    0 <= j < i ==> {
                        &&& (#[trigger] out@[j]).1@ == want[j]
                        &&& Some(out@[j].0@) == ancestor_at(self@, want[j])
                    },
            decreases paths.len() - i,
        {
            assert(crate::path::paths_view(paths@)[i as int] == paths@[i as int]@);
            let found = self.ancestor(&paths[i]);
            assert(ancestor_at(self@, want[i as int]) is Some);
            out.push((found.unwrap(), paths[i].clone()));
            i += 1;
        }
        out
    }

    /// The `i`th child of the node. A text leaf has none.
    pub fn child(&self, i: usize) -> (r: Option<Descendant>)
        ensures
            match r {
                Some(d) => i < children_of(self@).len() && d@ == children_of(self@)[i as int],
                None => i >= children_of(self@).len(),
            },
    {
        let found = match self {
            Node::Editor(n) => n.child(i),
            Node::Element(n) => n.child(i),
            Node::Text(_) => None,
        };
        match found {
            Some(d) => Some(d.clone()),
            None => None,
        }
    }

    /// The children of the node that the path leads to, each with its path,
    /// in order, or last child first when `reverse` is set.
    pub fn children(&self, path: &Path, reverse: bool) -> (r: Vec<(Descendant, Path)>)
        requires
            ancestor_at(self@, path@) is Some,
        ensures
            descendant_entries_view(r@) == child_entries(
                ancestor_children(ancestor_at(self@, path@).unwrap()),
                path@,
                reverse,
            ),
    {
        let ancestor = self.ancestor(path).unwrap();
        let children = ancestor.children();
        let ghost c = ancestor_children(ancestor@);
        assert(descendants_view(children@) == c);
        let n = children.len();
        let mut out: Vec<(Descendant, Path)> = Vec::new();
        let mut i: usize = 0;
        while i < n
            invariant
                i <= n,
                n == children@.len(),
                c == descendants_view(children@),
                out@.len() == i,
                forall|j: int|
                    0 <= j < i ==> (#[trigger] out@[j]).0@ == child_entries(c, path@, reverse)[j].0
                        && out@[j].1@ == child_entries(c, path@, reverse)[j].1,
            decreases n - i,
        {
            let k = if reverse {
                n - 1 - i
            } else {
                i
            };
            assert(c[k as int] == children@[k as int]@);
            out.push((children[k].clone(), path.concat(k)));
            i += 1;
        }
        assert(descendant_entries_view(out@) =~= child_entries(c, path@, reverse));
        out
    }

    /// The node that the longest common prefix of the two paths leads to,
    /// with that prefix.
    pub fn common(&self, path: &Path, another: &Path) -> (r: Option<(Box<Node>, Path)>)
        ensures
            match r {
                Some(e) => e.1@ == common_prefix(path@, another@) && node_at(self@, e.1@) == Some(
                    e.0@,
                ),
                None => node_at(self@, common_prefix(path@, another@)) is None,
            },
    {
        let p = path.common(another);
        match self.get(&p) {
            Some(n) => Some((n, p)),
            None => None,
        }
    }

    /// The node that the path leads to, if it is one below a root.
    pub fn descendant(&self, path: &Path) -> (r: Option<Box<Descendant>>)
        ensures
            match r {
                Some(d) => descendant_at(self@, path@) == Some(d@),
                None => descendant_at(self@, path@) is None,
            },
    {
        if path.len() == 0 {
            return match self {
                Node::Element(e) => Some(Box::new(Descendant::Element(e.clone()))),
                Node::Text(t) => Some(Box::new(Descendant::Text(t.clone()))),
                Node::Editor(_) => None,
            };
        }
        match self.find(path) {
            Some(d) => Some(Box::new(d.clone())),
            None => None,
        }
    }

    /// The nodes that the proper prefixes of the path lead to, each with its
    /// path, from the root down, or from the parent up when `reverse` is
    /// set.
    pub fn descendants(&self, path: &Path, reverse: bool) -> (r: Vec<(Box<Descendant>, Path)>)
        requires
            all_descendants(self@, ancestors_of(path@, reverse)),
        ensures
            r@.len() == path@.len(),
            forall|i: int|
                0 <= i < r@.len() ==> {
                    &&& (#[trigger] r@[i]).1@ == ancestors_of(path@, reverse)[i]
                    &&& Some(r@[i].0@) == descendant_at(self@, ancestors_of(path@, reverse)[i])
                },
    {
        let paths = path.ancestors(reverse);
        let ghost want = ancestors_of(path@, reverse);
        let mut out: Vec<(Box<Descendant>, Path)> = Vec::new();
        let mut i: usize = 0;
        while i < paths.len()
            invariant
                i <= paths@.len(),
                crate::path::paths_view(paths@) == want,
                want.len() == path@.len(),
                all_descendants(self@, want),
                out@.len() == i,
                forall|j: int|
                    0 <= j < i ==> {
                        &&& (#[trigger] out@[j]).1@ == want[j]
                        &&& Some(out@[j].0@) == descendant_at(self@, want[j])
                    },
            decreases paths.len() - i,
        {
            assert(crate::path::paths_view(paths@)[i as int] == paths@[i as int]@);
            let found = self.descendant(&paths[i]);
            assert(descendant_at(self@, want[i as int]) is Some);
            out.push((found.unwrap(), paths[i].clone()));
            i += 1;
        }
        out
    }

    /// The node that the path leads to. The empty path leads to this node
    /// itself.
    pub fn get(&self, path: &Path) -> (r: Option<Box<Node>>)
        ensures
            optional_node_view(r) == node_at(self@, path@),
    {
        if path.len() == 0 {
            return Some(Box::new(self.clone()));
        }
        match self.find(path) {
            Some(d) => Some(Box::new(d.to_node())),
            None => None,
        }
    }

    /// How many children the node that the path leads to has.
    pub fn count_at(&self, path: &Path) -> (r: Option<usize>)
        ensures
            match r {
                Some(k) => node_at(self@, path@) is Some && k == children_of(
                    node_at(self@, path@).unwrap(),
                ).len(),
                None => node_at(self@, path@) is None,
            },
    {
        if path.len() == 0 {
            return Some(self.num_children());
        }
        match self.find(path) {
            Some(Descendant::Element(e)) => Some(e.num_children()),
            Some(Descendant::Text(_)) => Some(0),
            None => None,
        }
    }

    /// Whether the path leads to a node.
    pub fn has(&self, path: &Path) -> (r: bool)
        ensures
            r == node_at(self@, path@) is Some,
    {
        if path.len() == 0 {
            return true;
        }
        self.find(path).is_some()
    }
}

/// A path leads nowhere if one of its prefixes leads nowhere.
pub proof fn lemma_node_at_prefix(n: NodeView, p: Seq<int>, k: int)
    requires
        0 <= k <= p.len(),
        node_at(n, p.subrange(0, k)) is None,
    ensures
        node_at(n, p) is None,
    decreases p.len() - k,
{
    if k < p.len() {
        assert(p.subrange(0, k + 1).drop_last() =~= p.subrange(0, k));
        lemma_node_at_prefix(n, p, k + 1);
    } else {
        assert(p.subrange(0, k) =~= p);
    }
}

} // verus!
