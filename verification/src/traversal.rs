use vstd::multiset::Multiset;
use vstd::prelude::*;
use vstd::seq_lib::lemma_multiset_commutative;
use crate::node::DescendantView;
use crate::node::Node;
use crate::node::NodeView;
use crate::node::as_node;
use crate::node::child_at;
use crate::node::children_of;
use crate::node::node_at;
use crate::path::Path;
use crate::path::after;
use crate::path::ancestor_of;
use crate::path::before;
use crate::path::diverge_at;
use crate::path::lemma_prefix_never_diverges;
use crate::path::optional_path_view;
use crate::node::lemma_node_at_prefix;

verus! {

/// A node together with its path from the root of the walk.
pub type NodeEntry = (Box<Node>, Path);

/// What an entry is: the node and its path.
pub type EntryView = (NodeView, Seq<int>);

/// The index of the child that a walk visits first, among `len` children:
/// the first one, or the last one in a reverse walk.
pub open spec fn first_child(len: int, reverse: bool) -> int {
    if reverse {
        len - 1
    } else {
        0
    }
}

/// The index of the sibling that a walk visits after child `i`.
pub open spec fn toward(i: int, reverse: bool) -> int {
    if reverse {
        i - 1
    } else {
        i + 1
    }
}

/// How many of `len` children a walk visits from child `i` on.
pub open spec fn left_from(len: int, i: int, reverse: bool) -> nat {
    if 0 <= i < len {
        if reverse {
            (i + 1) as nat
        } else {
            (len - i) as nat
        }
    } else {
        0
    }
}

/// The nodes of the subtree `d`, which stands at the path `p`, each with its
/// path, in the order of a walk: a node comes before its children, and the
/// children come in order, or last child first in a reverse walk.
pub open spec fn subtree_entries(d: DescendantView, p: Seq<int>, reverse: bool) -> Seq<EntryView>
    decreases d, 0nat,
{
    match d {
        DescendantView::Text(t) => seq![(NodeView::Text(t), p)],
        DescendantView::Element(e) => seq![(NodeView::Element(e), p)] + siblings_from(
            e.children,
            p,
            first_child(e.children.len() as int, reverse),
            reverse,
        ),
    }
}

/// The nodes of the subtrees of the children `c` of the node at `p`, from
/// child `i` on in the direction of the walk, each with its path.
pub open spec fn siblings_from(c: Seq<DescendantView>, p: Seq<int>, i: int, reverse: bool) -> Seq<
    EntryView,
>
    decreases c, left_from(c.len() as int, i, reverse),
{
    if 0 <= i < c.len() {
        subtree_entries(c[i], p.push(i), reverse) + siblings_from(
            c,
            p,
            toward(i, reverse),
            reverse,
        )
    } else {
        Seq::empty()
    }
}

/// The nodes of the tree `n`, which stands at the path `p`, each with its
/// path, in the order of a walk.
pub open spec fn entries_of(n: NodeView, p: Seq<int>, reverse: bool) -> Seq<EntryView> {
    seq![(n, p)] + siblings_from(
        children_of(n),
        p,
        first_child(children_of(n).len() as int, reverse),
        reverse,
    )
}

/// The nodes of the tree `n`, which stands at the path `p`, that a walk
/// towards `from` visits: where `p` lies above `from`, the walk goes from `n`
/// straight to the child on the way to `from`, and leaves out the children
/// that it would have visited before that one.
pub open spec fn entries_towards(n: NodeView, p: Seq<int>, from: Seq<int>, reverse: bool) -> Seq<
    EntryView,
>
    decreases from.len() - p.len(),
{
    if ancestor_of(p, from) {
        let j = from[p.len() as int];
        match child_at(n, j) {
            Some(c) => seq![(n, p)] + entries_towards(c, p.push(j), from, reverse)
                + siblings_from(children_of(n), p, toward(j, reverse), reverse),
            None => seq![(n, p)],
        }
    } else {
        entries_of(n, p, reverse)
    }
}

/// The nodes that a walk of the tree `root` visits after it has left the
/// subtree at `p`: the subtrees of the siblings that follow `p` in the
/// direction of the walk, then those that follow its parent, and so on up to
/// the root.
pub open spec fn entries_after(root: NodeView, p: Seq<int>, reverse: bool) -> Seq<EntryView>
    decreases p.len(),
{
    if p.len() == 0 {
        Seq::empty()
    } else {
        match node_at(root, p.drop_last()) {
            Some(parent) => siblings_from(
                children_of(parent),
                p.drop_last(),
                toward(p.last(), reverse),
                reverse,
            ) + entries_after(root, p.drop_last(), reverse),
            None => Seq::empty(),
        }
    }
}

/// The walk has gone past the bound `to`: the path `p` lies after it, or
/// before it in a reverse walk. Without a bound no path lies past it.
pub open spec fn passed(p: Seq<int>, to: Option<Seq<int>>, reverse: bool) -> bool {
    match to {
        Some(t) => if reverse {
            before(p, t)
        } else {
            after(p, t)
        },
        None => false,
    }
}

/// The entries of `s` up to the first one whose path lies past the bound
/// `to`.
pub open spec fn cut(s: Seq<EntryView>, to: Option<Seq<int>>, reverse: bool) -> Seq<EntryView>
    decreases s.len(),
{
    if s.len() == 0 || passed(s[0].1, to, reverse) {
        Seq::empty()
    } else {
        seq![s[0]] + cut(s.drop_first(), to, reverse)
    }
}

/// The state of a walk over a tree.
pub struct WalkView {
    /// The tree that is walked.
    pub root: NodeView,
    /// The path of the node that the walk visits next.
    pub cursor: Seq<int>,
    /// The node that the walk visits next.
    pub node: NodeView,
    /// The path that the walk heads for before it visits whole subtrees.
    pub from: Seq<int>,
    /// The bound past which the walk ends, if it has one.
    pub to: Option<Seq<int>>,
    /// Whether the walk visits the last child first.
    pub reverse: bool,
    /// Whether the walk has visited the last node.
    pub done: bool,
}

/// The path `p` lies past `from` in the direction of the walk.
pub open spec fn beyond(p: Seq<int>, from: Seq<int>, reverse: bool) -> bool {
    if reverse {
        before(p, from)
    } else {
        after(p, from)
    }
}

/// The path `p` lies on the way to `from`, at `from` or below it, or past
/// it: a walk towards `from` never stands anywhere else.
pub open spec fn on_course(p: Seq<int>, from: Seq<int>, reverse: bool) -> bool {
    ancestor_of(p, from) || from.is_prefix_of(p) || beyond(p, from, reverse)
}

/// The state is one that a walk can be in: the path it heads for leads to a
/// node, and unless the walk is over, its cursor leads to its current node
/// and lies on course.
pub open spec fn walk_ok(w: WalkView) -> bool {
    &&& node_at(w.root, w.from) is Some
    &&& !w.done ==> node_at(w.root, w.cursor) == Some(w.node)
    &&& !w.done ==> on_course(w.cursor, w.from, w.reverse)
}

/// The entries that the walk has yet to visit if no bound ends it.
pub open spec fn unbounded(w: WalkView) -> Seq<EntryView> {
    if w.done {
        Seq::empty()
    } else {
        entries_towards(w.node, w.cursor, w.from, w.reverse) + entries_after(
            w.root,
            w.cursor,
            w.reverse,
        )
    }
}

/// The entries that the walk has yet to visit, in order.
pub open spec fn pending(w: WalkView) -> Seq<EntryView> {
    cut(unbounded(w), w.to, w.reverse)
}

/// The entries that the walk has yet to visit once it has visited its current
/// node and left out what lies below it.
pub open spec fn pending_beside(w: WalkView) -> Seq<EntryView> {
    if w.done || passed(w.cursor, w.to, w.reverse) {
        Seq::empty()
    } else {
        cut(entries_after(w.root, w.cursor, w.reverse), w.to, w.reverse)
    }
}

/// What an entry is.
pub open spec fn entry_view(e: NodeEntry) -> EntryView {
    (e.0@, e.1@)
}

/// What each entry of a list is.
pub open spec fn entries_view(v: Seq<NodeEntry>) -> Seq<EntryView> {
    v.map_values(|e: NodeEntry| entry_view(e))
}

/// A bound cuts a list that starts with `e` either before `e` or somewhere
/// behind it.
pub proof fn lemma_cut_first(e: EntryView, s: Seq<EntryView>, to: Option<Seq<int>>, reverse: bool)
    ensures
        cut(seq![e] + s, to, reverse) == if passed(e.1, to, reverse) {
            Seq::<EntryView>::empty()
        } else {
            seq![e] + cut(s, to, reverse)
        },
{
    assert((seq![e] + s).drop_first() =~= s);
}

/// A subtree is walked as the tree of its top node is.
pub proof fn lemma_subtree_is_tree(d: DescendantView, p: Seq<int>, reverse: bool)
    ensures
        subtree_entries(d, p, reverse) == entries_of(as_node(d), p, reverse),
{
    match d {
        DescendantView::Text(t) => {
            assert(subtree_entries(d, p, reverse) =~= entries_of(as_node(d), p, reverse));
        },
        DescendantView::Element(e) => {},
    }
}

/// A path that lies past `from` is not above it.
proof fn lemma_beyond_not_above(p: Seq<int>, from: Seq<int>, reverse: bool)
    requires
        from.is_prefix_of(p) || beyond(p, from, reverse),
    ensures
        !ancestor_of(p, from),
{
    if ancestor_of(p, from) {
        lemma_prefix_never_diverges(p, from, p.len() as int);
    }
}

/// A walk that goes down from a path on course stays on course, where it
/// takes the way to `from` as long as it is above `from`.
proof fn lemma_course_down(p: Seq<int>, j: int, from: Seq<int>, reverse: bool)
    requires
        on_course(p, from, reverse),
        ancestor_of(p, from) ==> j == from[p.len() as int],
    ensures
        on_course(p.push(j), from, reverse),
        !ancestor_of(p, from) ==> !ancestor_of(p.push(j), from),
{
    let q = p.push(j);
    if ancestor_of(p, from) {
        assert(q =~= from.subrange(0, q.len() as int));
        if q.len() == from.len() {
            assert(from.subrange(0, q.len() as int) =~= from);
            assert(q.subrange(0, q.len() as int) =~= q);
        }
    } else if from.is_prefix_of(p) {
        assert(from =~= q.subrange(0, from.len() as int));
        lemma_beyond_not_above(q, from, reverse);
    } else {
        let k = choose|k: int| #[trigger] diverge_at(p, from, k) && if reverse {
            p[k] < from[k]
        } else {
            p[k] > from[k]
        };
        assert(q.subrange(0, k) =~= p.subrange(0, k));
        assert(diverge_at(q, from, k));
        lemma_beyond_not_above(q, from, reverse);
    }
}

/// A walk that goes from a path on course to a sibling that follows it lies
/// at `from`, below it or past it.
proof fn lemma_course_aside(p: Seq<int>, s: int, from: Seq<int>, reverse: bool)
    requires
        p.len() > 0,
        on_course(p, from, reverse),
        if reverse {
            s < p.last()
        } else {
            s > p.last()
        },
    ensures
        from.is_prefix_of(p.drop_last().push(s)) || beyond(p.drop_last().push(s), from, reverse),
        on_course(p.drop_last().push(s), from, reverse),
        !ancestor_of(p.drop_last().push(s), from),
{
    let q = p.drop_last();
    let r = q.push(s);
    let d = q.len() as int;
    if from.is_prefix_of(p) && from.len() <= d {
        assert(from =~= r.subrange(0, from.len() as int));
    } else if ancestor_of(p, from) || from.is_prefix_of(p) {
        assert(p.subrange(0, p.len() as int) =~= p);
        assert(from.subrange(0, p.len() as int)[d] == p[d]);
        assert(r.subrange(0, d) =~= from.subrange(0, d)) by {
            assert(from.subrange(0, d) =~= from.subrange(0, p.len() as int).subrange(0, d));
            assert(p.subrange(0, p.len() as int).subrange(0, d) =~= q);
        }
        assert(diverge_at(r, from, d));
    } else {
        let k = choose|k: int| #[trigger] diverge_at(p, from, k) && if reverse {
            p[k] < from[k]
        } else {
            p[k] > from[k]
        };
        if k < d {
            assert(r.subrange(0, k) =~= p.subrange(0, k));
            assert(diverge_at(r, from, k));
        } else {
            assert(r.subrange(0, d) =~= p.subrange(0, d));
            assert(diverge_at(r, from, d));
        }
    }
    lemma_beyond_not_above(r, from, reverse);
}

/// The parent of a path on course lies on course.
proof fn lemma_course_up(p: Seq<int>, from: Seq<int>, reverse: bool)
    requires
        p.len() > 0,
        on_course(p, from, reverse),
    ensures
        on_course(p.drop_last(), from, reverse),
{
    let q = p.drop_last();
    let d = q.len() as int;
    if ancestor_of(p, from) {
        assert(q =~= from.subrange(0, p.len() as int).subrange(0, d));
        assert(from.subrange(0, d) =~= from.subrange(0, p.len() as int).subrange(0, d));
    } else if from.is_prefix_of(p) {
        if from.len() <= d {
            assert(from =~= q.subrange(0, from.len() as int));
        } else {
            assert(p.subrange(0, p.len() as int) =~= p);
            assert(q =~= from.subrange(0, d));
        }
    } else {
        let k = choose|k: int| #[trigger] diverge_at(p, from, k) && if reverse {
            p[k] < from[k]
        } else {
            p[k] > from[k]
        };
        if k < d {
            assert(q.subrange(0, k) =~= p.subrange(0, k));
            assert(diverge_at(q, from, k));
        } else {
            assert(q =~= p.subrange(0, d));
            assert(q =~= from.subrange(0, d));
        }
    }
}

/// Where a walk goes down from its current node to a child, what it has yet
/// to visit is that node and then what it has yet to visit from the child
/// on.
proof fn lemma_walk_down(w: WalkView, j: int)
    requires
        walk_ok(w),
        !w.done,
        child_at(w.node, j) is Some,
        j == if ancestor_of(w.cursor, w.from) {
            w.from[w.cursor.len() as int]
        } else {
            first_child(children_of(w.node).len() as int, w.reverse)
        },
    ensures
        walk_ok(
            WalkView { cursor: w.cursor.push(j), node: child_at(w.node, j).unwrap(), ..w },
        ),
        unbounded(w) == seq![(w.node, w.cursor)] + unbounded(
            WalkView { cursor: w.cursor.push(j), node: child_at(w.node, j).unwrap(), ..w },
        ),
{
    let p = w.cursor;
    let q = p.push(j);
    let c = child_at(w.node, j).unwrap();
    let next = WalkView { cursor: q, node: c, ..w };
    assert(q.drop_last() =~= p);
    assert(q.last() == j);
    lemma_course_down(p, j, w.from, w.reverse);
    let behind = siblings_from(children_of(w.node), p, toward(j, w.reverse), w.reverse);
    assert(entries_after(w.root, q, w.reverse) == behind + entries_after(w.root, p, w.reverse));
    if ancestor_of(p, w.from) {
        assert(unbounded(w) =~= seq![(w.node, p)] + unbounded(next));
    } else {
        lemma_subtree_is_tree(children_of(w.node)[j], q, w.reverse);
        assert(entries_towards(c, q, w.from, w.reverse) == entries_of(c, q, w.reverse));
        assert(unbounded(w) =~= seq![(w.node, p)] + unbounded(next));
    }
}

/// Where the path heads for a node of the tree, the child on the way to it
/// exists at each node above it.
proof fn lemma_way_exists(root: NodeView, p: Seq<int>, from: Seq<int>)
    requires
        node_at(root, from) is Some,
        ancestor_of(p, from),
    ensures
        node_at(root, p.push(from[p.len() as int])) is Some,
{
    let q = p.push(from[p.len() as int]);
    assert(q =~= from.subrange(0, q.len() as int));
    if node_at(root, q) is None {
        lemma_node_at_prefix(root, from, q.len() as int);
    }
}

/// A node without children is all that a walk visits at its path.
proof fn lemma_leaf_alone(w: WalkView)
    requires
        walk_ok(w),
        !w.done,
        children_of(w.node).len() == 0,
    ensures
        entries_towards(w.node, w.cursor, w.from, w.reverse) == seq![(w.node, w.cursor)],
{
    assert(entries_of(w.node, w.cursor, w.reverse) =~= seq![(w.node, w.cursor)]);
}

/// What a walk visits once it has left a subtree begins with the subtree of
/// the sibling that follows, where there is one, and else is what it visits
/// once it has left the parent.
proof fn lemma_walk_aside(root: NodeView, p: Seq<int>, reverse: bool)
    requires
        p.len() > 0,
        node_at(root, p) is Some,
    ensures
        node_at(root, p.drop_last()) is Some,
        0 <= p.last() < children_of(node_at(root, p.drop_last()).unwrap()).len(),
        ({
            let parent = node_at(root, p.drop_last()).unwrap();
            let s = toward(p.last(), reverse);
            let r = p.drop_last().push(s);
            if 0 <= s < children_of(parent).len() {
                &&& node_at(root, r) == Some(as_node(children_of(parent)[s]))
                &&& entries_after(root, p, reverse) == entries_of(
                    as_node(children_of(parent)[s]),
                    r,
                    reverse,
                ) + entries_after(root, r, reverse)
            } else {
                entries_after(root, p, reverse) == entries_after(root, p.drop_last(), reverse)
            }
        }),
{
    let q = p.drop_last();
    let parent = node_at(root, q).unwrap();
    let c = children_of(parent);
    let s = toward(p.last(), reverse);
    let r = q.push(s);
    if 0 <= s < c.len() {
        assert(r.drop_last() =~= q);
        assert(r.last() == s);
        lemma_subtree_is_tree(c[s], r, reverse);
        assert(entries_after(root, p, reverse) =~= entries_of(as_node(c[s]), r, reverse)
            + entries_after(root, r, reverse));
    } else {
        assert(siblings_from(c, q, s, reverse) =~= Seq::<EntryView>::empty());
        assert(entries_after(root, p, reverse) =~= entries_after(root, q, reverse));
    }
}

/// A walk over the nodes of a tree, one node at a time.
pub struct NodeIterator {
    root: Node,
    n: Box<Node>,
    p: Path,
    from: Path,
    to: Option<Path>,
    reverse: bool,
    done: bool,
}

impl View for NodeIterator {
    type V = WalkView;

    closed spec fn view(&self) -> WalkView {
        WalkView {
            root: self.root@,
            cursor: self.p@,
            node: self.n@,
            from: self.from@,
            to: optional_path_view(self.to),
            reverse: self.reverse,
            done: self.done,
        }
    }
}

impl NodeIterator {
    /// Whether the cursor lies past the bound of the walk.
    fn is_past(&self) -> (r: bool)
        ensures
            r == passed(self@.cursor, self@.to, self@.reverse),
    {
        match &self.to {
            Some(t) => if self.reverse {
                self.p.is_before(t)
            } else {
                self.p.is_after(t)
            },
            None => false,
        }
    }

    /// The entry that the walk visits next, if it has one left.
    pub fn peek(&self) -> (r: Option<(&Node, &Path)>)
        requires
            walk_ok(self@),
        ensures
            match r {
                Some(e) => pending(self@).len() > 0 && (e.0@, e.1@) == pending(self@)[0],
                None => pending(self@).len() == 0,
            },
    {
        if self.done || self.is_past() {
            proof {
                if !self.done {
                    assert(unbounded(self@)[0] == (self@.node, self@.cursor));
                }
            }
            return None;
        }
        proof {
            assert(unbounded(self@)[0] == (self@.node, self@.cursor));
        }
        Some((&*self.n, &self.p))
    }

    /// Moves the walk from its current node, which has no child that it may
    /// go down to, to the node that follows: the sibling that follows in the
    /// direction of the walk, or else the one that follows the parent, and so
    /// on up; the walk is over when it comes to the root.
    fn climb(&mut self)
        requires
            walk_ok(old(self)@),
            !old(self)@.done,
        ensures
            walk_ok(final(self)@),
            final(self)@.root == old(self)@.root,
            final(self)@.from == old(self)@.from,
            final(self)@.to == old(self)@.to,
            final(self)@.reverse == old(self)@.reverse,
            unbounded(final(self)@) == entries_after(
                old(self)@.root,
                old(self)@.cursor,
                old(self)@.reverse,
            ),
    {
        let ghost start = self@;
        let ghost target = entries_after(start.root, start.cursor, start.reverse);
        let mut climbing = true;
        while climbing
            invariant
                self@.root == start.root,
                self@.from == start.from,
                self@.to == start.to,
                self@.reverse == start.reverse,
                node_at(start.root, start.from) is Some,
                climbing ==> !self@.done,
                climbing ==> node_at(self@.root, self@.cursor) is Some,
                climbing ==> on_course(self@.cursor, self@.from, self@.reverse),
                climbing ==> entries_after(self@.root, self@.cursor, self@.reverse) == target,
                !climbing ==> walk_ok(self@),
                !climbing ==> unbounded(self@) == target,
            decreases
                    self@.cursor.len() + if climbing {
                        1int
                    } else {
                        0int
                    },
        {
            let depth = self.p.len();
            if depth == 0 {
                self.done = true;
                climbing = false;
            } else {
                let ghost p = self@.cursor;
                proof {
                    lemma_walk_aside(self@.root, p, self@.reverse);
                }
                let parent = self.p.parent().unwrap();
                let count = self.root.count_at(&parent).unwrap();
                let i = self.p.get(depth - 1).unwrap();
                if !self.reverse && i + 1 < count {
                    proof {
                        lemma_course_aside(p, i + 1, self@.from, self@.reverse);
                    }
                    self.p = self.p.next().unwrap();
                    assert(self@.cursor =~= p.drop_last().push(i + 1));
                    self.n = self.root.get(&self.p).unwrap();
                    climbing = false;
                } else if self.reverse && i > 0 {
                    proof {
                        lemma_course_aside(p, i - 1, self@.from, self@.reverse);
                    }
                    self.p = self.p.previous().unwrap();
                    assert(self@.cursor =~= p.drop_last().push(i - 1));
                    self.n = self.root.get(&self.p).unwrap();
                    climbing = false;
                } else {
                    proof {
                        lemma_course_up(p, self@.from, self@.reverse);
                    }
                    self.p = parent;
                }
            }
        }
    }

    /// The entry that the walk visits next, if it has one left. The walk
    /// moves on: down to a child of the node if `descend` is set and the node
    /// has one, and else to the node that follows the subtree of the node.
    pub fn advance(&mut self, descend: bool) -> (r: Option<NodeEntry>)
        requires
            walk_ok(old(self)@),
        ensures
            walk_ok(final(self)@),
            match r {
                Some(e) => {
                    &&& pending(old(self)@).len() > 0
                    &&& entry_view(e) == pending(old(self)@)[0]
                    &&& pending(final(self)@) == if descend {
                        pending(old(self)@).drop_first()
                    } else {
                        pending_beside(old(self)@)
                    }
                },
                None => pending(old(self)@).len() == 0 && final(self)@ == old(self)@,
            },
    {
        let ghost w = self@;
        if self.done {
            return None;
        }
        proof {
            assert(unbounded(w)[0] == (w.node, w.cursor));
        }
        if self.is_past() {
            return None;
        }
        let out: NodeEntry = (Box::new((*self.n).clone()), self.p.clone());
        let count = self.n.num_children();
        if descend && count > 0 {
            let mut index = if self.reverse {
                count - 1
            } else {
                0
            };
            if self.p.is_ancestor(&self.from) {
                proof {
                    lemma_way_exists(w.root, w.cursor, w.from);
                    assert(w.cursor.push(w.from[w.cursor.len() as int]).drop_last()
                        =~= w.cursor);
                }
                index = self.from.get(self.p.len()).unwrap();
            }
            proof {
                lemma_walk_down(w, index as int);
                lemma_cut_first(
                    (w.node, w.cursor),
                    unbounded(
                        WalkView {
                            cursor: w.cursor.push(index as int),
                            node: child_at(w.node, index as int).unwrap(),
                            ..w
                        },
                    ),
                    w.to,
                    w.reverse,
                );
            }
            let child = self.n.child_node(index).unwrap();
            self.p = self.p.concat(index);
            self.n = Box::new(child);
            assert(pending(self@) =~= pending(w).drop_first());
            return Some(out);
        }
        proof {
            let behind = entries_after(w.root, w.cursor, w.reverse);
            lemma_cut_first((w.node, w.cursor), behind, w.to, w.reverse);
            if count == 0 {
                lemma_leaf_alone(w);
                assert(pending(w).drop_first() =~= cut(behind, w.to, w.reverse));
            } else {
                let inner = entries_towards(w.node, w.cursor, w.from, w.reverse);
                assert(inner[0] == (w.node, w.cursor));
                assert(unbounded(w) =~= seq![(w.node, w.cursor)] + (inner.drop_first()
                    + behind));
                lemma_cut_first((w.node, w.cursor), inner.drop_first() + behind, w.to, w.reverse);
            }
        }
        self.climb();
        Some(out)
    }

    /// The entry that the walk visits next, if it has one left. The walk
    /// moves on to the entry after it.
    pub fn next(&mut self) -> (r: Option<NodeEntry>)
        requires
            walk_ok(old(self)@),
        ensures
            walk_ok(final(self)@),
            match r {
                Some(e) => {
                    &&& pending(old(self)@).len() > 0
                    &&& entry_view(e) == pending(old(self)@)[0]
                    &&& pending(final(self)@) == pending(old(self)@).drop_first()
                },
                None => pending(old(self)@).len() == 0 && final(self)@ == old(self)@,
            },
    {
        self.advance(true)
    }

    /// The entries that the walk has yet to visit, in order.
    pub fn collect(self) -> (r: Vec<NodeEntry>)
        requires
            walk_ok(self@),
        ensures
            entries_view(r@) == pending(self@),
    {
        let ghost all = pending(self@);
        let mut walk = self;
        let mut out: Vec<NodeEntry> = Vec::new();
        let mut more = true;
        assert(all.subrange(0, 0) =~= Seq::<EntryView>::empty());
        assert(all.subrange(0, all.len() as int) =~= all);
        while more
            invariant
                walk_ok(walk@),
                out@.len() <= all.len(),
                entries_view(out@) == all.subrange(0, out@.len() as int),
                more ==> pending(walk@) == all.subrange(out@.len() as int, all.len() as int),
                !more ==> out@.len() == all.len(),
            decreases all.len() - out@.len() + if more {
                1int
            } else {
                0int
            },
        {
            let ghost before = out@;
            match walk.next() {
                Some(e) => {
                    out.push(e);
                    assert(entries_view(out@) =~= entries_view(before).push(entry_view(e)));
                    assert(entries_view(out@) =~= all.subrange(0, out@.len() as int));
                    assert(pending(walk@) =~= all.subrange(out@.len() as int, all.len() as int));
                },
                None => {
                    more = false;
                },
            }
        }
        assert(all.subrange(0, all.len() as int) =~= all);
        out
    }
}

impl Node {
    /// A walk over every node of the tree, this node first: a node is
    /// visited before its children, and the children in order.
    pub fn nodes(&self) -> (r: NodeIterator)
        ensures
            walk_ok(r@),
            pending(r@) == entries_of(self@, Seq::empty(), false),
    {
        let r = NodeIterator {
            root: self.clone(),
            n: Box::new(self.clone()),
            p: Path::new(Vec::new()),
            from: Path::new(Vec::new()),
            to: None,
            reverse: false,
            done: false,
        };
        proof {
            assert(r@.cursor =~= Seq::<int>::empty());
            assert(r@.from =~= Seq::<int>::empty());
            assert(r@.from.subrange(0, 0) =~= r@.from);
            lemma_uncut(unbounded(r@), false);
            assert(unbounded(r@) =~= entries_of(self@, Seq::empty(), false));
        }
        r
    }

    /// A walk over the nodes of the tree, this node first: a node is visited
    /// before its children, and the children in order, or last child first
    /// when `reverse` is set. The walk heads for `from` before it visits
    /// whole subtrees, and ends at the first node whose path lies past `to`.
    pub fn nodes_between(&self, from: Path, to: Option<Path>, reverse: bool) -> (r: NodeIterator)
        requires
            node_at(self@, from@) is Some,
        ensures
            walk_ok(r@),
            r@ == (WalkView {
                root: self@,
                cursor: Seq::empty(),
                node: self@,
                from: from@,
                to: optional_path_view(to),
                reverse,
                done: false,
            }),
    {
        let r = NodeIterator {
            root: self.clone(),
            n: Box::new(self.clone()),
            p: Path::new(Vec::new()),
            from,
            to,
            reverse,
            done: false,
        };
        proof {
            assert(r@.cursor =~= Seq::<int>::empty());
            if r@.from.len() == 0 {
                assert(r@.from.subrange(0, 0) =~= r@.from);
            } else {
                assert(r@.cursor =~= r@.from.subrange(0, 0));
            }
        }
        r
    }
}

/// A walk without bounds that starts at the root has the whole tree to visit,
/// in the order of the walk.
pub proof fn law_whole_walk(root: NodeView, reverse: bool)
    ensures
        pending(
            WalkView {
                root,
                cursor: Seq::empty(),
                node: root,
                from: Seq::empty(),
                to: None,
                reverse,
                done: false,
            },
        ) == entries_of(root, Seq::empty(), reverse),
{
    let w = WalkView {
        root,
        cursor: Seq::empty(),
        node: root,
        from: Seq::empty(),
        to: None,
        reverse,
        done: false,
    };
    lemma_uncut(unbounded(w), reverse);
    assert(unbounded(w) =~= entries_of(root, Seq::empty(), reverse));
}

/// Without a bound a walk visits all that it has yet to visit.
pub proof fn lemma_uncut(s: Seq<EntryView>, reverse: bool)
    ensures
        cut(s, None, reverse) == s,
    decreases s.len(),
{
    if s.len() > 0 {
        lemma_uncut(s.drop_first(), reverse);
        assert(seq![s[0]] + s.drop_first() =~= s);
    }
}

/// How many nodes the subtree `d` holds.
pub open spec fn count_nodes(d: DescendantView) -> nat
    decreases d, 0nat,
{
    match d {
        DescendantView::Text(_) => 1,
        DescendantView::Element(e) => 1 + count_children(e.children, e.children.len()),
    }
}

/// How many nodes the subtrees of the first `k` of the children `c` hold.
pub open spec fn count_children(c: Seq<DescendantView>, k: nat) -> nat
    decreases c, k,
{
    if k == 0 || k > c.len() {
        0
    } else {
        count_children(c, (k - 1) as nat) + count_nodes(c[k - 1])
    }
}

/// How many nodes the tree `n` holds.
pub open spec fn tree_size(n: NodeView) -> nat {
    1 + count_children(children_of(n), children_of(n).len())
}

/// The entries of the subtrees of the first `k` of the children `c` of the
/// node at `p`, as a multiset.
pub open spec fn children_entries(c: Seq<DescendantView>, p: Seq<int>, k: nat, reverse: bool) -> Multiset<
    EntryView,
>
    decreases k,
{
    if k == 0 || k > c.len() {
        Multiset::empty()
    } else {
        children_entries(c, p, (k - 1) as nat, reverse).add(
            subtree_entries(c[k - 1], p.push(k - 1), reverse).to_multiset(),
        )
    }
}

/// A walk of a subtree visits each of its nodes once.
pub proof fn lemma_subtree_count(d: DescendantView, p: Seq<int>, reverse: bool)
    ensures
        subtree_entries(d, p, reverse).len() == count_nodes(d),
    decreases d, 0nat,
{
    match d {
        DescendantView::Text(_) => {},
        DescendantView::Element(e) => {
            lemma_siblings_count(
                e.children,
                p,
                first_child(e.children.len() as int, reverse),
                reverse,
            );
        },
    }
}

/// A walk of the children from child `i` on visits each node of their
/// subtrees once.
pub proof fn lemma_siblings_count(c: Seq<DescendantView>, p: Seq<int>, i: int, reverse: bool)
    requires
        -1 <= i <= c.len(),
    ensures
        reverse ==> siblings_from(c, p, i, reverse).len() == count_children(c, (i + 1) as nat),
        !reverse && i >= 0 ==> siblings_from(c, p, i, reverse).len() + count_children(c, i as nat)
            == count_children(c, c.len()),
    decreases c, left_from(c.len() as int, i, reverse),
{
    if 0 <= i < c.len() {
        lemma_subtree_count(c[i], p.push(i), reverse);
        lemma_siblings_count(c, p, toward(i, reverse), reverse);
    }
}

/// A walk of a tree visits each of its nodes once, whichever way it goes.
pub proof fn law_walk_counts(n: NodeView, p: Seq<int>, reverse: bool)
    ensures
        entries_of(n, p, reverse).len() == tree_size(n),
{
    let c = children_of(n);
    lemma_siblings_count(c, p, first_child(c.len() as int, reverse), reverse);
}

/// A reverse walk of a subtree visits the entries that a forward walk
/// visits.
pub proof fn lemma_subtree_same(d: DescendantView, p: Seq<int>)
    ensures
        subtree_entries(d, p, true).to_multiset() == subtree_entries(d, p, false).to_multiset(),
    decreases d, 0nat,
{
    match d {
        DescendantView::Text(_) => {},
        DescendantView::Element(e) => {
            lemma_children_same(e.children, p);
            let top = seq![(NodeView::Element(e), p)];
            lemma_multiset_commutative(
                top,
                siblings_from(e.children, p, e.children.len() - 1, true),
            );
            lemma_multiset_commutative(top, siblings_from(e.children, p, 0, false));
        },
    }
}

/// A reverse walk of the children of a node visits the entries that a
/// forward walk of them visits.
pub proof fn lemma_children_same(c: Seq<DescendantView>, p: Seq<int>)
    ensures
        siblings_from(c, p, c.len() - 1, true).to_multiset() == siblings_from(
            c,
            p,
            0,
            false,
        ).to_multiset(),
    decreases c, c.len() + 1,
{
    lemma_backward_entries(c, p, c.len() - 1);
    lemma_forward_entries(c, p, 0);
    lemma_prefix_same(c, p, c.len());
    assert(children_entries(c, p, 0, false).add(siblings_from(c, p, 0, false).to_multiset())
        =~= siblings_from(c, p, 0, false).to_multiset());
}

/// The entries of the first `k` children are the same for both ways of
/// walking.
pub proof fn lemma_prefix_same(c: Seq<DescendantView>, p: Seq<int>, k: nat)
    requires
        k <= c.len(),
    ensures
        children_entries(c, p, k, true) == children_entries(c, p, k, false),
    decreases c, k,
{
    if k > 0 {
        lemma_prefix_same(c, p, (k - 1) as nat);
        lemma_subtree_same(c[k - 1], p.push(k - 1));
    }
}

/// The empty list holds no entry.
pub proof fn lemma_no_entries()
    ensures
        Seq::<EntryView>::empty().to_multiset() == Multiset::<EntryView>::empty(),
{
    let e = Seq::<EntryView>::empty();
    lemma_multiset_commutative(e, e);
    assert(e + e =~= e);
    assert forall|x: EntryView| e.to_multiset().count(x) == 0 by {
        assert(e.to_multiset().add(e.to_multiset()).count(x) == e.to_multiset().count(x));
    }
    assert(e.to_multiset() =~= Multiset::<EntryView>::empty());
}

/// A reverse walk of the children from child `i` on visits the entries of the
/// first `i + 1` children.
pub proof fn lemma_backward_entries(c: Seq<DescendantView>, p: Seq<int>, i: int)
    requires
        -1 <= i < c.len(),
    ensures
        siblings_from(c, p, i, true).to_multiset() == children_entries(c, p, (i + 1) as nat, true),
    decreases i + 1,
{
    if i >= 0 {
        lemma_backward_entries(c, p, i - 1);
        lemma_multiset_commutative(
            subtree_entries(c[i], p.push(i), true),
            siblings_from(c, p, i - 1, true),
        );
        assert(siblings_from(c, p, i, true).to_multiset() =~= children_entries(
            c,
            p,
            (i + 1) as nat,
            true,
        ));
    } else {
        lemma_no_entries();
        assert(siblings_from(c, p, i, true) =~= Seq::<EntryView>::empty());
    }
}

/// A forward walk of the children from child `i` on visits what the entries
/// of the first `i` children leave of the entries of all of them.
pub proof fn lemma_forward_entries(c: Seq<DescendantView>, p: Seq<int>, i: int)
    requires
        0 <= i <= c.len(),
    ensures
        children_entries(c, p, i as nat, false).add(siblings_from(c, p, i, false).to_multiset())
            == children_entries(c, p, c.len(), false),
    decreases c.len() - i,
{
    if i < c.len() {
        lemma_forward_entries(c, p, i + 1);
        lemma_multiset_commutative(
            subtree_entries(c[i], p.push(i), false),
            siblings_from(c, p, i + 1, false),
        );
        assert(children_entries(c, p, i as nat, false).add(
            siblings_from(c, p, i, false).to_multiset(),
        ) =~= children_entries(c, p, (i + 1) as nat, false).add(
            siblings_from(c, p, i + 1, false).to_multiset(),
        ));
    } else {
        lemma_no_entries();
        assert(siblings_from(c, p, i, false) =~= Seq::<EntryView>::empty());
        assert(children_entries(c, p, i as nat, false).add(
            siblings_from(c, p, i, false).to_multiset(),
        ) =~= children_entries(c, p, c.len(), false));
    }
}

/// A reverse walk of a tree visits the entries that a forward walk visits,
/// each as often.
pub proof fn law_reverse_same_entries(n: NodeView, p: Seq<int>)
    ensures
        entries_of(n, p, true).to_multiset() == entries_of(n, p, false).to_multiset(),
{
    let c = children_of(n);
    lemma_children_same(c, p);
    lemma_multiset_commutative(seq![(n, p)], siblings_from(c, p, c.len() - 1, true));
    lemma_multiset_commutative(seq![(n, p)], siblings_from(c, p, 0, false));
}

} // verus!
