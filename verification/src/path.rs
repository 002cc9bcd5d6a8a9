use vstd::prelude::*;
use vstd::std_specs::cmp::PartialEqSpecImpl;
use vstd::std_specs::cmp::PartialOrdSpecImpl;
use vstd::std_specs::convert::FromSpec;
use vstd::std_specs::convert::FromSpecImpl;
use std::cmp::Ordering;
use crate::operation::Operation;
use crate::operation::OperationView;

verus! {

/// `a` names a node strictly above the node that `b` names.
pub open spec fn ancestor_of(a: Seq<int>, b: Seq<int>) -> bool {
    a.len() < b.len() && a.is_prefix_of(b)
}

/// `a` names a node strictly below the node that `b` names.
pub open spec fn descendant_of(a: Seq<int>, b: Seq<int>) -> bool {
    a.len() > b.len() && b.is_prefix_of(a)
}

/// `a` names the node directly above the node that `b` names.
pub open spec fn parent_of(a: Seq<int>, b: Seq<int>) -> bool {
    a.len() + 1 == b.len() && a.is_prefix_of(b)
}

/// `a` names a node directly below the node that `b` names.
pub open spec fn child_of(a: Seq<int>, b: Seq<int>) -> bool {
    a.len() == b.len() + 1 && b.is_prefix_of(a)
}

/// `a` and `b` name two different children of one parent.
pub open spec fn sibling_of(a: Seq<int>, b: Seq<int>) -> bool {
    &&& a.len() == b.len()
    &&& a.len() > 0
    &&& a.drop_last() == b.drop_last()
    &&& a.last() != b.last()
}

/// At the depth of `a`, the path `b` runs through a later child of the parent
/// of `a`.
pub open spec fn ends_before(a: Seq<int>, b: Seq<int>) -> bool {
    &&& 0 < a.len() <= b.len()
    &&& a.drop_last() == b.subrange(0, a.len() - 1)
    &&& a.last() < b[a.len() - 1]
}

/// At the depth of `a`, the path `b` runs through an earlier child of the
/// parent of `a`.
pub open spec fn ends_after(a: Seq<int>, b: Seq<int>) -> bool {
    &&& 0 < a.len() <= b.len()
    &&& a.drop_last() == b.subrange(0, a.len() - 1)
    &&& a.last() > b[a.len() - 1]
}

/// The two paths agree on their first `i` indices and part ways at index `i`.
pub open spec fn diverge_at(a: Seq<int>, b: Seq<int>, i: int) -> bool {
    &&& 0 <= i < a.len()
    &&& i < b.len()
    &&& a.subrange(0, i) == b.subrange(0, i)
    &&& a[i] != b[i]
}

/// `a` comes before `b` in document order: where they part ways, `a` takes the
/// smaller index. A path is neither before nor after the paths above and
/// below it.
pub open spec fn before(a: Seq<int>, b: Seq<int>) -> bool {
    exists|i: int| #[trigger] diverge_at(a, b, i) && a[i] < b[i]
}

/// `a` comes after `b` in document order.
pub open spec fn after(a: Seq<int>, b: Seq<int>) -> bool {
    exists|i: int| #[trigger] diverge_at(a, b, i) && a[i] > b[i]
}

/// How two paths compare in document order. They compare equal where neither
/// comes before the other.
pub open spec fn order_of(a: Seq<int>, b: Seq<int>) -> Ordering {
    if before(a, b) {
        Ordering::Less
    } else if after(a, b) {
        Ordering::Greater
    } else {
        Ordering::Equal
    }
}

/// How many leading indices the two paths share, counted from index `i` on,
/// given that they share the first `i`.
pub open spec fn common_len_from(a: Seq<int>, b: Seq<int>, i: int) -> int
    decreases a.len() - i,
{
    if 0 <= i < a.len() && i < b.len() && a[i] == b[i] {
        common_len_from(a, b, i + 1)
    } else {
        i
    }
}

/// The longest path that is a prefix of both.
pub open spec fn common_prefix(a: Seq<int>, b: Seq<int>) -> Seq<int> {
    a.subrange(0, common_len_from(a, b, 0))
}

/// Every prefix of `p`, the root and `p` itself included, from the root down,
/// or from `p` up when `reverse` is set.
pub open spec fn levels_of(p: Seq<int>, reverse: bool) -> Seq<Seq<int>> {
    Seq::new(
        p.len() + 1,
        |i: int|
            if reverse {
                p.subrange(0, p.len() - i)
            } else {
                p.subrange(0, i)
            },
    )
}

/// Every proper prefix of `p`, from the root down, or from the parent of `p`
/// up when `reverse` is set.
pub open spec fn ancestors_of(p: Seq<int>, reverse: bool) -> Seq<Seq<int>> {
    Seq::new(
        p.len(),
        |i: int|
            if reverse {
                p.subrange(0, p.len() - 1 - i)
            } else {
                p.subrange(0, i)
            },
    )
}

/// The path of the following sibling; the root has none.
pub open spec fn next_of(p: Seq<int>) -> Option<Seq<int>> {
    if p.len() == 0 {
        None
    } else {
        Some(p.update(p.len() - 1, p.last() + 1))
    }
}

/// The path of the preceding sibling; the root and a first child have none.
pub open spec fn previous_of(p: Seq<int>) -> Option<Seq<int>> {
    if p.len() == 0 || p.last() <= 0 {
        None
    } else {
        Some(p.update(p.len() - 1, p.last() - 1))
    }
}

/// The path of the parent; the root has none.
pub open spec fn parent_path(p: Seq<int>) -> Option<Seq<int>> {
    if p.len() == 0 {
        None
    } else {
        Some(p.drop_last())
    }
}

/// What is left of `p` below `anc`, where `anc` is `p` or a path above it.
pub open spec fn relative_to(p: Seq<int>, anc: Seq<int>) -> Option<Seq<int>> {
    if anc.is_prefix_of(p) {
        Some(p.subrange(anc.len() as int, p.len() as int))
    } else {
        None
    }
}

/// The path `p` with `by` added to its index at depth `i`.
pub open spec fn shifted(p: Seq<int>, i: int, by: int) -> Seq<int> {
    p.update(i, p[i] + by)
}

/// Where the node at `p` is found after the node at `from` has been moved to
/// `to`.
pub open spec fn moved(p: Seq<int>, from: Seq<int>, to: Seq<int>) -> Seq<int> {
    let d = from.len() as int;
    if from == to {
        p
    } else if ancestor_of(from, p) || from == p {
        let base = if ends_before(from, to) && from.len() < to.len() {
            shifted(to, d - 1, -1)
        } else {
            to
        };
        base + p.subrange(d, p.len() as int)
    } else if sibling_of(from, to) && (ancestor_of(to, p) || to == p) {
        if ends_before(from, p) {
            shifted(p, d - 1, -1)
        } else {
            shifted(p, d - 1, 1)
        }
    } else if ends_before(to, p) || to == p || ancestor_of(to, p) {
        let q = if ends_before(from, p) {
            shifted(p, d - 1, -1)
        } else {
            p
        };
        shifted(q, to.len() - 1, 1)
    } else if ends_before(from, p) {
        shifted(p, d - 1, -1)
    } else {
        p
    }
}

/// Where the node at `p` is found after `op` has been applied, if it is still
/// in the document. `affinity` decides for a node that is split exactly at
/// `p`. The root stays the root.
pub open spec fn transformed(p: Seq<int>, op: OperationView, affinity: Affinity) -> Option<
    Seq<int>,
> {
    if p.len() == 0 {
        Some(p)
    } else {
        match op {
            OperationView::InsertNode { path, .. } => {
                if path == p || ends_before(path, p) || ancestor_of(path, p) {
                    Some(shifted(p, path.len() - 1, 1))
                } else {
                    Some(p)
                }
            },
            OperationView::RemoveNode { path, .. } => {
                if path == p || ancestor_of(path, p) {
                    None
                } else if ends_before(path, p) {
                    Some(shifted(p, path.len() - 1, -1))
                } else {
                    Some(p)
                }
            },
            OperationView::MergeNode { path, position, .. } => {
                if path == p || ends_before(path, p) {
                    Some(shifted(p, path.len() - 1, -1))
                } else if ancestor_of(path, p) {
                    Some(shifted(shifted(p, path.len() - 1, -1), path.len() as int, position))
                } else {
                    Some(p)
                }
            },
            OperationView::SplitNode { path, position, .. } => {
                if path == p {
                    match affinity {
                        Affinity::Forward => Some(shifted(p, path.len() - 1, 1)),
                        Affinity::Backward => Some(p),
                        Affinity::Neither => None,
                    }
                } else if ends_before(path, p) {
                    Some(shifted(p, path.len() - 1, 1))
                } else if ancestor_of(path, p) && p[path.len() as int] >= position {
                    Some(shifted(shifted(p, path.len() - 1, 1), path.len() as int, -position))
                } else {
                    Some(p)
                }
            },
            OperationView::MoveNode { path, new_path } => Some(moved(p, path, new_path)),
            _ => Some(p),
        }
    }
}

/// The operation names nodes below the root: the node it inserts, merges,
/// splits or moves, and the place a moved node goes to. A removal may name
/// the root: it takes every path below the root with it.
pub open spec fn below_root(op: OperationView) -> bool {
    match op {
        OperationView::InsertNode { path, .. } => path.len() > 0,
        OperationView::MergeNode { path, .. } => path.len() > 0,
        OperationView::SplitNode { path, .. } => path.len() > 0,
        OperationView::MoveNode { path, new_path } => path == new_path || (path.len() > 0
            && new_path.len() > 0),
        _ => true,
    }
}

/// The path that `transformed` gives, if any, is one that a path can hold.
pub open spec fn transform_fits(p: Seq<int>, op: OperationView, affinity: Affinity) -> bool {
    match transformed(p, op, affinity) {
        Some(q) => representable(q),
        None => true,
    }
}

/// Every index of `p` is one that a path can hold.
pub open spec fn representable(p: Seq<int>) -> bool {
    forall|i: int| 0 <= i < p.len() ==> 0 <= #[trigger] p[i] <= usize::MAX
}

/// What each path of a list is.
pub open spec fn paths_view(v: Seq<Path>) -> Seq<Seq<int>> {
    Seq::new(v.len(), |i: int| v[i]@)
}

/// What an optional path is.
pub open spec fn optional_path_view(o: Option<Path>) -> Option<Seq<int>> {
    match o {
        Some(p) => Some(p@),
        None => None,
    }
}

/// Two paths part ways at one depth at most.
pub proof fn lemma_diverge_once(a: Seq<int>, b: Seq<int>, i: int)
    requires
        diverge_at(a, b, i),
    ensures
        forall|j: int| #[trigger] diverge_at(a, b, j) ==> j == i,
        before(a, b) <==> a[i] < b[i],
        after(a, b) <==> a[i] > b[i],
{
    assert forall|j: int| #[trigger] diverge_at(a, b, j) implies j == i by {
        if j < i {
            assert(a.subrange(0, i)[j] == b.subrange(0, i)[j]);
        } else if i < j {
            assert(a.subrange(0, j)[i] == b.subrange(0, j)[i]);
        }
    }
}

/// Two paths that agree as far as the shorter one reaches part ways nowhere.
pub proof fn lemma_prefix_never_diverges(a: Seq<int>, b: Seq<int>, n: int)
    requires
        n == a.len() || n == b.len(),
        0 <= n <= a.len(),
        n <= b.len(),
        a.subrange(0, n) == b.subrange(0, n),
    ensures
        forall|j: int| !#[trigger] diverge_at(a, b, j),
        !before(a, b),
        !after(a, b),
{
    assert forall|j: int| #[trigger] diverge_at(a, b, j) implies false by {
        assert(0 <= j < n);
        assert(a.subrange(0, n)[j] == a[j]);
        assert(b.subrange(0, n)[j] == b[j]);
    }
}

/// The longest common prefix does not depend on the order of the two paths.
pub proof fn law_common_symmetric(a: Seq<int>, b: Seq<int>)
    ensures
        common_prefix(a, b) == common_prefix(b, a),
{
    assert(a.subrange(0, 0) =~= b.subrange(0, 0));
    lemma_common_len(a, b, 0);
    lemma_common_len(b, a, 0);
    let n = common_len_from(a, b, 0);
    let m = common_len_from(b, a, 0);
    if n < m {
        assert(b.subrange(0, m)[n] == a.subrange(0, m)[n]);
    } else if m < n {
        assert(a.subrange(0, n)[m] == b.subrange(0, n)[m]);
    }
}

/// The longest common prefix of a path and itself is the path.
pub proof fn law_common_reflexive(a: Seq<int>)
    ensures
        common_prefix(a, a) == a,
{
    lemma_common_len(a, a, 0);
    assert(a.subrange(0, a.len() as int) =~= a);
}

/// The longest common prefix is a prefix of both paths, and no common prefix
/// is longer.
pub proof fn law_common_longest(a: Seq<int>, b: Seq<int>, c: Seq<int>)
    ensures
        common_prefix(a, b).is_prefix_of(a),
        common_prefix(a, b).is_prefix_of(b),
        c.is_prefix_of(a) && c.is_prefix_of(b) ==> c.is_prefix_of(common_prefix(a, b)),
{
    assert(a.subrange(0, 0) =~= b.subrange(0, 0));
    lemma_common_len(a, b, 0);
    let n = common_len_from(a, b, 0);
    let m = common_prefix(a, b);
    assert(m =~= a.subrange(0, n));
    assert(m =~= m.subrange(0, m.len() as int));
    if c.is_prefix_of(a) && c.is_prefix_of(b) {
        if c.len() > n {
            assert(a.subrange(0, c.len() as int)[n] == b.subrange(0, c.len() as int)[n]);
        }
        assert(c =~= m.subrange(0, c.len() as int));
    }
}

/// Counting the shared indices from depth `i` on, where the paths share the
/// first `i`, gives the depth down to which they agree: they hold the same
/// indices above it and part ways there, unless one of them ends.
pub proof fn lemma_common_len(a: Seq<int>, b: Seq<int>, i: int)
    requires
        0 <= i <= a.len(),
        i <= b.len(),
        a.subrange(0, i) == b.subrange(0, i),
    ensures
        i <= common_len_from(a, b, i) <= a.len(),
        common_len_from(a, b, i) <= b.len(),
        a.subrange(0, common_len_from(a, b, i)) == b.subrange(0, common_len_from(a, b, i)),
        common_len_from(a, b, i) < a.len() && common_len_from(a, b, i) < b.len() ==> a[common_len_from(
            a,
            b,
            i,
        )] != b[common_len_from(a, b, i)],
    decreases a.len() - i,
{
    if i < a.len() && i < b.len() && a[i] == b[i] {
        assert(a.subrange(0, i + 1) =~= a.subrange(0, i).push(a[i]));
        assert(b.subrange(0, i + 1) =~= b.subrange(0, i).push(b[i]));
        lemma_common_len(a, b, i + 1);
    }
}

/// A path above another has that other below it.
pub proof fn law_ancestor_descendant(a: Seq<int>, b: Seq<int>)
    ensures
        ancestor_of(a, b) ==> descendant_of(b, a),
        descendant_of(b, a) ==> ancestor_of(a, b),
{
}

/// Two paths stand in exactly one of three ways: the first comes before the
/// second, it comes after it, or one of them is a prefix of the other.
pub proof fn law_order_trichotomy(a: Seq<int>, b: Seq<int>)
    ensures
        !(before(a, b) && after(a, b)),
        !before(a, b) && !after(a, b) <==> a.is_prefix_of(b) || b.is_prefix_of(a),
{
    assert(a.subrange(0, 0) =~= b.subrange(0, 0));
    lemma_common_len(a, b, 0);
    let n = common_len_from(a, b, 0);
    if n < a.len() && n < b.len() {
        lemma_diverge_once(a, b, n);
        if a.is_prefix_of(b) {
            assert(a.subrange(0, a.len() as int) =~= a);
            assert(b.subrange(0, a.len() as int)[n] == a[n]);
        }
        if b.is_prefix_of(a) {
            assert(b.subrange(0, b.len() as int) =~= b);
            assert(a.subrange(0, b.len() as int)[n] == b[n]);
        }
    } else {
        lemma_prefix_never_diverges(a, b, n);
        if n == a.len() {
            assert(a.subrange(0, n) =~= a);
        } else {
            assert(b.subrange(0, n) =~= b);
        }
    }
}

/// Two paths compare equal exactly when one of them is a prefix of the
/// other, and comparing them the other way round gives the opposite answer.
pub proof fn law_compare(a: Seq<int>, b: Seq<int>)
    ensures
        order_of(a, b) == Ordering::Equal <==> a.is_prefix_of(b) || b.is_prefix_of(a),
        order_of(a, b) == Ordering::Less <==> order_of(b, a) == Ordering::Greater,
        order_of(a, b) == Ordering::Equal <==> order_of(b, a) == Ordering::Equal,
{
    law_order_trichotomy(a, b);
    law_order_trichotomy(b, a);
    law_order_antisymmetric(a, b);
    law_order_antisymmetric(b, a);
}

/// The order is antisymmetric: a path comes before another exactly when that
/// other comes after it, and then the other does not come before it.
pub proof fn law_order_antisymmetric(a: Seq<int>, b: Seq<int>)
    ensures
        before(a, b) <==> after(b, a),
        before(a, b) ==> !before(b, a),
{
    law_order_trichotomy(a, b);
    law_order_trichotomy(b, a);
    if before(a, b) {
        let i = choose|i: int| #[trigger] diverge_at(a, b, i) && a[i] < b[i];
        assert(diverge_at(b, a, i));
        lemma_diverge_once(b, a, i);
    }
    if after(b, a) {
        let i = choose|i: int| #[trigger] diverge_at(b, a, i) && b[i] > a[i];
        assert(diverge_at(a, b, i));
    }
}

/// The order is transitive: a path that comes before a second one, which
/// comes before a third, comes before the third.
pub proof fn law_order_transitive(a: Seq<int>, b: Seq<int>, c: Seq<int>)
    requires
        before(a, b),
        before(b, c),
    ensures
        before(a, c),
{
    let i = choose|i: int| #[trigger] diverge_at(a, b, i) && a[i] < b[i];
    let j = choose|j: int| #[trigger] diverge_at(b, c, j) && b[j] < c[j];
    let k = if i <= j {
        i
    } else {
        j
    };
    assert(a.subrange(0, k) =~= c.subrange(0, k)) by {
        assert forall|x: int| 0 <= x < k implies a[x] == c[x] by {
            assert(a.subrange(0, i)[x] == b.subrange(0, i)[x]);
            assert(b.subrange(0, j)[x] == c.subrange(0, j)[x]);
        }
    }
    if i < j {
        assert(b.subrange(0, j)[i] == c.subrange(0, j)[i]);
    } else if j < i {
        assert(a.subrange(0, i)[j] == b.subrange(0, i)[j]);
    }
    assert(diverge_at(a, c, k));
}

/// The root stays the root under every operation.
pub proof fn law_root_stays(op: OperationView, affinity: Affinity)
    ensures
        transformed(Seq::empty(), op, affinity) == Some(Seq::<int>::empty()),
{
}

/// A first child has no preceding sibling, and neither has the root.
pub proof fn law_first_has_no_previous(p: Seq<int>)
    requires
        p.len() == 0 || p.last() == 0,
    ensures
        previous_of(p) is None,
{
}

/// A path that is deeper than another neither ends before it nor ends after
/// it: both ask for the parent of the first path above the second.
pub proof fn law_ends_need_depth(a: Seq<int>, b: Seq<int>)
    requires
        a.len() > b.len(),
    ensures
        !ends_before(a, b),
        !ends_after(a, b),
{
}

/// Which way a position leans when an operation cuts the document exactly
/// there.
#[derive(Debug, Clone, Copy, PartialEq, Eq, Structural)]
pub enum Affinity {
    Forward,
    Backward,
    /// No leaning: a position that is cut exactly is lost.
    Neither,
}

impl Default for Affinity {
    fn default() -> (r: Affinity)
        ensures
            r == Affinity::Forward,
    {
        Affinity::Forward
    }
}

/// The position of a node in a document tree: the child index taken at each
/// depth, from the root down. The empty path is the root.
#[derive(Debug, Eq, Hash)]
pub struct Path(Vec<usize>);

impl View for Path {
    type V = Seq<int>;

    closed spec fn view(&self) -> Seq<int> {
        Seq::new(self.0@.len(), |i: int| self.0@[i] as int)
    }
}

impl Clone for Path {
    fn clone(&self) -> (r: Path)
        ensures
            r@ == self@,
    {
        Path(self.0.clone())
    }
}

impl PartialEq for Path {
    fn eq(&self, other: &Path) -> (r: bool) {
        if self.0.len() != other.0.len() {
            assert(self@.len() != other@.len());
            return false;
        }
        let r = self.agrees_upto(other, self.0.len());
        assert(self@.subrange(0, self@.len() as int) =~= self@);
        assert(other@.subrange(0, other@.len() as int) =~= other@);
        r
    }
}

impl PartialEqSpecImpl for Path {
    open spec fn obeys_eq_spec() -> bool {
        true
    }

    open spec fn eq_spec(&self, other: &Path) -> bool {
        self@ == other@
    }
}

impl PartialOrd for Path {
    fn partial_cmp(&self, other: &Path) -> (r: Option<Ordering>) {
        Some(self.cmp(other))
    }
}

impl PartialOrdSpecImpl for Path {
    open spec fn obeys_partial_cmp_spec() -> bool {
        true
    }

    open spec fn partial_cmp_spec(&self, other: &Path) -> Option<Ordering> {
        Some(order_of(self@, other@))
    }
}

impl From<Vec<usize>> for Path {
    fn from(inner: Vec<usize>) -> (r: Path) {
        Path(inner)
    }
}

impl FromSpecImpl<Vec<usize>> for Path {
    open spec fn obeys_from_spec() -> bool {
        true
    }

    closed spec fn from_spec(inner: Vec<usize>) -> Path {
        Path(inner)
    }
}

impl Path {
    /// A path made from a list of indices by conversion takes those indices
    /// in turn.
    pub proof fn lemma_from(inner: Vec<usize>)
        ensures
            <Path as FromSpec<Vec<usize>>>::from_spec(inner)@ == Seq::new(
                inner@.len(),
                |i: int| inner@[i] as int,
            ),
    {
    }

    /// The path that takes the given child indices in turn.
    pub fn new(inner: Vec<usize>) -> (r: Path)
        ensures
            r@ == Seq::new(inner@.len(), |i: int| inner@[i] as int),
            representable(r@),
    {
        Path(inner)
    }

    /// A path holds machine integers, so each of its indices is representable.
    pub proof fn lemma_representable(&self)
        ensures
            representable(self@),
    {
    }

    /// The depth of the node that the path names.
    pub fn len(&self) -> (n: usize)
        ensures
            n == self@.len(),
    {
        self.0.len()
    }

    /// The index taken at depth `i`.
    pub fn get(&self, i: usize) -> (r: Option<usize>)
        ensures
            match r {
                Some(x) => i < self@.len() && x == self@[i as int],
                None => i >= self@.len(),
            },
    {
        if i < self.0.len() {
            Some(self.0[i])
        } else {
            None
        }
    }

    /// The path of child `i` of the node that this path names.
    pub fn concat(&self, i: usize) -> (r: Path)
        ensures
            r@ == self@.push(i as int),
    {
        let mut copy = self.0.clone();
        copy.push(i);
        let r = Path(copy);
        assert(r@ =~= self@.push(i as int));
        r
    }

    /// Whether the two paths hold the same first `n` indices.
    fn agrees_upto(&self, other: &Path, n: usize) -> (r: bool)
        requires
            n <= self@.len(),
            n <= other@.len(),
        ensures
            r == (self@.subrange(0, n as int) == other@.subrange(0, n as int)),
    {
        let mut i: usize = 0;
        while i < n
            invariant
                i <= n,
                n <= self@.len(),
                n <= other@.len(),
                forall|j: int| 0 <= j < i ==> self@[j] == other@[j],
            decreases n - i,
        {
            if self.0[i] != other.0[i] {
                let ghost k = i as int;
                assert(self@.subrange(0, n as int)[k] != other@.subrange(0, n as int)[k]);
                return false;
            }
            i += 1;
        }
        assert(self@.subrange(0, n as int) =~= other@.subrange(0, n as int));
        true
    }

    /// The first `n` indices of the path, as a path.
    fn take(&self, n: usize) -> (r: Path)
        requires
            n <= self@.len(),
        ensures
            r@ == self@.subrange(0, n as int),
    {
        let mut v: Vec<usize> = Vec::new();
        let mut i: usize = 0;
        while i < n
            invariant
                i <= n,
                n <= self.0@.len(),
                v@ == self.0@.subrange(0, i as int),
            decreases n - i,
        {
            v.push(self.0[i]);
            assert(v@ =~= self.0@.subrange(0, i + 1));
            i += 1;
        }
        let r = Path(v);
        assert(r@ =~= self@.subrange(0, n as int));
        r
    }

    /// The indices of the path from depth `n` on, as a path.
    fn skip(&self, n: usize) -> (r: Path)
        requires
            n <= self@.len(),
        ensures
            r@ == self@.subrange(n as int, self@.len() as int),
    {
        let mut v: Vec<usize> = Vec::new();
        let mut i: usize = n;
        while i < self.0.len()
            invariant
                n <= i <= self.0@.len(),
                v@ == self.0@.subrange(n as int, i as int),
            decreases self.0.len() - i,
        {
            v.push(self.0[i]);
            assert(v@ =~= self.0@.subrange(n as int, i + 1));
            i += 1;
        }
        let r = Path(v);
        assert(r@ =~= self@.subrange(n as int, self@.len() as int));
        r
    }

    /// The depth down to which the two paths hold the same indices.
    fn first_difference(&self, other: &Path) -> (i: usize)
        ensures
            i <= self@.len(),
            i <= other@.len(),
            self@.subrange(0, i as int) == other@.subrange(0, i as int),
            i < self@.len() && i < other@.len() ==> diverge_at(self@, other@, i as int),
            i == common_len_from(self@, other@, 0),
    {
        let mut i: usize = 0;
        while i < self.0.len() && i < other.0.len() && self.0[i] == other.0[i]
            invariant
                i <= self@.len(),
                i <= other@.len(),
                forall|j: int| 0 <= j < i ==> self@[j] == other@[j],
                common_len_from(self@, other@, 0) == common_len_from(self@, other@, i as int),
            decreases self.0.len() - i,
        {
            i += 1;
        }
        assert(self@.subrange(0, i as int) =~= other@.subrange(0, i as int));
        i
    }

    /// Every proper prefix of the path, from the root down, or from the
    /// parent up when `reverse` is set.
    pub fn ancestors(&self, reverse: bool) -> (r: Vec<Path>)
        ensures
            paths_view(r@) == ancestors_of(self@, reverse),
    {
        let n = self.0.len();
        let mut list: Vec<Path> = Vec::new();
        let mut i: usize = 0;
        while i < n
            invariant
                i <= n,
                n == self@.len(),
                list@.len() == i,
                forall|j: int| 0 <= j < i ==> (#[trigger] list@[j])@ == ancestors_of(self@, reverse)[j],
            decreases n - i,
        {
            let k = if reverse {
                n - 1 - i
            } else {
                i
            };
            list.push(self.take(k));
            i += 1;
        }
        assert(paths_view(list@) =~= ancestors_of(self@, reverse));
        list
    }

    /// The longest path that is a prefix of both paths.
    pub fn common(&self, other: &Path) -> (r: Path)
        ensures
            r@ == common_prefix(self@, other@),
    {
        let i = self.first_difference(other);
        self.take(i)
    }

    /// Whether, at the depth of this path, `other` runs through an earlier
    /// child of this path's parent.
    pub fn ends_after(&self, other: &Path) -> (r: bool)
        ensures
            r == ends_after(self@, other@),
    {
        let n = self.0.len();
        if n == 0 || n > other.0.len() {
            return false;
        }
        assert(self@.drop_last() =~= self@.subrange(0, n - 1));
        self.agrees_upto(other, n - 1) && self.0[n - 1] > other.0[n - 1]
    }

    /// Whether this path is a prefix of `other`.
    pub fn ends_at(&self, other: &Path) -> (r: bool)
        ensures
            r == self@.is_prefix_of(other@),
    {
        self.is_common(other)
    }

    /// Whether, at the depth of this path, `other` runs through a later child
    /// of this path's parent.
    pub fn ends_before(&self, other: &Path) -> (r: bool)
        ensures
            r == ends_before(self@, other@),
    {
        let n = self.0.len();
        if n == 0 || n > other.0.len() {
            return false;
        }
        assert(self@.drop_last() =~= self@.subrange(0, n - 1));
        self.agrees_upto(other, n - 1) && self.0[n - 1] < other.0[n - 1]
    }

    /// Whether the node that the path names has a preceding sibling.
    pub fn has_previous(&self) -> (r: bool)
        ensures
            r == (self@.len() > 0 && self@.last() > 0),
    {
        let n = self.0.len();
        n > 0 && self.0[n - 1] > 0
    }

    /// Whether this path comes after `other` in document order.
    pub fn is_after(&self, other: &Path) -> (r: bool)
        ensures
            r == after(self@, other@),
    {
        let i = self.first_difference(other);
        if i < self.0.len() && i < other.0.len() {
            proof {
                lemma_diverge_once(self@, other@, i as int);
            }
            self.0[i] > other.0[i]
        } else {
            proof {
                lemma_prefix_never_diverges(self@, other@, i as int);
            }
            false
        }
    }

    /// Whether this path names a node strictly above the node of `other`.
    pub fn is_ancestor(&self, other: &Path) -> (r: bool)
        ensures
            r == ancestor_of(self@, other@),
    {
        self.0.len() < other.0.len() && self.is_common(other)
    }

    /// Whether this path comes before `other` in document order.
    pub fn is_before(&self, other: &Path) -> (r: bool)
        ensures
            r == before(self@, other@),
    {
        let i = self.first_difference(other);
        if i < self.0.len() && i < other.0.len() {
            proof {
                lemma_diverge_once(self@, other@, i as int);
            }
            self.0[i] < other.0[i]
        } else {
            proof {
                lemma_prefix_never_diverges(self@, other@, i as int);
            }
            false
        }
    }

    /// Whether this path names a node directly below the node of `other`.
    pub fn is_child(&self, other: &Path) -> (r: bool)
        ensures
            r == child_of(self@, other@),
    {
        if self.0.len() == 0 || self.0.len() - 1 != other.0.len() {
            return false;
        }
        other.is_common(self)
    }

    /// Whether this path is a prefix of `other`: the same path or one above
    /// it.
    pub fn is_common(&self, other: &Path) -> (r: bool)
        ensures
            r == self@.is_prefix_of(other@),
    {
        assert(self@.subrange(0, self@.len() as int) =~= self@);
        self.0.len() <= other.0.len() && self.agrees_upto(other, self.0.len())
    }

    /// Whether this path names a node strictly below the node of `other`.
    pub fn is_descendant(&self, other: &Path) -> (r: bool)
        ensures
            r == descendant_of(self@, other@),
    {
        self.0.len() > other.0.len() && other.is_common(self)
    }

    /// Whether this path names the node directly above the node of `other`.
    pub fn is_parent(&self, other: &Path) -> (r: bool)
        ensures
            r == parent_of(self@, other@),
    {
        if other.0.len() == 0 || other.0.len() - 1 != self.0.len() {
            return false;
        }
        self.is_common(other)
    }

    /// Whether the two paths name different children of one parent.
    pub fn is_sibling(&self, other: &Path) -> (r: bool)
        ensures
            r == sibling_of(self@, other@),
    {
        let n = self.0.len();
        if n != other.0.len() || n == 0 {
            return false;
        }
        assert(self@.drop_last() =~= self@.subrange(0, n - 1));
        assert(other@.drop_last() =~= other@.subrange(0, n - 1));
        self.0[n - 1] != other.0[n - 1] && self.agrees_upto(other, n - 1)
    }

    /// Every prefix of the path, the root and the path itself included, from
    /// the root down, or from the path up when `reverse` is set.
    pub fn levels(&self, reverse: bool) -> (r: Vec<Path>)
        ensures
            paths_view(r@) == levels_of(self@, reverse),
    {
        let n = self.0.len();
        let mut list: Vec<Path> = Vec::new();
        let mut i: usize = 0;
        while i <= n
            invariant
                i <= n + 1,
                n == self@.len(),
                list@.len() == i,
                forall|j: int| 0 <= j < i ==> (#[trigger] list@[j])@ == levels_of(self@, reverse)[j],
            decreases n + 1 - i,
        {
            let k = if reverse {
                n - i
            } else {
                i
            };
            list.push(self.take(k));
            if i == n {
                assert(paths_view(list@) =~= levels_of(self@, reverse));
                return list;
            }
            i += 1;
        }
        list
    }

    /// The path of the following sibling. The root has none.
    pub fn next(&self) -> (r: Option<Path>)
        requires
            self@.len() > 0 ==> self@.last() < usize::MAX,
        ensures
            optional_path_view(r) == next_of(self@),
    {
        let n = self.0.len();
        if n == 0 {
            return None;
        }
        let mut v = self.0.clone();
        v.set(n - 1, self.0[n - 1] + 1);
        let r = Path(v);
        assert(r@ =~= self@.update(n - 1, self@.last() + 1));
        Some(r)
    }

    /// The path of the parent. The root has none.
    pub fn parent(&self) -> (r: Option<Path>)
        ensures
            optional_path_view(r) == parent_path(self@),
    {
        let n = self.0.len();
        if n == 0 {
            return None;
        }
        let r = self.take(n - 1);
        assert(r@ =~= self@.drop_last());
        Some(r)
    }

    /// The path of the preceding sibling. The root and a first child have
    /// none.
    pub fn previous(&self) -> (r: Option<Path>)
        ensures
            optional_path_view(r) == previous_of(self@),
    {
        let n = self.0.len();
        if n == 0 || self.0[n - 1] == 0 {
            return None;
        }
        let mut v = self.0.clone();
        v.set(n - 1, self.0[n - 1] - 1);
        let r = Path(v);
        assert(r@ =~= self@.update(n - 1, self@.last() - 1));
        Some(r)
    }

    /// What is left of the path below `ancestor`, where `ancestor` is this
    /// path or one above it. There is none for any other `ancestor`.
    pub fn relative(&self, ancestor: &Path) -> (r: Option<Path>)
        ensures
            optional_path_view(r) == relative_to(self@, ancestor@),
    {
        if !ancestor.is_common(self) {
            return None;
        }
        Some(self.skip(ancestor.0.len()))
    }

    /// How this path compares with `other` in document order. A path
    /// compares equal to itself and to every path above or below it.
    pub fn cmp(&self, other: &Path) -> (o: Ordering)
        ensures
            o == order_of(self@, other@),
    {
        if self.is_before(other) {
            Ordering::Less
        } else if self.is_after(other) {
            Ordering::Greater
        } else {
            Ordering::Equal
        }
    }

    /// The path with `by` added to the index at depth `i`.
    fn bump(&mut self, i: usize, by: usize)
        requires
            i < old(self)@.len(),
            old(self)@[i as int] + by <= usize::MAX,
        ensures
            final(self)@ == shifted(old(self)@, i as int, by as int),
    {
        let x = self.0[i];
        self.0.set(i, x + by);
        assert(self@ =~= shifted(old(self)@, i as int, by as int));
    }

    /// The path with `by` taken from the index at depth `i`.
    fn drop_by(&mut self, i: usize, by: usize)
        requires
            i < old(self)@.len(),
            old(self)@[i as int] >= by,
        ensures
            final(self)@ == shifted(old(self)@, i as int, -(by as int)),
    {
        let x = self.0[i];
        self.0.set(i, x - by);
        assert(self@ =~= shifted(old(self)@, i as int, -(by as int)));
    }

    /// The path followed by the indices of `tail`.
    fn join(&self, tail: &Path) -> (r: Path)
        ensures
            r@ == self@ + tail@,
    {
        let mut v = self.0.clone();
        let mut i: usize = 0;
        while i < tail.0.len()
            invariant
                i <= tail.0@.len(),
                v@ == self.0@ + tail.0@.subrange(0, i as int),
            decreases tail.0.len() - i,
        {
            v.push(tail.0[i]);
            assert(v@ =~= self.0@ + tail.0@.subrange(0, i + 1));
            i += 1;
        }
        let r = Path(v);
        assert(r@ =~= self@ + tail@);
        r
    }

    /// Where the node at `path` is found after the node at `from` has been
    /// moved to `to`.
    fn transform_move(path: &Path, from: &Path, to: &Path) -> (r: Path)
        requires
            path@.len() > 0,
            from@ == to@ || (from@.len() > 0 && to@.len() > 0),
            representable(moved(path@, from@, to@)),
        ensures
            r@ == moved(path@, from@, to@),
    {
        let mut p = path.clone();
        if from == to {
            return p;
        }
        let d = from.len();
        if from.is_ancestor(path) || from == path {
            let mut base = to.clone();
            let tail = path.skip(d);
            if from.ends_before(to) && d < to.len() {
                proof {
                    let q = shifted(to@, d - 1, -1) + tail@;
                    assert(q[d - 1] == to@[d - 1] - 1);
                }
                base.drop_by(d - 1, 1);
            }
            return base.join(&tail);
        }
        proof {
            path.lemma_representable();
        }
        if from.is_sibling(to) && (to.is_ancestor(path) || to == path) {
            if from.ends_before(path) {
                p.drop_by(d - 1, 1);
            } else {
                assert(shifted(p@, d - 1, 1)[d - 1] == p@[d - 1] + 1);
                p.bump(d - 1, 1);
            }
        } else if to.ends_before(path) || to == path || to.is_ancestor(path) {
            let n = to.len();
            if from.ends_before(path) {
                p.drop_by(d - 1, 1);
            }
            assert(shifted(p@, n - 1, 1)[n - 1] == p@[n - 1] + 1);
            p.bump(n - 1, 1);
        } else if from.ends_before(path) {
            p.drop_by(d - 1, 1);
        }
        p
    }

    /// Where the node at `path` is found after `operation` has been applied:
    /// the new path, or nothing if the node is no longer in the document.
    /// `affinity` decides for a node that is split exactly at `path`.
    pub fn transform(path: &Path, operation: &Operation, affinity: Affinity) -> (r: Option<Path>)
        requires
            path@.len() > 0 ==> below_root(operation@),
            transform_fits(path@, operation@, affinity),
        ensures
            optional_path_view(r) == transformed(path@, operation@, affinity),
    {
        let mut p = path.clone();
        if path.len() == 0 {
            return Some(p);
        }
        proof {
            path.lemma_representable();
        }
        match operation {
            Operation::InsertNode { path: op, .. } => {
                if op == path || op.ends_before(path) || op.is_ancestor(path) {
                    let d = op.len();
                    assert(shifted(p@, d - 1, 1)[d - 1] == p@[d - 1] + 1);
                    p.bump(d - 1, 1);
                }
            },
            Operation::RemoveNode { path: op, .. } => {
                if op == path || op.is_ancestor(path) {
                    return None;
                } else if op.ends_before(path) {
                    p.drop_by(op.len() - 1, 1);
                }
            },
            Operation::MergeNode { path: op, position, .. } => {
                let d = op.len();
                if op == path || op.ends_before(path) {
                    assert(shifted(p@, d - 1, -1)[d - 1] == p@[d - 1] - 1);
                    p.drop_by(d - 1, 1);
                } else if op.is_ancestor(path) {
                    let ghost q = shifted(shifted(p@, d - 1, -1), d as int, *position as int);
                    assert(q[d - 1] == p@[d - 1] - 1);
                    assert(q[d as int] == p@[d as int] + *position);
                    p.drop_by(d - 1, 1);
                    p.bump(d, *position);
                }
            },
            Operation::SplitNode { path: op, position, .. } => {
                let d = op.len();
                if op == path {
                    match affinity {
                        Affinity::Forward => {
                            assert(shifted(p@, d - 1, 1)[d - 1] == p@[d - 1] + 1);
                            p.bump(d - 1, 1);
                        },
                        Affinity::Backward => {},
                        Affinity::Neither => {
                            return None;
                        },
                    }
                } else if op.ends_before(path) {
                    assert(shifted(p@, d - 1, 1)[d - 1] == p@[d - 1] + 1);
                    p.bump(d - 1, 1);
                } else if op.is_ancestor(path) && path.0[d] >= *position {
                    let ghost q = shifted(shifted(p@, d - 1, 1), d as int, -(*position as int));
                    assert(q[d - 1] == p@[d - 1] + 1);
                    p.bump(d - 1, 1);
                    p.drop_by(d, *position);
                }
            },
            Operation::MoveNode { path: op, new_path } => {
                return Some(Path::transform_move(path, op, new_path));
            },
            _ => {},
        }
        Some(p)
    }
}

} // verus!
