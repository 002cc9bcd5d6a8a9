use vstd::prelude::*;
use crate::operation::OperationView;
use crate::operation::inverse_of;
use crate::operation::names_paths;
use crate::operation::natural;
use crate::operation::reversible;
use crate::path::Affinity;
use crate::path::ancestor_of;
use crate::path::below_root;
use crate::path::ends_before;
use crate::path::moved;
use crate::path::next_of;
use crate::path::previous_of;
use crate::path::shifted;
use crate::path::sibling_of;
use crate::point::PointView;
use crate::point::byte_len;
use crate::point::point_transformed;
use crate::range::RangeView;
use crate::range::anchor_affinity;
use crate::range::focus_affinity;
use crate::range::range_transformed;
use crate::range;

verus! {

/// Marks `k` as a depth at which a proof compares two paths. It holds of
/// every depth.
pub open spec fn depth(k: int) -> bool {
    true
}

/// The two paths hold the same first `n` indices.
pub open spec fn agree(a: Seq<int>, b: Seq<int>, n: int) -> bool {
    forall|k: int| #[trigger] depth(k) && 0 <= k < n ==> a[k] == b[k]
}

/// How two paths stand to each other, said index by index.
pub proof fn lemma_by_index(a: Seq<int>, b: Seq<int>)
    ensures
        a == b <==> a.len() == b.len() && agree(a, b, a.len() as int),
        ancestor_of(a, b) <==> a.len() < b.len() && agree(a, b, a.len() as int),
        ends_before(a, b) <==> 0 < a.len() <= b.len() && agree(a, b, a.len() - 1) && a[a.len() - 1]
            < b[a.len() - 1],
        sibling_of(a, b) <==> 0 < a.len() == b.len() && agree(a, b, a.len() - 1) && a[a.len() - 1]
            != b[a.len() - 1],
{
    let n = a.len() as int;
    if a.len() == b.len() && agree(a, b, n) {
        assert forall|k: int| 0 <= k < n implies a[k] == b[k] by {
            assert(depth(k));
        }
        assert(a =~= b);
    }
    if a.len() < b.len() {
        if agree(a, b, n) {
            assert forall|k: int| 0 <= k < n implies a[k] == b[k] by {
                assert(depth(k));
            }
            assert(a =~= b.subrange(0, n));
        }
        if a.is_prefix_of(b) {
            assert forall|k: int| #[trigger] depth(k) && 0 <= k < n implies a[k] == b[k] by {
                assert(b.subrange(0, n)[k] == b[k]);
            }
        }
    }
    if 0 < a.len() <= b.len() {
        if agree(a, b, n - 1) {
            assert forall|k: int| 0 <= k < n - 1 implies a[k] == b[k] by {
                assert(depth(k));
            }
            assert(a.drop_last() =~= b.subrange(0, n - 1));
        }
        if a.drop_last() == b.subrange(0, n - 1) {
            assert forall|k: int| #[trigger] depth(k) && 0 <= k < n - 1 implies a[k] == b[k] by {
                assert(a.drop_last()[k] == a[k]);
                assert(b.subrange(0, n - 1)[k] == b[k]);
            }
        }
    }
    if 0 < a.len() == b.len() {
        if agree(a, b, n - 1) {
            assert forall|k: int| 0 <= k < n - 1 implies a[k] == b[k] by {
                assert(depth(k));
            }
            assert(a.drop_last() =~= b.drop_last());
        }
        if a.drop_last() == b.drop_last() {
            assert forall|k: int| #[trigger] depth(k) && 0 <= k < n - 1 implies a[k] == b[k] by {
                assert(a.drop_last()[k] == a[k]);
                assert(b.drop_last()[k] == b[k]);
            }
        }
    }
}

/// A node that is moved within its parent, and whatever stands in the
/// document, is found again where it was once the node has been moved back.
#[verifier::spinoff_prover]
pub proof fn lemma_sibling_move_back(p: Seq<int>, from: Seq<int>, to: Seq<int>)
    requires
        natural(p),
        natural(from),
        natural(to),
        p.len() > 0,
        sibling_of(from, to),
    ensures
        moved(moved(p, from, to), to, from) == p,
{
    let d = from.len() as int;
    let q = moved(p, from, to);
    assert(depth(d - 1) && depth(d));
    lemma_by_index(from, to);
    lemma_by_index(to, from);
    lemma_by_index(from, p);
    lemma_by_index(to, p);
    if ancestor_of(from, p) || from == p {
        assert(q =~= to + p.subrange(d, p.len() as int));
        lemma_by_index(to, q);
        lemma_by_index(from, q);
        assert(ancestor_of(to, q) || to == q);
        assert(moved(q, to, from) =~= from + q.subrange(d, q.len() as int));
        assert(from + q.subrange(d, q.len() as int) =~= p);
    } else {
        lemma_by_index(to, q);
        lemma_by_index(from, q);
        assert(q.len() == p.len());
        assert(!(ancestor_of(to, q) || to == q));
        assert(moved(q, to, from) =~= p);
    }
}

/// Where a node that is moved out of its parent is found after the move, and
/// where the move leaves the place that the node has left.
#[verifier::spinoff_prover]
pub proof fn lemma_move_ends(from: Seq<int>, to: Seq<int>)
    requires
        natural(from),
        natural(to),
        from.len() > 0,
        to.len() > 0,
        from != to,
        !sibling_of(from, to),
        !ancestor_of(from, to),
    ensures
        ({
            let following = next_of(from).unwrap();
            let back = moved(from, from, to);
            let left = moved(following, from, to);
            if ends_before(from, to) {
                from.len() < to.len() && back == shifted(to, from.len() - 1, -1) && left == from
            } else if ends_before(to, following) || ancestor_of(to, following) {
                to.len() < from.len() && back == to && left == shifted(from, to.len() - 1, 1)
            } else {
                back == to && left == from
            }
        }),
{
    let d = from.len() as int;
    let following = next_of(from).unwrap();
    assert(depth(d - 1) && depth(d) && depth(to.len() - 1) && depth(to.len() as int));
    lemma_by_index(from, to);
    lemma_by_index(to, from);
    lemma_by_index(from, following);
    lemma_by_index(to, following);
    assert(from.subrange(d, d) =~= Seq::<int>::empty());
    let base = if ends_before(from, to) && from.len() < to.len() {
        shifted(to, d - 1, -1)
    } else {
        to
    };
    assert(base + from.subrange(d, d) =~= base);
    assert(shifted(following, d - 1, -1) =~= from);
    if ends_before(from, to) {
    } else if ends_before(to, following) || ancestor_of(to, following) {
        assert(shifted(shifted(following, d - 1, -1), to.len() - 1, 1) =~= shifted(
            from,
            to.len() - 1,
            1,
        ));
    } else {
    }
}

/// The inverse of a move that takes a node out of its parent is again such a
/// move, and it leads back: its own inverse is the move.
#[verifier::spinoff_prover]
#[verifier::rlimit(60)]
pub proof fn lemma_move_inverse(from: Seq<int>, to: Seq<int>)
    requires
        natural(from),
        natural(to),
        from.len() > 0,
        to.len() > 0,
        from != to,
        !sibling_of(from, to),
        !ancestor_of(from, to),
    ensures
        ({
            let back = moved(from, from, to);
            let left = moved(next_of(from).unwrap(), from, to);
            &&& back.len() > 0
            &&& left.len() > 0
            &&& back != left
            &&& !sibling_of(back, left)
            &&& !ancestor_of(back, left)
            &&& natural(back)
            &&& natural(left)
            &&& moved(back, back, left) == from
            &&& moved(next_of(back).unwrap(), back, left) == to
        }),
{
    let d = from.len() as int;
    let e = to.len() as int;
    let following = next_of(from).unwrap();
    let back = moved(from, from, to);
    let left = moved(following, from, to);
    assert(depth(d - 1) && depth(d) && depth(e - 1) && depth(e));
    lemma_move_ends(from, to);
    lemma_by_index(from, to);
    lemma_by_index(to, from);
    lemma_by_index(to, following);
    lemma_by_index(back, left);
    lemma_by_index(left, back);
    lemma_move_ends(back, left);
    let after_back = next_of(back).unwrap();
    lemma_by_index(back, after_back);
    lemma_by_index(left, after_back);
    if ends_before(from, to) {
        assert(left == after_back || ends_before(left, after_back) || ancestor_of(
            left,
            after_back,
        ));
        assert(moved(back, back, left) =~= from);
        assert(moved(after_back, back, left) =~= to);
    } else if ends_before(to, following) || ancestor_of(to, following) {
        assert(ends_before(back, left));
        assert(moved(back, back, left) =~= from);
        assert(moved(after_back, back, left) =~= to);
    } else {
        assert(moved(back, back, left) =~= from);
        assert(moved(after_back, back, left) =~= to);
    }
}

/// What stands at or below a node that is moved out of its parent goes with
/// it, and comes back with it once the node has been moved back.
#[verifier::spinoff_prover]
pub proof fn lemma_carried_back(p: Seq<int>, from: Seq<int>, to: Seq<int>)
    requires
        natural(p),
        natural(from),
        natural(to),
        from.len() > 0,
        to.len() > 0,
        from != to,
        !sibling_of(from, to),
        !ancestor_of(from, to),
        ancestor_of(from, p) || from == p,
    ensures
        moved(
            moved(p, from, to),
            moved(from, from, to),
            moved(next_of(from).unwrap(), from, to),
        ) == p,
{
    let d = from.len() as int;
    let e = to.len() as int;
    let following = next_of(from).unwrap();
    let back = moved(from, from, to);
    let left = moved(following, from, to);
    let q = moved(p, from, to);
    assert(depth(d - 1) && depth(d) && depth(e - 1) && depth(e));
    lemma_move_ends(from, to);
    lemma_by_index(from, to);
    lemma_by_index(to, from);
    lemma_by_index(from, following);
    lemma_by_index(to, following);
    lemma_by_index(from, p);
    lemma_by_index(back, left);
    lemma_by_index(left, back);
    assert(from.subrange(d, d) =~= Seq::<int>::empty());
    assert(q =~= back + p.subrange(d, p.len() as int));
    lemma_by_index(back, q);
    let base = if ends_before(back, left) && back.len() < left.len() {
        shifted(left, back.len() - 1, -1)
    } else {
        left
    };
    assert(base =~= from);
    assert(moved(q, back, left) =~= from + q.subrange(back.len() as int, q.len() as int));
    assert(from + q.subrange(back.len() as int, q.len() as int) =~= p);
}

/// What stands beside a node that is moved below a later sibling of it is
/// found again where it was once the node has been moved back.
#[verifier::rlimit(60)]
#[verifier::spinoff_prover]
pub proof fn lemma_beside_move_down(p: Seq<int>, from: Seq<int>, to: Seq<int>)
    requires
        natural(p),
        natural(from),
        natural(to),
        p.len() > 0,
        from.len() < to.len(),
        ends_before(from, to),
        !(ancestor_of(from, p) || from == p),
    ensures
        moved(moved(p, from, to), shifted(to, from.len() - 1, -1), from) == p,
{
    let d = from.len() as int;
    let e = to.len() as int;
    let back = shifted(to, d - 1, -1);
    let q = moved(p, from, to);
    assert(depth(d - 1) && depth(d) && depth(e - 1) && depth(e));
    lemma_by_index(from, to);
    lemma_by_index(to, from);
    lemma_by_index(from, p);
    lemma_by_index(to, p);
    lemma_by_index(back, from);
    lemma_by_index(from, back);
    assert(!sibling_of(from, to));
    assert(!sibling_of(back, from));
    if ends_before(to, p) || to == p || ancestor_of(to, p) {
        assert(ends_before(from, p));
        assert(q =~= shifted(shifted(p, d - 1, -1), e - 1, 1));
        lemma_by_index(back, q);
        lemma_by_index(from, q);
        assert(!(ancestor_of(back, q) || back == q));
        assert(ends_before(from, q) || from == q || ancestor_of(from, q));
        assert(ends_before(back, q));
        assert(shifted(shifted(q, e - 1, -1), d - 1, 1) =~= p);
    } else if ends_before(from, p) {
        assert(q =~= shifted(p, d - 1, -1));
        lemma_by_index(back, q);
        lemma_by_index(from, q);
        assert(!(ancestor_of(back, q) || back == q)) by {
            if ancestor_of(back, q) || back == q {
                assert forall|k: int| #[trigger] depth(k) && 0 <= k < e implies to[k] == p[k] by {
                    assert(back[k] == q[k]);
                }
                assert(agree(to, p, e));
            }
        }
        assert(ends_before(from, q) || from == q || ancestor_of(from, q));
        assert(!ends_before(back, q)) by {
            if ends_before(back, q) {
                assert forall|k: int| #[trigger] depth(k) && 0 <= k < e - 1 implies to[k]
                    == p[k] by {
                    assert(back[k] == q[k]);
                }
                assert(agree(to, p, e - 1));
            }
        }
        assert(shifted(q, d - 1, 1) =~= p);
    } else {
        assert(q == p);
        lemma_by_index(back, q);
        lemma_by_index(from, q);
        assert(!(ancestor_of(back, q) || back == q));
        assert(!ends_before(back, q));
    }
    assert(moved(q, back, from) =~= p);
}

/// What stands beside a node that is moved before or above the place that it
/// leaves is found again where it was once the node has been moved back.
#[verifier::rlimit(60)]
#[verifier::spinoff_prover]
pub proof fn lemma_beside_move_up(p: Seq<int>, from: Seq<int>, to: Seq<int>)
    requires
        natural(p),
        natural(from),
        natural(to),
        p.len() > 0,
        0 < to.len() < from.len(),
        !ends_before(from, to),
        ends_before(to, next_of(from).unwrap()) || ancestor_of(to, next_of(from).unwrap()),
        !(ancestor_of(from, p) || from == p),
    ensures
        moved(moved(p, from, to), to, shifted(from, to.len() - 1, 1)) == p,
{
    let d = from.len() as int;
    let e = to.len() as int;
    let following = next_of(from).unwrap();
    let left = shifted(from, e - 1, 1);
    let q = moved(p, from, to);
    assert(depth(d - 1) && depth(d) && depth(e - 1) && depth(e));
    lemma_by_index(from, to);
    lemma_by_index(to, from);
    lemma_by_index(to, following);
    lemma_by_index(from, p);
    lemma_by_index(to, p);
    lemma_by_index(to, left);
    lemma_by_index(left, to);
    assert(!sibling_of(from, to));
    assert(!sibling_of(to, left));
    assert(agree(to, from, e - 1) && to[e - 1] <= from[e - 1]);
    if ends_before(to, p) || to == p || ancestor_of(to, p) {
        let first = if ends_before(from, p) {
            shifted(p, d - 1, -1)
        } else {
            p
        };
        assert(q =~= shifted(first, e - 1, 1));
        lemma_by_index(to, q);
        lemma_by_index(left, q);
        assert(!(ancestor_of(to, q) || to == q));
        assert(ends_before(to, q));
        if ends_before(from, p) {
            assert(ends_before(left, q) || left == q || ancestor_of(left, q));
            assert(shifted(shifted(q, e - 1, -1), d - 1, 1) =~= p);
        } else {
            assert(!(ends_before(left, q) || left == q || ancestor_of(left, q))) by {
                if ends_before(left, q) || left == q || ancestor_of(left, q) {
                    assert forall|k: int| #[trigger] depth(k) && 0 <= k < d - 1 implies from[k]
                        == p[k] by {
                        assert(left[k] == q[k]);
                    }
                    assert(agree(from, p, d - 1));
                }
            }
            assert(shifted(q, e - 1, -1) =~= p);
        }
    } else if ends_before(from, p) {
        assert(false);
    } else {
        assert(q == p);
        lemma_by_index(to, q);
        lemma_by_index(left, q);
        assert(!(ends_before(left, q) || left == q || ancestor_of(left, q))) by {
            if ends_before(left, q) || left == q || ancestor_of(left, q) {
                assert(left[e - 1] == q[e - 1]);
                assert forall|k: int| #[trigger] depth(k) && 0 <= k < e - 1 implies to[k]
                    == p[k] by {
                    assert(left[k] == q[k]);
                }
                assert(agree(to, p, e - 1));
            }
        }
    }
    assert(moved(q, to, left) =~= p);
}

/// What stands beside a node that is moved to a place that does not shift
/// the place that it leaves, nor is shifted by it, is found again where it
/// was once the node has been moved back.
#[verifier::rlimit(60)]
#[verifier::spinoff_prover]
pub proof fn lemma_beside_move_apart(p: Seq<int>, from: Seq<int>, to: Seq<int>)
    requires
        natural(p),
        natural(from),
        natural(to),
        p.len() > 0,
        from.len() > 0,
        to.len() > 0,
        from != to,
        !sibling_of(from, to),
        !ancestor_of(from, to),
        !ends_before(from, to),
        !ends_before(to, next_of(from).unwrap()),
        !ancestor_of(to, next_of(from).unwrap()),
        !(ancestor_of(from, p) || from == p),
    ensures
        moved(moved(p, from, to), to, from) == p,
{
    let d = from.len() as int;
    let e = to.len() as int;
    let following = next_of(from).unwrap();
    let q = moved(p, from, to);
    assert(depth(d - 1) && depth(d) && depth(e - 1) && depth(e));
    lemma_by_index(from, to);
    lemma_by_index(to, from);
    lemma_by_index(to, following);
    lemma_by_index(from, p);
    lemma_by_index(to, p);
    assert(q.len() == p.len());
    lemma_by_index(to, q);
    lemma_by_index(from, q);
    assert(moved(q, to, from) =~= p);
}

/// Whatever stands in the document while a node is moved out of its parent is
/// found again where it was once the node has been moved back.
pub proof fn lemma_far_move_back(p: Seq<int>, from: Seq<int>, to: Seq<int>)
    requires
        natural(p),
        natural(from),
        natural(to),
        p.len() > 0,
        from.len() > 0,
        to.len() > 0,
        from != to,
        !sibling_of(from, to),
        !ancestor_of(from, to),
    ensures
        moved(
            moved(p, from, to),
            moved(from, from, to),
            moved(next_of(from).unwrap(), from, to),
        ) == p,
{
    let following = next_of(from).unwrap();
    lemma_move_ends(from, to);
    if ancestor_of(from, p) || from == p {
        lemma_carried_back(p, from, to);
    } else if ends_before(from, to) {
        lemma_beside_move_down(p, from, to);
    } else if ends_before(to, following) || ancestor_of(to, following) {
        lemma_beside_move_up(p, from, to);
    } else {
        lemma_beside_move_apart(p, from, to);
    }
}

/// The point `pt` is one that the inverse of `op` brings back after `op`,
/// where its place after `op` leans as `affinity` says.
///
/// Every point comes back but these. A point at the root is lost when the
/// root itself is inserted and removed again. Text that is removed takes
/// with it the places of the points inside it, and of the points where it
/// began. A merge
/// brings the end of the preceding node and the start of the merged node to
/// one place: of the two only the one that `affinity` leans to comes back.
/// The points that text handled above their leaf has shifted do not come
/// back, nor do points behind the end of a node that another is merged into.
pub open spec fn comes_back(pt: PointView, op: OperationView, affinity: Affinity) -> bool {
    match op {
        OperationView::InsertNode { path, .. } => !(path.len() == 0 && pt.path.len() == 0),
        OperationView::InsertText { path, offset, text } => !(ancestor_of(path, pt.path)
            && pt.offset > offset && byte_len(text) > 0),
        OperationView::RemoveText { path, offset, text } => {
            ||| byte_len(text) == 0
            ||| {
                &&& !(path == pt.path && offset <= pt.offset < offset + byte_len(text))
                &&& !(ancestor_of(path, pt.path) && pt.offset > offset)
            }
        },
        OperationView::MergeNode { path, position, .. } => {
            let previous = previous_of(path).unwrap();
            &&& !(pt.path == path && pt.offset == 0 && affinity != Affinity::Forward)
            &&& !(pt.path == previous && (pt.offset > position || (pt.offset == position
                && affinity != Affinity::Backward)))
            &&& !(ancestor_of(previous, pt.path) && pt.path[path.len() as int] >= position)
        },
        _ => true,
    }
}

/// A path comes back after a node has been inserted and removed again.
proof fn lemma_insert_back(p: Seq<int>, at: Seq<int>)
    requires
        natural(p),
        natural(at),
        at.len() > 0,
        p.len() > 0,
    ensures
        ({
            let q = if at == p || ends_before(at, p) || ancestor_of(at, p) {
                shifted(p, at.len() - 1, 1)
            } else {
                p
            };
            &&& !(at == q || ancestor_of(at, q))
            &&& p == if ends_before(at, q) {
                shifted(q, at.len() - 1, -1)
            } else {
                q
            }
        }),
{
    let d = at.len() as int;
    let q = if at == p || ends_before(at, p) || ancestor_of(at, p) {
        shifted(p, d - 1, 1)
    } else {
        p
    };
    assert(depth(d - 1) && depth(d));
    lemma_by_index(at, p);
    lemma_by_index(at, q);
    if ends_before(at, q) {
        assert(shifted(q, d - 1, -1) =~= p);
    }
}

/// A path that is not removed with a node comes back after the node has been
/// removed and inserted again.
proof fn lemma_remove_back(p: Seq<int>, at: Seq<int>)
    requires
        natural(p),
        natural(at),
        at.len() > 0,
        p.len() > 0,
        !(at == p || ancestor_of(at, p)),
    ensures
        ({
            let q = if ends_before(at, p) {
                shifted(p, at.len() - 1, -1)
            } else {
                p
            };
            p == if at == q || ends_before(at, q) || ancestor_of(at, q) {
                shifted(q, at.len() - 1, 1)
            } else {
                q
            }
        }),
{
    let d = at.len() as int;
    let q = if ends_before(at, p) {
        shifted(p, d - 1, -1)
    } else {
        p
    };
    assert(depth(d - 1) && depth(d));
    lemma_by_index(at, p);
    lemma_by_index(at, q);
    if at == q || ends_before(at, q) || ancestor_of(at, q) {
        assert(shifted(q, d - 1, 1) =~= p);
    }
}

/// The inverse of an operation brings back every point that the operation
/// has not removed, with the exceptions that `comes_back` names, and no
/// others.
pub proof fn law_point_round_trip(
    pt: PointView,
    op: OperationView,
    there: Affinity,
    back: Affinity,
)
    requires
        natural(pt.path),
        pt.offset >= 0,
        names_paths(op),
        reversible(op),
        pt.path.len() > 0 ==> below_root(op),
        point_transformed(pt, op, there) is Some,
    ensures
        point_transformed(point_transformed(pt, op, there).unwrap(), inverse_of(op), back) == Some(
            pt,
        ) <==> comes_back(pt, op, back),
{
    let q = point_transformed(pt, op, there).unwrap();
    let p = pt.path;
    match op {
        OperationView::InsertNode { path, .. } => {
            if p.len() > 0 {
                lemma_insert_back(p, path);
            } else if path.len() == 0 {
                assert(path =~= p);
            }
        },
        OperationView::RemoveNode { path, .. } => {
            if p.len() > 0 {
                lemma_remove_back(p, path);
            }
        },
        OperationView::MoveNode { path, new_path } => {
            if p.len() > 0 {
                if path == new_path {
                } else if sibling_of(path, new_path) {
                    lemma_sibling_move_back(p, path, new_path);
                    assert(sibling_of(new_path, path));
                } else {
                    lemma_far_move_back(p, path, new_path);
                    lemma_move_inverse(path, new_path);
                }
            }
        },
        OperationView::InsertText { path, offset, text } => {},
        OperationView::RemoveText { path, offset, text } => {},
        OperationView::MergeNode { path, position, .. } => {
            lemma_merge_back(pt, op, there, back);
        },
        OperationView::SplitNode { path, position, .. } => {
            lemma_split_back(pt, op, there, back);
        },
        _ => {},
    }
}

/// What `law_point_round_trip` says of a merge.
proof fn lemma_merge_back(pt: PointView, op: OperationView, there: Affinity, back: Affinity)
    requires
        natural(pt.path),
        pt.offset >= 0,
        op is MergeNode,
        names_paths(op),
        reversible(op),
    ensures
        point_transformed(point_transformed(pt, op, there).unwrap(), inverse_of(op), back) == Some(
            pt,
        ) <==> comes_back(pt, op, back),
{
    let at = op->MergeNode_path;
    let position = op->MergeNode_position;
    let d = at.len() as int;
    let p = pt.path;
    let previous = previous_of(at).unwrap();
    let undo = inverse_of(op);
    let q = point_transformed(pt, op, there).unwrap();
    let r = point_transformed(q, undo, back);
    assert(depth(d - 1) && depth(d));
    lemma_by_index(at, p);
    lemma_by_index(previous, p);
    lemma_by_index(previous, q.path);
    lemma_by_index(at, previous);
    if p.len() == 0 {
        assert(r == Some(pt));
    } else if at == p {
        assert(q.path =~= previous);
        assert(shifted(previous, d - 1, 1) =~= p);
        if pt.offset == 0 && back != Affinity::Forward {
            assert(r != Some(pt)) by {
                assert(previous[d - 1] != p[d - 1]);
            }
        } else {
            assert(r == Some(pt));
        }
    } else if ends_before(at, p) {
        assert(shifted(q.path, d - 1, 1) =~= p);
        assert(r == Some(pt));
    } else if ancestor_of(at, p) {
        assert(shifted(shifted(q.path, d - 1, 1), d, -position) =~= p);
        assert(r == Some(pt));
    } else {
        assert(q == pt);
        if previous == p {
            if pt.offset > position || (pt.offset == position && back != Affinity::Backward) {
                assert(r != Some(pt)) by {
                    assert(shifted(p, d - 1, 1)[d - 1] != p[d - 1]);
                }
            } else {
                assert(r == Some(pt));
            }
        } else if ancestor_of(previous, p) && p[d] >= position {
            assert(r != Some(pt)) by {
                assert(shifted(shifted(p, d - 1, 1), d, -position)[d - 1] != p[d - 1]);
            }
        } else {
            assert(!ends_before(previous, p));
            assert(r == Some(pt));
        }
    }
}

/// What `law_point_round_trip` says of a split.
proof fn lemma_split_back(pt: PointView, op: OperationView, there: Affinity, back: Affinity)
    requires
        natural(pt.path),
        op is SplitNode,
        names_paths(op),
        reversible(op),
        point_transformed(pt, op, there) is Some,
    ensures
        point_transformed(point_transformed(pt, op, there).unwrap(), inverse_of(op), back) == Some(
            pt,
        ),
{
    let at = op->SplitNode_path;
    let position = op->SplitNode_position;
    let d = at.len() as int;
    let p = pt.path;
    let following = next_of(at).unwrap();
    let q = point_transformed(pt, op, there).unwrap();
    assert(depth(d - 1) && depth(d));
    lemma_by_index(at, p);
    lemma_by_index(following, p);
    lemma_by_index(following, q.path);
    lemma_by_index(at, following);
    let r = point_transformed(q, inverse_of(op), back);
    if q.path != p {
        if at == p || ends_before(at, p) {
            assert(shifted(q.path, d - 1, -1) =~= p);
        } else {
            assert(shifted(shifted(q.path, d - 1, -1), d, position) =~= p);
        }
    }
}

/// The inverse of an operation brings back every range that the operation
/// has not removed and whose two ends come back, each leaning as the range
/// affinity says of the range after the operation, and no other range.
pub proof fn law_range_round_trip(
    r: RangeView,
    op: OperationView,
    there: range::Affinity,
    back: range::Affinity,
)
    requires
        natural(r.anchor.path),
        natural(r.focus.path),
        r.anchor.offset >= 0,
        r.focus.offset >= 0,
        names_paths(op),
        reversible(op),
        r.anchor.path.len() > 0 || r.focus.path.len() > 0 ==> below_root(op),
        range_transformed(r, op, there) is Some,
    ensures
        ({
            let after = range_transformed(r, op, there).unwrap();
            range_transformed(after, inverse_of(op), back) == Some(r) <==> comes_back(
                r.anchor,
                op,
                anchor_affinity(after, back),
            ) && comes_back(r.focus, op, focus_affinity(after, back))
        }),
{
    let after = range_transformed(r, op, there).unwrap();
    law_point_round_trip(
        r.anchor,
        op,
        anchor_affinity(r, there),
        anchor_affinity(after, back),
    );
    law_point_round_trip(r.focus, op, focus_affinity(r, there), focus_affinity(after, back));
}

} // verus!
