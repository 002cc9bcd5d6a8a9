use slate::node::Node;
use slate::operation::Operation;
use slate::path::Affinity;
use slate::path::Path;
use slate::point::Point;
use slate::range;
use slate::range::Range;
use slate::text::Text;
use std::cmp::Ordering;

fn path(indices: &[usize]) -> Path {
    Path::new(indices.to_vec())
}

fn point(indices: &[usize], offset: usize) -> Point {
    Point {
        path: path(indices),
        offset,
    }
}

fn leaf() -> Node {
    Node::Text(Text::new(""))
}

#[test]
fn points_compare_by_path_and_then_by_offset() {
    assert_eq!(point(&[0, 1], 5).cmp(&point(&[0, 2], 0)), Ordering::Less);
    assert_eq!(point(&[0, 2], 0).cmp(&point(&[0, 1], 5)), Ordering::Greater);
    assert_eq!(point(&[0, 1], 2).cmp(&point(&[0, 1], 5)), Ordering::Less);
    assert_eq!(point(&[0, 1], 5).cmp(&point(&[0, 1], 5)), Ordering::Equal);
    assert_eq!(point(&[0], 1).cmp(&point(&[0, 1], 5)), Ordering::Less);
    assert!(point(&[0, 1], 2).is_before(&point(&[0, 1], 5)));
    assert!(point(&[0, 1], 5).is_after(&point(&[0, 1], 2)));
    assert!(!point(&[0, 1], 5).is_after(&point(&[0, 1], 5)));
    assert!(!point(&[0, 1], 5).is_before(&point(&[0, 1], 5)));
}

#[test]
fn inserted_text_pushes_the_points_behind_it() {
    let op = Operation::InsertText {
        path: path(&[0, 1]),
        offset: 2,
        text: "abc".to_string(),
    };
    let at = |p: Point| Point::transform(&p, &op, Affinity::Forward);
    assert_eq!(at(point(&[0, 1], 2)), Some(point(&[0, 1], 5)));
    assert_eq!(at(point(&[0, 1], 4)), Some(point(&[0, 1], 7)));
    assert_eq!(at(point(&[0, 1], 1)), Some(point(&[0, 1], 1)));
    assert_eq!(at(point(&[0, 2], 4)), Some(point(&[0, 2], 4)));
}

#[test]
fn inserted_text_counts_bytes() {
    let op = Operation::InsertText {
        path: path(&[0]),
        offset: 0,
        text: "héé".to_string(),
    };
    assert_eq!(
        Point::transform(&point(&[0], 1), &op, Affinity::Forward),
        Some(point(&[0], 6))
    );
    let single = Operation::InsertText {
        path: path(&[0]),
        offset: 0,
        text: "é".to_string(),
    };
    assert_eq!(
        Point::transform(&point(&[0], 0), &single, Affinity::Forward),
        Some(point(&[0], 2))
    );
}

#[test]
fn removed_text_counts_bytes() {
    let op = Operation::RemoveText {
        path: path(&[0]),
        offset: 1,
        text: "éé".to_string(),
    };
    let at = |p: Point| Point::transform(&p, &op, Affinity::Forward);
    assert_eq!(at(point(&[0], 4)), Some(point(&[0], 1)));
    assert_eq!(at(point(&[0], 5)), Some(point(&[0], 1)));
    assert_eq!(at(point(&[0], 7)), Some(point(&[0], 3)));
}

#[test]
fn removed_root_takes_every_point_with_it() {
    let op = Operation::RemoveNode {
        path: path(&[]),
        node: leaf(),
    };
    assert_eq!(Point::transform(&point(&[], 0), &op, Affinity::Forward), None);
    assert_eq!(Point::transform(&point(&[0], 2), &op, Affinity::Forward), None);
    assert_eq!(
        Point::transform(&point(&[1, 0], 2), &op, Affinity::Backward),
        None
    );
}

#[test]
fn removed_text_pulls_the_points_behind_it() {
    let op = Operation::RemoveText {
        path: path(&[0, 1]),
        offset: 2,
        text: "abc".to_string(),
    };
    let at = |p: Point| Point::transform(&p, &op, Affinity::Forward);
    assert_eq!(at(point(&[0, 1], 1)), Some(point(&[0, 1], 1)));
    assert_eq!(at(point(&[0, 1], 2)), Some(point(&[0, 1], 2)));
    assert_eq!(at(point(&[0, 1], 3)), Some(point(&[0, 1], 2)));
    assert_eq!(at(point(&[0, 1], 5)), Some(point(&[0, 1], 2)));
    assert_eq!(at(point(&[0, 1], 9)), Some(point(&[0, 1], 6)));
    assert_eq!(at(point(&[0, 2], 9)), Some(point(&[0, 2], 9)));
    assert_eq!(at(point(&[0, 1, 0], 9)), Some(point(&[0, 1, 0], 6)));
}

#[test]
fn merged_node_carries_its_points_to_the_preceding_one() {
    let op = Operation::MergeNode {
        path: path(&[0, 1]),
        position: 4,
        properties: leaf(),
    };
    let at = |p: Point| Point::transform(&p, &op, Affinity::Forward);
    assert_eq!(at(point(&[0, 1], 2)), Some(point(&[0, 0], 6)));
    assert_eq!(at(point(&[0, 0], 2)), Some(point(&[0, 0], 2)));
    assert_eq!(at(point(&[0, 2], 2)), Some(point(&[0, 1], 2)));
    assert_eq!(at(point(&[0, 1, 3], 2)), Some(point(&[0, 0, 7], 2)));
}

#[test]
fn removed_node_takes_its_points_with_it() {
    let op = Operation::RemoveNode {
        path: path(&[0, 1]),
        node: leaf(),
    };
    let at = |p: Point| Point::transform(&p, &op, Affinity::Forward);
    assert_eq!(at(point(&[0, 1], 2)), None);
    assert_eq!(at(point(&[0, 1, 0], 2)), None);
    assert_eq!(at(point(&[0, 2], 2)), Some(point(&[0, 1], 2)));
    assert_eq!(at(point(&[0, 0], 2)), Some(point(&[0, 0], 2)));
}

#[test]
fn inserted_and_moved_nodes_shift_paths_only() {
    let insert = Operation::InsertNode {
        path: path(&[0, 1]),
        node: leaf(),
    };
    assert_eq!(
        Point::transform(&point(&[0, 1], 3), &insert, Affinity::Forward),
        Some(point(&[0, 2], 3))
    );
    let moving = Operation::MoveNode {
        path: path(&[3]),
        new_path: path(&[5, 1]),
    };
    assert_eq!(
        Point::transform(&point(&[3, 3, 3], 7), &moving, Affinity::Forward),
        Some(point(&[4, 1, 3, 3], 7))
    );
}

#[test]
fn split_carries_the_points_behind_the_cut() {
    let op = Operation::SplitNode {
        path: path(&[0, 1]),
        position: 4,
        properties: leaf(),
    };
    let at = |p: Point, a: Affinity| Point::transform(&p, &op, a);
    assert_eq!(at(point(&[0, 1], 6), Affinity::Backward), Some(point(&[0, 2], 2)));
    assert_eq!(at(point(&[0, 1], 6), Affinity::Neither), Some(point(&[0, 2], 2)));
    assert_eq!(at(point(&[0, 1], 4), Affinity::Forward), Some(point(&[0, 2], 0)));
    assert_eq!(at(point(&[0, 1], 4), Affinity::Backward), Some(point(&[0, 1], 4)));
    assert_eq!(at(point(&[0, 1], 4), Affinity::Neither), None);
    assert_eq!(at(point(&[0, 1], 3), Affinity::Forward), Some(point(&[0, 1], 3)));
    assert_eq!(at(point(&[0, 1], 3), Affinity::Neither), Some(point(&[0, 1], 3)));
    assert_eq!(at(point(&[0, 2], 3), Affinity::Neither), Some(point(&[0, 3], 3)));
    assert_eq!(at(point(&[0, 0], 3), Affinity::Forward), Some(point(&[0, 0], 3)));
}

#[test]
fn set_operations_leave_points_alone() {
    let op = Operation::SetNode {
        path: path(&[0, 1]),
        properties: None,
        new_properties: None,
    };
    assert_eq!(
        Point::transform(&point(&[0, 1], 3), &op, Affinity::Neither),
        Some(point(&[0, 1], 3))
    );
}

fn round_trip(p: &Point, op: &Operation, affinity: Affinity) -> Option<Point> {
    let there = Point::transform(p, op, affinity)?;
    Point::transform(&there, &op.clone().inverse(), affinity)
}

#[test]
fn inverse_brings_points_back() {
    let ops = vec![
        Operation::InsertNode {
            path: path(&[0, 1]),
            node: leaf(),
        },
        Operation::RemoveNode {
            path: path(&[1, 0]),
            node: leaf(),
        },
        Operation::InsertText {
            path: path(&[0, 2]),
            offset: 1,
            text: "ab".to_string(),
        },
        Operation::SplitNode {
            path: path(&[0, 1]),
            position: 2,
            properties: leaf(),
        },
        Operation::MoveNode {
            path: path(&[0, 1]),
            new_path: path(&[0, 3]),
        },
        Operation::MoveNode {
            path: path(&[0, 2]),
            new_path: path(&[1, 0, 0]),
        },
        Operation::MoveNode {
            path: path(&[0, 2, 1]),
            new_path: path(&[0, 1]),
        },
        Operation::MoveNode {
            path: path(&[0, 1]),
            new_path: path(&[0, 2, 1]),
        },
    ];
    let points = vec![
        point(&[0, 0], 0),
        point(&[0, 1], 2),
        point(&[0, 2], 3),
        point(&[0, 2, 1], 1),
        point(&[0, 3], 1),
        point(&[0, 2], 1),
        point(&[2], 4),
        point(&[0, 1, 5], 0),
    ];
    for op in ops.iter() {
        for p in points.iter() {
            if Point::transform(p, op, Affinity::Forward).is_some() {
                assert_eq!(round_trip(p, op, Affinity::Forward), Some(p.clone()));
            }
        }
    }
}

#[test]
fn removed_text_does_not_bring_back_the_points_inside_it() {
    let op = Operation::RemoveText {
        path: path(&[0]),
        offset: 1,
        text: "ab".to_string(),
    };
    assert_eq!(
        round_trip(&point(&[0], 0), &op, Affinity::Forward),
        Some(point(&[0], 0))
    );
    assert_eq!(
        round_trip(&point(&[0], 3), &op, Affinity::Forward),
        Some(point(&[0], 3))
    );
    assert_eq!(
        round_trip(&point(&[0], 1), &op, Affinity::Forward),
        Some(point(&[0], 3))
    );
    assert_eq!(
        round_trip(&point(&[0], 2), &op, Affinity::Forward),
        Some(point(&[0], 3))
    );
}

#[test]
fn merge_brings_back_one_side_of_the_seam() {
    let op = Operation::MergeNode {
        path: path(&[0, 1]),
        position: 4,
        properties: leaf(),
    };
    assert_eq!(
        round_trip(&point(&[0, 1], 0), &op, Affinity::Forward),
        Some(point(&[0, 1], 0))
    );
    assert_eq!(
        round_trip(&point(&[0, 1], 0), &op, Affinity::Backward),
        Some(point(&[0, 0], 4))
    );
    assert_eq!(round_trip(&point(&[0, 1], 0), &op, Affinity::Neither), None);
    assert_eq!(
        round_trip(&point(&[0, 0], 4), &op, Affinity::Backward),
        Some(point(&[0, 0], 4))
    );
    assert_eq!(
        round_trip(&point(&[0, 0], 4), &op, Affinity::Forward),
        Some(point(&[0, 1], 0))
    );
    assert_eq!(
        round_trip(&point(&[0, 1], 3), &op, Affinity::Neither),
        Some(point(&[0, 1], 3))
    );
}

fn range(a: Point, f: Point) -> Range {
    Range::new(a, f)
}

#[test]
fn default_range_affinity_is_inward() {
    assert_eq!(range::Affinity::default(), range::Affinity::Inward);
}

#[test]
fn range_ends_lean_as_the_affinity_says() {
    let op = Operation::SplitNode {
        path: path(&[0]),
        position: 2,
        properties: leaf(),
    };
    let forward = range(point(&[0], 2), point(&[0], 2));
    let at = |a: range::Affinity| Range::transform(&forward, &op, a);
    assert_eq!(
        at(range::Affinity::Inward),
        Some(range(point(&[1], 0), point(&[0], 2)))
    );
    assert_eq!(
        at(range::Affinity::Outward),
        Some(range(point(&[0], 2), point(&[1], 0)))
    );
    assert_eq!(
        at(range::Affinity::Forward),
        Some(range(point(&[1], 0), point(&[1], 0)))
    );
    assert_eq!(
        at(range::Affinity::Backward),
        Some(range(point(&[0], 2), point(&[0], 2)))
    );
    assert_eq!(at(range::Affinity::Neither), None);
}

#[test]
fn backward_range_leans_the_other_way() {
    let op = Operation::SplitNode {
        path: path(&[0]),
        position: 2,
        properties: leaf(),
    };
    let backward = range(point(&[0], 2), point(&[0], 1));
    assert_eq!(
        Range::transform(&backward, &op, range::Affinity::Inward),
        Some(range(point(&[0], 2), point(&[0], 1)))
    );
    assert_eq!(
        Range::transform(&backward, &op, range::Affinity::Outward),
        Some(range(point(&[1], 0), point(&[0], 1)))
    );
}

#[test]
fn range_focus_is_transformed_as_the_focus() {
    let op = Operation::InsertText {
        path: path(&[0]),
        offset: 3,
        text: "xy".to_string(),
    };
    let r = range(point(&[0], 1), point(&[0], 5));
    assert_eq!(
        Range::transform(&r, &op, range::Affinity::Inward),
        Some(range(point(&[0], 1), point(&[0], 7)))
    );
}

#[test]
fn range_is_lost_with_either_end() {
    let op = Operation::RemoveNode {
        path: path(&[1]),
        node: leaf(),
    };
    let r = range(point(&[0], 1), point(&[1], 5));
    assert_eq!(Range::transform(&r, &op, range::Affinity::Inward), None);
    let s = range(point(&[1, 0], 1), point(&[2], 5));
    assert_eq!(Range::transform(&s, &op, range::Affinity::Forward), None);
    let t = range(point(&[0], 1), point(&[2], 5));
    assert_eq!(
        Range::transform(&t, &op, range::Affinity::Forward),
        Some(range(point(&[0], 1), point(&[1], 5)))
    );
}

#[test]
fn inverse_brings_ranges_back() {
    let op = Operation::MoveNode {
        path: path(&[0, 2]),
        new_path: path(&[1, 0, 0]),
    };
    let r = range(point(&[0, 3], 1), point(&[1, 0, 0], 4));
    let there = Range::transform(&r, &op, range::Affinity::Inward).unwrap();
    assert_eq!(there, range(point(&[0, 2], 1), point(&[1, 0, 1], 4)));
    assert_eq!(
        Range::transform(&there, &op.inverse(), range::Affinity::Inward),
        Some(r)
    );
}

#[test]
fn edges_in_both_orders() {
    let backward = range(point(&[3], 0), point(&[1], 2));
    assert_eq!(backward.edges(false), (&point(&[1], 2), &point(&[3], 0)));
    assert_eq!(backward.edges(true), (&point(&[3], 0), &point(&[1], 2)));
    assert_eq!(backward.start(), point(&[1], 2));
    assert!(backward.is_backward());
    assert!(!backward.is_forward());
    assert!(backward.is_expanded());
    let forward = range(point(&[1], 2), point(&[3], 0));
    assert_eq!(forward.edges(false), (&point(&[1], 2), &point(&[3], 0)));
    assert_eq!(forward.edges(true), (&point(&[3], 0), &point(&[1], 2)));
    assert!(forward.is_forward());
}

#[test]
fn includes_range_when_the_ranges_meet() {
    let r = range(point(&[1], 0), point(&[3], 0));
    assert!(r.includes_range(&range(point(&[2], 0), point(&[5], 0))));
    assert!(r.includes_range(&range(point(&[0], 0), point(&[2], 0))));
    assert!(r.includes_range(&range(point(&[0], 0), point(&[5], 0))));
    assert!(r.includes_range(&range(point(&[5], 0), point(&[0], 0))));
    assert!(r.includes_range(&range(point(&[2], 0), point(&[2], 1))));
    assert!(!r.includes_range(&range(point(&[4], 0), point(&[5], 0))));
    assert!(!r.includes_range(&range(point(&[0], 0), point(&[0], 9))));
}

#[test]
fn intersection_is_the_later_start_and_the_earlier_end() {
    let a = range(point(&[1], 0), point(&[3], 0));
    let b = range(point(&[4], 1), point(&[2], 5));
    assert_eq!(
        a.intersection(&b),
        Some(range(point(&[2], 5), point(&[3], 0)))
    );
    assert_eq!(
        b.intersection(&a),
        Some(range(point(&[2], 5), point(&[3], 0)))
    );
    let c = range(point(&[3], 0), point(&[5], 0));
    assert_eq!(
        a.intersection(&c),
        Some(range(point(&[3], 0), point(&[3], 0)))
    );
    let d = range(point(&[3], 1), point(&[5], 0));
    assert_eq!(a.intersection(&d), None);
    assert_eq!(a.intersection(&a), Some(a.clone()));
}
