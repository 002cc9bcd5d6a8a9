use slate::node::Node;
use slate::operation::Operation;
use slate::path::Affinity;
use slate::path::Path;
use slate::text::Text;
use std::cmp::Ordering;

fn path(indices: &[usize]) -> Path {
    Path::new(indices.to_vec())
}

fn leaf() -> Node {
    Node::Text(Text::new(""))
}

fn samples() -> Vec<Path> {
    vec![
        path(&[]),
        path(&[0]),
        path(&[1]),
        path(&[0, 0]),
        path(&[0, 1]),
        path(&[0, 1, 2]),
        path(&[1, 0]),
        path(&[2, 5, 1]),
    ]
}

#[test]
fn common_does_not_depend_on_the_order() {
    for a in samples() {
        for b in samples() {
            assert_eq!(a.common(&b), b.common(&a));
        }
    }
}

#[test]
fn common_of_a_path_and_itself_is_the_path() {
    for a in samples() {
        assert_eq!(a.common(&a), a);
    }
}

#[test]
fn common_with_a_shorter_prefix_is_the_prefix() {
    assert_eq!(path(&[0, 1, 2]).common(&path(&[0, 1])), path(&[0, 1]));
    assert_eq!(path(&[0, 1]).common(&path(&[0, 1, 2])), path(&[0, 1]));
    assert_eq!(path(&[0, 1]).common(&path(&[])), path(&[]));
}

#[test]
fn ancestor_has_the_other_as_descendant() {
    for a in samples() {
        for b in samples() {
            assert_eq!(a.is_ancestor(&b), b.is_descendant(&a));
            assert_eq!(a.is_parent(&b), b.is_child(&a));
        }
    }
}

#[test]
fn order_is_antisymmetric() {
    for a in samples() {
        for b in samples() {
            assert_eq!(a.is_before(&b), b.is_after(&a));
            assert!(!(a.is_before(&b) && b.is_before(&a)));
            let reversed = match b.cmp(&a) {
                Ordering::Less => Ordering::Greater,
                Ordering::Equal => Ordering::Equal,
                Ordering::Greater => Ordering::Less,
            };
            assert_eq!(a.cmp(&b), reversed);
        }
    }
}

#[test]
fn order_is_transitive() {
    for a in samples() {
        for b in samples() {
            for c in samples() {
                if a.is_before(&b) && b.is_before(&c) {
                    assert!(a.is_before(&c));
                }
            }
        }
    }
}

#[test]
fn paths_compare_equal_exactly_when_one_is_a_prefix() {
    for a in samples() {
        for b in samples() {
            let prefix = a.is_common(&b) || b.is_common(&a);
            assert_eq!(a.cmp(&b) == Ordering::Equal, prefix);
            assert_eq!(a.partial_cmp(&b), Some(a.cmp(&b)));
        }
    }
}

#[test]
fn root_stays_root_under_every_operation() {
    let root = path(&[]);
    let ops = vec![
        Operation::InsertNode {
            node: leaf(),
            path: path(&[0]),
        },
        Operation::RemoveNode {
            node: leaf(),
            path: path(&[0]),
        },
        Operation::MergeNode {
            path: path(&[1]),
            position: 2,
            properties: leaf(),
        },
        Operation::SplitNode {
            path: path(&[1]),
            position: 2,
            properties: leaf(),
        },
        Operation::MoveNode {
            path: path(&[0]),
            new_path: path(&[1, 0]),
        },
        Operation::InsertText {
            path: path(&[]),
            offset: 0,
            text: "abc".to_string(),
        },
        Operation::RemoveText {
            path: path(&[]),
            offset: 0,
            text: "abc".to_string(),
        },
        Operation::SetNode {
            path: path(&[]),
            properties: None,
            new_properties: Some(leaf()),
        },
        Operation::SetSelection {
            path: path(&[]),
            properties: None,
            new_properties: None,
        },
    ];
    for op in ops.iter() {
        assert_eq!(Path::transform(&root, op, Affinity::Forward), Some(path(&[])));
        assert_eq!(Path::transform(&root, op, Affinity::Backward), Some(path(&[])));
        assert_eq!(Path::transform(&root, op, Affinity::Neither), Some(path(&[])));
    }
}

#[test]
fn first_child_has_no_previous() {
    assert_eq!(path(&[0]).previous(), None);
    assert_eq!(path(&[3, 0]).previous(), None);
    assert_eq!(path(&[]).previous(), None);
    assert!(!path(&[]).has_previous());
}

#[test]
fn deeper_path_neither_ends_before_nor_after() {
    let deep = path(&[0, 1, 2]);
    for b in [path(&[]), path(&[0]), path(&[1]), path(&[0, 1]), path(&[0, 2])] {
        assert!(!deep.ends_before(&b));
        assert!(!deep.ends_after(&b));
    }
    assert!(!path(&[0, 1]).ends_after(&path(&[0])));
}

#[test]
fn shallower_path_can_end_before_and_after() {
    assert!(path(&[0]).ends_before(&path(&[1, 2])));
    assert!(path(&[1]).ends_after(&path(&[0, 2])));
}

#[test]
fn root_has_no_parent_next_or_last_index() {
    let root = path(&[]);
    assert_eq!(root.parent(), None);
    assert_eq!(root.next(), None);
    assert_eq!(root.len(), 0);
    assert_eq!(root.get(0), None);
    assert!(!root.ends_before(&path(&[0])));
    assert!(!root.ends_after(&path(&[0])));
    assert!(!root.is_sibling(&path(&[])));
    assert!(root.ends_at(&path(&[0])));
}

#[test]
fn levels_and_ancestors_of_the_root() {
    let root = path(&[]);
    assert_eq!(root.levels(false), vec![path(&[])]);
    assert_eq!(root.levels(true), vec![path(&[])]);
    assert_eq!(root.ancestors(false), Vec::<Path>::new());
    assert_eq!(root.ancestors(true), Vec::<Path>::new());
}

#[test]
fn get_and_concat() {
    let p = path(&[4, 7]);
    assert_eq!(p.get(0), Some(4));
    assert_eq!(p.get(1), Some(7));
    assert_eq!(p.get(2), None);
    assert_eq!(p.concat(9), path(&[4, 7, 9]));
    assert_eq!(p.len(), 2);
}

#[test]
fn relative_of_itself_and_of_a_stranger() {
    let p = path(&[0, 1]);
    assert_eq!(p.relative(&p), Some(path(&[])));
    assert_eq!(p.relative(&path(&[1])), None);
    assert_eq!(p.relative(&path(&[0, 1, 2])), None);
}

#[test]
fn default_affinity_is_forward() {
    assert_eq!(Affinity::default(), Affinity::Forward);
}

#[test]
fn transform_insert_node() {
    let op = Operation::InsertNode {
        node: leaf(),
        path: path(&[1, 1]),
    };
    let at = |p: &[usize]| Path::transform(&path(p), &op, Affinity::Forward);
    assert_eq!(at(&[1, 1]), Some(path(&[1, 2])));
    assert_eq!(at(&[1, 3, 0]), Some(path(&[1, 4, 0])));
    assert_eq!(at(&[1, 1, 5]), Some(path(&[1, 2, 5])));
    assert_eq!(at(&[1, 0]), Some(path(&[1, 0])));
    assert_eq!(at(&[2, 4]), Some(path(&[2, 4])));
    assert_eq!(at(&[1]), Some(path(&[1])));
}

#[test]
fn transform_remove_node() {
    let op = Operation::RemoveNode {
        node: leaf(),
        path: path(&[1, 1]),
    };
    let at = |p: &[usize]| Path::transform(&path(p), &op, Affinity::Forward);
    assert_eq!(at(&[1, 1]), None);
    assert_eq!(at(&[1, 1, 0]), None);
    assert_eq!(at(&[1, 3, 0]), Some(path(&[1, 2, 0])));
    assert_eq!(at(&[1, 0]), Some(path(&[1, 0])));
    assert_eq!(at(&[1]), Some(path(&[1])));
}

#[test]
fn transform_remove_node_at_the_root() {
    let op = Operation::RemoveNode {
        node: leaf(),
        path: path(&[]),
    };
    let at = |p: &[usize]| Path::transform(&path(p), &op, Affinity::Forward);
    assert_eq!(at(&[0]), None);
    assert_eq!(at(&[2, 1]), None);
    assert_eq!(at(&[]), Some(path(&[])));
}

#[test]
fn transform_merge_node() {
    let op = Operation::MergeNode {
        path: path(&[1, 1]),
        position: 3,
        properties: leaf(),
    };
    let at = |p: &[usize]| Path::transform(&path(p), &op, Affinity::Forward);
    assert_eq!(at(&[1, 1]), Some(path(&[1, 0])));
    assert_eq!(at(&[1, 2]), Some(path(&[1, 1])));
    assert_eq!(at(&[1, 1, 2]), Some(path(&[1, 0, 5])));
    assert_eq!(at(&[1, 0, 2]), Some(path(&[1, 0, 2])));
    assert_eq!(at(&[0, 4]), Some(path(&[0, 4])));
}

#[test]
fn transform_split_node() {
    let op = Operation::SplitNode {
        path: path(&[1, 1]),
        position: 3,
        properties: leaf(),
    };
    let at = |p: &[usize], a: Affinity| Path::transform(&path(p), &op, a);
    assert_eq!(at(&[1, 1], Affinity::Forward), Some(path(&[1, 2])));
    assert_eq!(at(&[1, 1], Affinity::Backward), Some(path(&[1, 1])));
    assert_eq!(at(&[1, 1], Affinity::Neither), None);
    assert_eq!(at(&[1, 2], Affinity::Neither), Some(path(&[1, 3])));
    assert_eq!(at(&[1, 1, 3], Affinity::Forward), Some(path(&[1, 2, 0])));
    assert_eq!(at(&[1, 1, 5], Affinity::Backward), Some(path(&[1, 2, 2])));
    assert_eq!(at(&[1, 1, 2], Affinity::Forward), Some(path(&[1, 1, 2])));
    assert_eq!(at(&[1, 0], Affinity::Forward), Some(path(&[1, 0])));
}

#[test]
fn transform_move_node_to_itself_changes_nothing() {
    let op = Operation::MoveNode {
        path: path(&[1, 1]),
        new_path: path(&[1, 1]),
    };
    assert_eq!(
        Path::transform(&path(&[1, 1, 4]), &op, Affinity::Forward),
        Some(path(&[1, 1, 4]))
    );
}

#[test]
fn transform_text_and_set_operations_change_nothing() {
    let ops = vec![
        Operation::InsertText {
            path: path(&[0]),
            offset: 1,
            text: "x".to_string(),
        },
        Operation::RemoveText {
            path: path(&[0]),
            offset: 1,
            text: "x".to_string(),
        },
        Operation::SetNode {
            path: path(&[0]),
            properties: None,
            new_properties: None,
        },
        Operation::SetSelection {
            path: path(&[0]),
            properties: None,
            new_properties: None,
        },
    ];
    for op in ops.iter() {
        assert_eq!(
            Path::transform(&path(&[0, 2]), op, Affinity::Neither),
            Some(path(&[0, 2]))
        );
    }
}
