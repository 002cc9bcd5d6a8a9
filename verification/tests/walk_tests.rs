use slate::editor::Editor;
use slate::element::Element;
use slate::node::Ancestor;
use slate::node::Descendant;
use slate::node::Node;
use slate::path::Path;
use slate::text::Text;
use slate::traversal::NodeEntry;

fn path(indices: &[usize]) -> Path {
    Path::new(indices.to_vec())
}

/// Editor { Element { "a" "b" } Element { Element { "c" } "d" } "e" }
fn tree() -> Node {
    Node::Editor(
        Editor::new()
            .add_child(
                Element::new()
                    .add_child(Text::new("a"))
                    .add_child(Text::new("b")),
            )
            .add_child(
                Element::new()
                    .add_child(Element::new().add_child(Text::new("c")))
                    .add_child(Text::new("d")),
            )
            .add_child(Text::new("e")),
    )
}

fn paths(entries: &[NodeEntry]) -> Vec<Vec<usize>> {
    entries
        .iter()
        .map(|e| (0..e.1.len()).map(|i| e.1.get(i).unwrap()).collect())
        .collect()
}

fn forward() -> Vec<Vec<usize>> {
    vec![
        vec![],
        vec![0],
        vec![0, 0],
        vec![0, 1],
        vec![1],
        vec![1, 0],
        vec![1, 0, 0],
        vec![1, 1],
        vec![2],
    ]
}

#[test]
fn walk_visits_every_node_before_its_children() {
    let root = tree();
    let entries = root.nodes().collect();
    assert_eq!(paths(&entries), forward());
    for e in entries.iter() {
        assert_eq!(root.get(&e.1), Some(e.0.clone()));
    }
}

#[test]
fn walk_visits_as_many_entries_as_the_tree_has_nodes() {
    assert_eq!(tree().nodes().collect().len(), 9);
    let single = Node::Text(Text::new("a"));
    assert_eq!(single.nodes().collect().len(), 1);
    let empty = Node::Editor(Editor::new());
    assert_eq!(empty.nodes().collect().len(), 1);
}

#[test]
fn reverse_walk_visits_the_last_child_first() {
    let root = tree();
    let entries = root.nodes_between(path(&[]), None, true).collect();
    assert_eq!(
        paths(&entries),
        vec![
            vec![],
            vec![2],
            vec![1],
            vec![1, 1],
            vec![1, 0],
            vec![1, 0, 0],
            vec![0],
            vec![0, 1],
            vec![0, 0],
        ]
    );
}

#[test]
fn reverse_walk_visits_the_same_entries() {
    let root = tree();
    let mut there = paths(&root.nodes().collect());
    let mut back = paths(&root.nodes_between(path(&[]), None, true).collect());
    there.sort();
    back.sort();
    assert_eq!(there, back);
}

#[test]
fn walk_heads_for_its_start() {
    let root = tree();
    let entries = root.nodes_between(path(&[1, 0]), None, false).collect();
    assert_eq!(
        paths(&entries),
        vec![
            vec![],
            vec![1],
            vec![1, 0],
            vec![1, 0, 0],
            vec![1, 1],
            vec![2],
        ]
    );
}

#[test]
fn reverse_walk_heads_for_its_start() {
    let root = tree();
    let entries = root.nodes_between(path(&[1, 0]), None, true).collect();
    assert_eq!(
        paths(&entries),
        vec![
            vec![],
            vec![1],
            vec![1, 0],
            vec![1, 0, 0],
            vec![0],
            vec![0, 1],
            vec![0, 0],
        ]
    );
}

#[test]
fn walk_ends_past_its_bound() {
    let root = tree();
    let entries = root
        .nodes_between(path(&[]), Some(path(&[1, 0])), false)
        .collect();
    assert_eq!(
        paths(&entries),
        vec![
            vec![],
            vec![0],
            vec![0, 0],
            vec![0, 1],
            vec![1],
            vec![1, 0],
            vec![1, 0, 0],
        ]
    );
}

#[test]
fn reverse_walk_ends_past_its_bound() {
    let root = tree();
    let entries = root
        .nodes_between(path(&[]), Some(path(&[1, 1])), true)
        .collect();
    assert_eq!(paths(&entries), vec![vec![], vec![2], vec![1], vec![1, 1]]);
}

#[test]
fn walk_between_two_paths() {
    let root = tree();
    let entries = root
        .nodes_between(path(&[0, 1]), Some(path(&[1, 0, 0])), false)
        .collect();
    assert_eq!(
        paths(&entries),
        vec![
            vec![],
            vec![0],
            vec![0, 1],
            vec![1],
            vec![1, 0],
            vec![1, 0, 0],
        ]
    );
}

#[test]
fn walk_step_by_step() {
    let root = tree();
    let mut walk = root.nodes();
    let mut seen = Vec::new();
    loop {
        let ahead = walk.peek().map(|e| (e.0.clone(), e.1.clone()));
        match walk.next() {
            Some(e) => {
                assert_eq!(ahead, Some((*e.0.clone(), e.1.clone())));
                seen.push(e);
            }
            None => {
                assert_eq!(ahead, None);
                break;
            }
        }
    }
    assert_eq!(paths(&seen), forward());
    assert_eq!(walk.next(), None);
    assert!(walk.peek().is_none());
}

#[test]
fn walk_that_does_not_go_down_leaves_the_subtree_out() {
    let root = tree();
    let mut walk = root.nodes();
    let mut seen = Vec::new();
    loop {
        let descend = match walk.peek() {
            Some((_, p)) => *p != path(&[1]),
            None => true,
        };
        match walk.advance(descend) {
            Some(e) => seen.push(e),
            None => break,
        }
    }
    assert_eq!(
        paths(&seen),
        vec![vec![], vec![0], vec![0, 0], vec![0, 1], vec![1], vec![2]]
    );
}

#[test]
fn walk_that_never_goes_down_visits_the_root_only() {
    let root = tree();
    let mut walk = root.nodes();
    assert_eq!(walk.advance(false).map(|e| e.1), Some(path(&[])));
    assert_eq!(walk.advance(false), None);
}

#[test]
fn get_and_has_follow_the_path() {
    let root = tree();
    assert!(root.has(&path(&[])));
    assert!(root.has(&path(&[1, 0, 0])));
    assert!(!root.has(&path(&[1, 0, 1])));
    assert!(!root.has(&path(&[3])));
    assert!(!root.has(&path(&[2, 0])));
    assert_eq!(
        root.get(&path(&[1, 0, 0])),
        Some(Box::new(Node::Text(Text::new("c"))))
    );
    assert_eq!(root.get(&path(&[2, 0])), None);
    assert_eq!(root.get(&path(&[0, 2])), None);
    assert_eq!(root.count_at(&path(&[1])), Some(2));
    assert_eq!(root.count_at(&path(&[2])), Some(0));
    assert_eq!(root.count_at(&path(&[3])), None);
}

#[test]
fn ancestor_is_absent_at_a_text_leaf() {
    let root = tree();
    assert_eq!(root.ancestor(&path(&[2])), None);
    assert_eq!(root.ancestor(&path(&[5])), None);
    assert_eq!(
        root.ancestor(&path(&[1, 0])),
        Some(Box::new(Ancestor::Element(
            Element::new().add_child(Text::new("c"))
        )))
    );
    assert!(matches!(
        root.ancestor(&path(&[])).map(|a| *a),
        Some(Ancestor::Editor(_))
    ));
}

#[test]
fn descendant_is_absent_at_the_root_of_a_document() {
    let root = tree();
    assert_eq!(root.descendant(&path(&[])), None);
    assert_eq!(
        root.descendant(&path(&[2])),
        Some(Box::new(Descendant::Text(Text::new("e"))))
    );
    assert_eq!(root.descendant(&path(&[2, 0])), None);
}

#[test]
fn descendants_of_an_element() {
    let inner = Element::new().add_child(Text::new("c"));
    let outer = Element::new().add_child(inner.clone());
    let root = Node::Element(outer.clone());
    assert_eq!(
        root.descendants(&path(&[0, 0]), false),
        vec![
            (Box::new(Descendant::Element(outer.clone())), path(&[])),
            (Box::new(Descendant::Element(inner.clone())), path(&[0])),
        ]
    );
    assert_eq!(
        root.descendants(&path(&[0, 0]), true),
        vec![
            (Box::new(Descendant::Element(inner)), path(&[0])),
            (Box::new(Descendant::Element(outer)), path(&[])),
        ]
    );
}

#[test]
fn common_is_the_node_above_both() {
    let root = tree();
    let found = root.common(&path(&[1, 0, 0]), &path(&[1, 1])).unwrap();
    assert_eq!(found.1, path(&[1]));
    assert_eq!(Some(found.0), root.get(&path(&[1])));
    let top = root.common(&path(&[0, 0]), &path(&[2])).unwrap();
    assert_eq!(top.1, path(&[]));
    assert_eq!(*top.0, root);
    assert_eq!(root.common(&path(&[5, 0]), &path(&[5, 1])), None);
}

#[test]
fn children_of_nodes() {
    let root = tree();
    assert_eq!(root.num_children(), 3);
    assert!(root.has_children());
    assert_eq!(root.child(2), Some(Descendant::Text(Text::new("e"))));
    assert_eq!(root.child(3), None);
    assert_eq!(root.child_node(2), Some(Node::Text(Text::new("e"))));
    let text = Node::Text(Text::new("e"));
    assert_eq!(text.num_children(), 0);
    assert!(!text.has_children());
    assert_eq!(text.child(0), None);
    assert_eq!(text.child_node(0), None);
    let element = Element::new().add_child(Text::new("x"));
    assert_eq!(element.num_children(), 1);
    assert!(element.has_children());
    assert_eq!(element.child(0), Some(&Descendant::Text(Text::new("x"))));
    assert_eq!(element.child(1), None);
    assert_eq!(element.children(), vec![Descendant::Text(Text::new("x"))]);
    assert!(!Element::new().has_children());
    let editor = Editor::new().add_child(element.clone());
    assert_eq!(editor.num_children(), 1);
    assert!(editor.has_children());
    assert_eq!(editor.child(0), Some(&Descendant::Element(element.clone())));
    assert_eq!(editor.child(1), None);
    assert_eq!(editor.children(), vec![Descendant::Element(element.clone())]);
    assert!(!Editor::new().has_children());
    let ancestor = Ancestor::Element(element);
    assert_eq!(ancestor.child(0), Some(Descendant::Text(Text::new("x"))));
    assert_eq!(ancestor.child(1), None);
    assert_eq!(ancestor.children(), vec![Descendant::Text(Text::new("x"))]);
}

#[test]
fn nodes_convert() {
    let text = Text::new("x");
    let as_descendant: Descendant = text.clone().into();
    assert_eq!(as_descendant, Descendant::Text(text.clone()));
    let as_node: Node = as_descendant.clone().into();
    assert_eq!(as_node, Node::Text(text.clone()));
    assert_eq!(as_descendant.to_node(), Node::Text(text));
    let element = Element::new();
    let boxed: Node = Box::new(Ancestor::Element(element.clone())).into();
    assert_eq!(boxed, Node::Element(element));
}
