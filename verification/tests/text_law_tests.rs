use slate::path::Path;
use slate::point::Point;
use slate::range::Range;
use slate::text::Decoration;
use slate::text::Marks;
use slate::text::TagSet;
use slate::text::Text;

fn tags(names: &[&str]) -> TagSet {
    TagSet::of(names.iter().map(|n| n.to_string()).collect::<Vec<String>>())
}

fn span(start: usize, end: usize) -> Range {
    Range::new(
        Point {
            path: Path::new(vec![0]),
            offset: start,
        },
        Point {
            path: Path::new(vec![0]),
            offset: end,
        },
    )
}

fn leaf(text: &str, names: &[&str]) -> Text {
    Text::with_marks_and_meta(text, Marks::bold(), tags(names))
}

fn check_covering(input: &Text, decorations: Vec<Decoration>) {
    let leaves = input.clone().decorations(decorations);
    let mut whole = String::new();
    for l in leaves.iter() {
        whole.push_str(l.text());
        assert_eq!(l.marks(), input.marks());
        assert!(input.meta().is_subset(l.meta()));
    }
    assert_eq!(whole, input.text());
}

#[test]
fn decorated_leaves_hold_the_string_the_marks_and_the_tags() {
    let input = leaf("hello world", &["test"]);
    check_covering(&input, vec![]);
    check_covering(&input, vec![(span(0, 11), tags(&["a"]))]);
    check_covering(&input, vec![(span(3, 3), tags(&["a"]))]);
    check_covering(
        &input,
        vec![
            (span(2, 7), tags(&["a"])),
            (span(5, 9), tags(&["b"])),
            (span(0, 1), tags(&["c"])),
            (span(9, 20), tags(&["d"])),
            (span(7, 2), tags(&["e"])),
            (span(30, 40), tags(&["f"])),
        ],
    );
}

#[test]
fn decoration_of_bold_text_in_the_middle() {
    let input = leaf("abc", &["test"]);
    assert_eq!(
        input.decorations(vec![(span(1, 2), tags(&["decoration"]))]),
        vec![
            leaf("a", &["test"]),
            leaf("b", &["decoration", "test"]),
            leaf("c", &["test"]),
        ]
    );
}

#[test]
fn no_decoration_leaves_the_leaf_whole() {
    let input = leaf("abc", &["test"]);
    assert_eq!(input.clone().decorations(vec![]), vec![input]);
}

#[test]
fn decoration_of_the_whole_leaf_tags_it() {
    let input = leaf("abc", &[]);
    assert_eq!(
        input.decorations(vec![(span(0, 3), tags(&["d"]))]),
        vec![leaf("abc", &["d"])]
    );
}

#[test]
fn decoration_past_the_end_is_cut_at_the_end() {
    let input = leaf("abc", &[]);
    assert_eq!(
        input.decorations(vec![(span(1, 9), tags(&["d"]))]),
        vec![leaf("a", &[]), leaf("bc", &["d"])]
    );
}

#[test]
fn decoration_behind_the_leaf_misses_it() {
    let input = leaf("abc", &[]);
    assert_eq!(
        input.decorations(vec![(span(4, 9), tags(&["d"]))]),
        vec![leaf("abc", &[])]
    );
}

#[test]
fn backward_decoration_is_taken_from_its_start() {
    let input = leaf("abc", &[]);
    assert_eq!(
        input.decorations(vec![(span(2, 1), tags(&["d"]))]),
        vec![leaf("a", &[]), leaf("b", &["d"]), leaf("c", &[])]
    );
}

#[test]
fn empty_decoration_at_the_start_attaches() {
    let input = leaf("abc", &[]);
    assert_eq!(
        input.decorations(vec![(span(0, 0), tags(&["d"]))]),
        vec![leaf("", &["d"]), leaf("abc", &[])]
    );
}

#[test]
fn decoration_that_ends_where_a_later_leaf_begins_misses_it() {
    let input = leaf("abc", &[]);
    let decorations = vec![(span(1, 2), tags(&["x"])), (span(0, 1), tags(&["y"]))];
    assert_eq!(
        input.decorations(decorations),
        vec![leaf("a", &["y"]), leaf("b", &["x"]), leaf("c", &[])]
    );
}

#[test]
fn decoration_that_starts_where_a_leaf_ends_adds_an_empty_leaf() {
    let input = leaf("abc", &[]);
    let decorations = vec![(span(0, 1), tags(&["x"])), (span(1, 3), tags(&["y"]))];
    assert_eq!(
        input.decorations(decorations),
        vec![
            leaf("a", &["x"]),
            leaf("", &["x", "y"]),
            leaf("bc", &["y"]),
        ]
    );
}

#[test]
fn decorations_count_bytes() {
    let input = leaf("héllo", &[]);
    assert_eq!(input.len(), 6);
    assert_eq!(
        input.decorations(vec![(span(1, 3), tags(&["d"]))]),
        vec![leaf("h", &[]), leaf("é", &["d"]), leaf("llo", &[])]
    );
    let short = leaf("éa", &[]);
    assert_eq!(short.len(), 3);
    assert_eq!(
        short.decorations(vec![(span(2, 3), tags(&["d"]))]),
        vec![leaf("é", &[]), leaf("a", &["d"])]
    );
}

#[test]
fn decoration_that_cuts_a_character_cuts_nothing() {
    let input = leaf("héllo", &[]);
    assert_eq!(
        input
            .clone()
            .try_decorations(vec![(span(1, 2), tags(&["d"]))]),
        None
    );
    assert_eq!(
        input
            .clone()
            .try_decorations(vec![(span(2, 4), tags(&["d"]))]),
        None
    );
    assert_eq!(
        input.try_decorations(vec![(span(0, 1), tags(&["x"])), (span(2, 3), tags(&["y"]))]),
        None
    );
}

fn across(start: usize, end: usize) -> Range {
    Range::new(
        Point {
            path: Path::new(vec![0]),
            offset: start,
        },
        Point {
            path: Path::new(vec![1]),
            offset: end,
        },
    )
}

#[test]
fn decoration_that_ends_before_it_starts_cuts_nothing() {
    let input = leaf("abc", &[]);
    assert_eq!(
        input
            .clone()
            .try_decorations(vec![(across(2, 1), tags(&["d"]))]),
        None
    );
    assert_eq!(
        input
            .clone()
            .try_decorations(vec![(across(5, 4), tags(&["d"]))]),
        Some(vec![leaf("abc", &[])])
    );
    assert_eq!(
        input.decorations(vec![(across(5, 4), tags(&["d"]))]),
        vec![leaf("abc", &[])]
    );
}

#[test]
fn try_decorations_gives_what_decorations_gives() {
    let input = leaf("abc", &["test"]);
    let decorations = vec![(span(1, 2), tags(&["x"])), (span(0, 3), tags(&["y"]))];
    assert_eq!(
        input.clone().try_decorations(decorations.clone()),
        Some(input.decorations(decorations))
    );
}

#[test]
fn matches_looks_at_marks_only() {
    let a = Text::with_marks_and_meta("a", Marks::bold() | Marks::underline(), tags(&["x"]));
    let b = Text::with_marks_and_meta("b", Marks::underline(), tags(&["y"]));
    assert!(Text::matches(a.clone(), b.clone()));
    assert!(!Text::matches(b, a));
}

#[test]
fn builders_set_what_they_are_given() {
    let plain = Text::new("abc");
    assert_eq!(plain.text(), "abc");
    assert_eq!(plain.marks(), Marks::empty());
    assert_eq!(plain.meta().len(), 0);
    let marked = Text::with_marks("abc", Marks::italic());
    assert_eq!(marked.marks(), Marks::italic());
    assert_eq!(marked.meta().len(), 0);
    let tagged = Text::with_meta("abc", tags(&["x"]));
    assert_eq!(tagged.marks(), Marks::empty());
    assert!(tagged.meta().contains(&"x".to_string()));
    assert_ne!(plain, marked);
    assert_ne!(plain, tagged);
}

#[test]
fn marks_are_bits() {
    assert_eq!(Marks::empty().bits(), 0);
    assert_eq!(Marks::bold().bits(), 2);
    assert_eq!(Marks::italic().bits(), 4);
    assert_eq!(Marks::underline().bits(), 8);
    assert_eq!((Marks::bold() | Marks::underline()).bits(), 10);
    assert_eq!(Marks::bold().union(Marks::italic()).bits(), 6);
    assert!(Marks::empty().is_empty());
    assert!(!Marks::bold().is_empty());
    assert!(Marks::bold().contains(Marks::empty()));
    assert!(!Marks::empty().contains(Marks::bold()));
    assert!((Marks::bold() | Marks::italic()).contains(Marks::italic()));
}

#[test]
fn tag_sets_are_sets() {
    let a = tags(&["x", "y", "x"]);
    assert_eq!(a.len(), 2);
    assert_eq!(a, tags(&["y", "x"]));
    assert_ne!(a, tags(&["x"]));
    assert!(a.contains(&"x".to_string()));
    assert!(!a.contains(&"z".to_string()));
    let b = a.clone().insert("z".to_string()).insert("x".to_string());
    assert_eq!(b, tags(&["x", "y", "z"]));
    assert_eq!(a.union(&tags(&["z", "y"])), tags(&["x", "y", "z"]));
    assert!(a.is_subset(&b));
    assert!(!b.is_subset(&a));
    assert_eq!(TagSet::new().len(), 0);
    let mut listed = b.tags();
    listed.sort();
    assert_eq!(listed, vec!["x".to_string(), "y".to_string(), "z".to_string()]);
}
