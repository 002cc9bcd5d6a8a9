use slate::path::Path;
use slate::point::Point;
use slate::range::Range;
use slate::text::Marks;
use slate::text::TagSet;
use slate::text::Text;

fn tags(names: &[&str]) -> TagSet {
    TagSet::of(names.iter().map(|n| n.to_string()).collect::<Vec<String>>())
}

fn span(start: usize, end: usize) -> Range {
    Range::new(
        Point {
            path: Path::new(vec![0]),
            offset: start,
        },
        Point {
            path: Path::new(vec![0]),
            offset: end,
        },
    )
}

#[test]
fn matches_empty_true() {
    assert!(Text::matches(
        Text::with_marks_and_meta("", Marks::bold(), tags(&[])),
        Text::with_marks_and_meta("", Marks::empty(), tags(&[]))
    ));
}

#[test]
fn matches_false() {
    assert!(!Text::matches(
        Text::with_marks_and_meta("", Marks::bold(), tags(&[])),
        Text::with_marks_and_meta("", Marks::italic(), tags(&[]))
    ));
}

#[test]
fn matches_true() {
    assert!(Text::matches(
        Text::with_marks_and_meta("", Marks::bold(), tags(&[])),
        Text::with_marks_and_meta("", Marks::bold(), tags(&[]))
    ));
}

#[test]
fn matches_partial_false() {
    assert!(!Text::matches(
        Text::with_marks_and_meta("", Marks::bold() | Marks::italic(), tags(&[])),
        Text::with_marks_and_meta("", Marks::underline(), tags(&[]))
    ));
}

#[test]
fn matches_partial_true() {
    assert!(Text::matches(
        Text::with_marks_and_meta("", Marks::bold() | Marks::italic(), tags(&[])),
        Text::with_marks_and_meta("", Marks::bold(), tags(&[]))
    ));
}

#[test]
fn decorations_end() {
    let decs = vec![(span(2, 3), tags(&["decoration"]))];

    let input = Text::with_marks_and_meta("abc", Marks::bold(), tags(&["test"]));

    assert_eq!(
        input.decorations(decs),
        vec![
            Text::with_marks_and_meta("ab", Marks::bold(), tags(&["test"])),
            Text::with_marks_and_meta("c", Marks::bold(), tags(&["decoration", "test"])),
        ]
    );
}

#[test]
fn decorations_middle() {
    let decs = vec![(span(1, 2), tags(&["decoration"]))];

    let input = Text::with_marks_and_meta("abc", Marks::empty(), tags(&["test"]));

    assert_eq!(
        input.decorations(decs),
        vec![
            Text::with_marks_and_meta("a", Marks::empty(), tags(&["test"])),
            Text::with_marks_and_meta("b", Marks::empty(), tags(&["decoration", "test"])),
            Text::with_marks_and_meta("c", Marks::empty(), tags(&["test"])),
        ]
    );
}

#[test]
fn decorations_overlapping() {
    let decs = vec![
        (span(1, 2), tags(&["decoration1"])),
        (span(0, 3), tags(&["decoration2"])),
    ];

    let input = Text::with_marks_and_meta("abc", Marks::bold(), tags(&[]));

    assert_eq!(
        input.decorations(decs),
        vec![
            Text::with_marks_and_meta("a", Marks::bold(), tags(&["decoration2"])),
            Text::with_marks_and_meta(
                "b",
                Marks::bold(),
                tags(&["decoration1", "decoration2"])
            ),
            Text::with_marks_and_meta("c", Marks::bold(), tags(&["decoration2"])),
        ]
    );
}

#[test]
fn decorations_start() {
    let decs = vec![(span(0, 1), tags(&["decoration"]))];

    let input = Text::with_marks_and_meta("abc", Marks::bold(), TagSet::new());

    assert_eq!(
        input.decorations(decs),
        vec![
            Text::with_marks_and_meta("a", Marks::bold(), tags(&["decoration"])),
            Text::with_marks_and_meta("bc", Marks::bold(), TagSet::new()),
        ]
    );
}
