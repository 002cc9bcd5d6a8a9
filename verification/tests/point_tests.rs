use slate::path::Path;
use slate::point::Point;

#[test]
fn compare_path_after_offset_after() {
    let a = Point {
        path: Path::new(vec![0, 4]),
        offset: 7,
    };
    let b = Point {
        path: Path::new(vec![0, 1]),
        offset: 3,
    };
    assert!(a > b);
}

#[test]
fn compare_path_after_offset_before() {
    let a = Point {
        path: Path::new(vec![0, 4]),
        offset: 0,
    };
    let b = Point {
        path: Path::new(vec![0, 1]),
        offset: 3,
    };
    assert!(a > b);
}

#[test]
fn compare_path_after_offset_equal() {
    let a = Point {
        path: Path::new(vec![0, 4]),
        offset: 3,
    };
    let b = Point {
        path: Path::new(vec![0, 1]),
        offset: 3,
    };
    assert!(a > b);
}

#[test]
fn compare_path_before_offset_after() {
    let a = Point {
        path: Path::new(vec![0, 0]),
        offset: 4,
    };
    let b = Point {
        path: Path::new(vec![0, 1]),
        offset: 0,
    };
    assert!(a < b);
}

#[test]
fn compare_path_before_offset_before() {
    let a = Point {
        path: Path::new(vec![0, 0]),
        offset: 0,
    };
    let b = Point {
        path: Path::new(vec![0, 1]),
        offset: 3,
    };
    assert!(a < b);
}

#[test]
fn compare_path_before_offset_equal() {
    let a = Point {
        path: Path::new(vec![0, 0]),
        offset: 0,
    };
    let b = Point {
        path: Path::new(vec![0, 1]),
        offset: 0,
    };
    assert!(a < b);
}

#[test]
fn compare_path_equal_offset_after() {
    let a = Point {
        path: Path::new(vec![0, 1]),
        offset: 7,
    };
    let b = Point {
        path: Path::new(vec![0, 1]),
        offset: 3,
    };
    assert!(a > b);
}

#[test]
fn compare_path_equal_offset_before() {
    let a = Point {
        path: Path::new(vec![0, 1]),
        offset: 0,
    };
    let b = Point {
        path: Path::new(vec![0, 1]),
        offset: 3,
    };
    assert!(a < b);
}

#[test]
fn compare_path_equal_offset_equal() {
    let a = Point {
        path: Path::new(vec![0, 1]),
        offset: 7,
    };
    let b = Point {
        path: Path::new(vec![0, 1]),
        offset: 7,
    };
    assert!(a == b);
}
