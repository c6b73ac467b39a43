use clipper::{JoinType, Path, Paths};
use std::collections::HashSet;

fn paths_of(rings: Vec<Vec<(i64, i64)>>) -> Paths {
    let mut items: Vec<Path> = Vec::new();
    for r in rings {
        items.push(Path::from(r));
    }
    Paths::from(items)
}

fn one_path(ring: Vec<(i64, i64)>) -> Paths {
    paths_of(vec![ring])
}

fn point_set(p: &Paths) -> HashSet<(i64, i64)> {
    let mut s = HashSet::new();
    let mut it = p.iter();
    while let Some(path) = it.next() {
        let mut vit = path.iter();
        while let Some(pt) = vit.next() {
            s.insert(pt);
        }
    }
    s
}

fn set_of(pts: Vec<(i64, i64)>) -> HashSet<(i64, i64)> {
    pts.into_iter().collect()
}

#[test]
fn offset() {
    let path = one_path(vec![(0, 0), (0, 1), (1, 1), (1, 0)]);
    let result = clipper::offset(&path, JoinType::Square, 1);
    assert_eq!(
        point_set(&result),
        set_of(vec![
            (2, 0),
            (2, 1),
            (1, 2),
            (0, 2),
            (-1, 1),
            (-1, 0),
            (0, -1),
            (1, -1),
        ])
    )
}

#[test]
fn union() {
    let path_a = one_path(vec![(0, 0), (0, 1), (1, 1), (1, 0)]);
    let path_b = one_path(vec![(0, 1), (0, 2), (1, 2), (1, 1)]);
    let result = clipper::union(&path_a, &path_b);
    assert_eq!(point_set(&result), set_of(vec![(0, 0), (0, 2), (1, 2), (1, 0)]))
}

#[test]
fn difference() {
    let path_a = one_path(vec![(0, 0), (0, 2), (1, 2), (1, 0)]);
    let path_b = one_path(vec![(0, 1), (0, 2), (1, 2), (1, 1)]);
    let result = clipper::difference(&path_a, &path_b);
    assert_eq!(point_set(&result), set_of(vec![(0, 0), (0, 1), (1, 1), (1, 0)]))
}

#[test]
fn xor() {
    let path_a = one_path(vec![(0, 0), (0, 2), (1, 2), (1, 0)]);
    let path_b = one_path(vec![(0, 1), (0, 2), (2, 2), (2, 1)]);
    let result = clipper::xor(&path_a, &path_b);
    assert_eq!(
        point_set(&result),
        set_of(vec![
            (0, 0),
            (0, 1),
            (1, 1),
            (1, 0),
            (1, 2),
            (2, 2),
            (2, 1),
        ])
    )
}

#[test]
fn intersection() {
    let path_a = one_path(vec![(0, 0), (0, 2), (1, 2), (1, 0)]);
    let path_b = one_path(vec![(0, 1), (0, 2), (2, 2), (2, 1)]);
    let result = clipper::intersection(&path_a, &path_b);
    assert_eq!(point_set(&result), set_of(vec![(0, 1), (0, 2), (1, 2), (1, 1)]))
}
