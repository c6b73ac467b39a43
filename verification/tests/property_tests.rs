use clipper::{JoinType, Path, Paths};
use std::collections::HashSet;

fn paths_of(rings: Vec<Vec<(i64, i64)>>) -> Paths {
    let mut items: Vec<Path> = Vec::new();
    for r in rings {
        items.push(Path::from(r));
    }
    Paths::from(items)
}

fn one_path(ring: Vec<(i64, i64)>) -> Paths {
    paths_of(vec![ring])
}

fn point_set(p: &Paths) -> HashSet<(i64, i64)> {
    let mut s = HashSet::new();
    let mut it = p.iter();
    while let Some(path) = it.next() {
        let mut vit = path.iter();
        while let Some(pt) = vit.next() {
            s.insert(pt);
        }
    }
    s
}

fn rings_of(p: &Paths) -> Vec<Vec<(i64, i64)>> {
    let mut out = Vec::new();
    for i in 0..p.len() {
        let path = p.get(i).unwrap();
        let mut ring = Vec::new();
        for j in 0..path.len() {
            ring.push(path.get(j).unwrap());
        }
        out.push(ring);
    }
    out
}

fn set_of(pts: Vec<(i64, i64)>) -> HashSet<(i64, i64)> {
    pts.into_iter().collect()
}

#[test]
fn offset_zero_is_identity_up_to_normalization() {
    let square = one_path(vec![(0, 0), (0, 1), (1, 1), (1, 0)]);
    let result = clipper::offset(&square, JoinType::Square, 0);
    assert_eq!(point_set(&result), set_of(vec![(0, 0), (0, 1), (1, 1), (1, 0)]));
}

#[test]
fn union_commutes() {
    let a = one_path(vec![(0, 0), (0, 2), (2, 2), (2, 0)]);
    let b = one_path(vec![(1, 1), (1, 3), (3, 3), (3, 1)]);
    let ab = clipper::union(&a, &b);
    let ba = clipper::union(&b, &a);
    assert_eq!(rings_of(&ab), rings_of(&ba));
    assert_eq!(point_set(&ab), point_set(&ba));
}

#[test]
fn intersection_commutes() {
    let a = one_path(vec![(0, 0), (0, 2), (2, 2), (2, 0)]);
    let b = one_path(vec![(1, 1), (1, 3), (3, 3), (3, 1)]);
    let ab = clipper::intersection(&a, &b);
    let ba = clipper::intersection(&b, &a);
    assert_eq!(rings_of(&ab), rings_of(&ba));
    assert_eq!(point_set(&ab), point_set(&ba));
}

#[test]
fn xor_is_symmetric_difference_for_disjoint_interiors() {
    // Two unit squares sharing only the edge y = 1: interiors are disjoint.
    let a = one_path(vec![(0, 0), (0, 1), (1, 1), (1, 0)]);
    let b = one_path(vec![(0, 1), (0, 2), (1, 2), (1, 1)]);
    let xor_pts = point_set(&clipper::xor(&a, &b));
    let union_pts = point_set(&clipper::union(&a, &b));
    let inter_pts = point_set(&clipper::intersection(&a, &b));
    let sym_diff: HashSet<(i64, i64)> = union_pts
        .symmetric_difference(&inter_pts)
        .cloned()
        .collect();
    assert_eq!(xor_pts, sym_diff);
}

#[test]
fn intersection_contained_in_both() {
    // A spans x in [0,2], y in [0,2]; B spans x in [1,3], y in [1,3].
    let a = one_path(vec![(0, 0), (0, 2), (2, 2), (2, 0)]);
    let b = one_path(vec![(1, 1), (1, 3), (3, 3), (3, 1)]);
    let result = clipper::intersection(&a, &b);
    assert!(result.len() > 0);
    for (x, y) in point_set(&result) {
        assert!(0 <= x && x <= 2 && 0 <= y && y <= 2);
        assert!(1 <= x && x <= 3 && 1 <= y && y <= 3);
    }
}

#[test]
fn proper_crossings_union() {
    let a = one_path(vec![(0, 0), (0, 2), (2, 2), (2, 0)]);
    let b = one_path(vec![(1, 1), (1, 3), (3, 3), (3, 1)]);
    let result = clipper::union(&a, &b);
    assert_eq!(
        point_set(&result),
        set_of(vec![
            (0, 0),
            (0, 2),
            (1, 2),
            (1, 3),
            (3, 3),
            (3, 1),
            (2, 1),
            (2, 0),
        ])
    );
}

#[test]
fn proper_crossings_intersection() {
    let a = one_path(vec![(0, 0), (0, 2), (2, 2), (2, 0)]);
    let b = one_path(vec![(1, 1), (1, 3), (3, 3), (3, 1)]);
    let result = clipper::intersection(&a, &b);
    assert_eq!(point_set(&result), set_of(vec![(1, 1), (1, 2), (2, 2), (2, 1)]));
}

#[test]
fn proper_crossings_difference() {
    let a = one_path(vec![(0, 0), (0, 2), (2, 2), (2, 0)]);
    let b = one_path(vec![(1, 1), (1, 3), (3, 3), (3, 1)]);
    let result = clipper::difference(&a, &b);
    assert_eq!(
        point_set(&result),
        set_of(vec![(0, 0), (0, 2), (1, 2), (1, 1), (2, 1), (2, 0)])
    );
}

#[test]
fn difference_leaves_hole() {
    let outer = one_path(vec![(0, 0), (0, 4), (4, 4), (4, 0)]);
    let inner = one_path(vec![(1, 1), (1, 3), (3, 3), (3, 1)]);
    let result = clipper::difference(&outer, &inner);
    assert_eq!(result.len(), 2);
    assert_eq!(
        point_set(&result),
        set_of(vec![
            (0, 0),
            (0, 4),
            (4, 4),
            (4, 0),
            (1, 1),
            (1, 3),
            (3, 3),
            (3, 1),
        ])
    );
}

#[test]
fn degenerate_paths_contribute_nothing() {
    let a = one_path(vec![(0, 0), (0, 1), (1, 1), (1, 0)]);
    let b = one_path(vec![(0, 1), (0, 2), (1, 2), (1, 1)]);
    let with_junk = paths_of(vec![
        vec![(0, 0), (0, 1), (1, 1), (1, 0)],
        vec![],
        vec![(5, 5)],
        vec![(7, 7), (8, 8)],
        vec![(0, 0), (1, 0), (2, 0)],
    ]);
    let plain = clipper::union(&a, &b);
    let noisy = clipper::union(&with_junk, &b);
    assert_eq!(rings_of(&plain), rings_of(&noisy));
}

#[test]
fn empty_inputs_give_empty_output() {
    let empty = paths_of(vec![]);
    let result = clipper::execute(&empty, &empty, clipper::Operation::Xor);
    assert_eq!(result.len(), 0);
    let also_empty = clipper::offset(&empty, JoinType::Square, 3);
    assert_eq!(also_empty.len(), 0);
}

#[test]
fn zero_area_path_is_dropped() {
    let a = one_path(vec![(0, 0), (0, 1), (1, 1), (1, 0)]);
    let flat = one_path(vec![(0, 0), (3, 0), (6, 0)]);
    let result = clipper::union(&a, &flat);
    assert_eq!(point_set(&result), set_of(vec![(0, 0), (0, 1), (1, 1), (1, 0)]));
}

#[test]
fn offset_miter_extends_corners() {
    let square = one_path(vec![(0, 0), (0, 1), (1, 1), (1, 0)]);
    let result = clipper::offset(&square, JoinType::Miter { limit_milli: 2000 }, 1);
    assert_eq!(
        point_set(&result),
        set_of(vec![(2, 2), (-1, 2), (-1, -1), (2, -1)])
    );
}

#[test]
fn offset_miter_limit_falls_back_to_square() {
    // A limit of 1.0 is below the sqrt(2) spike of a right angle, so every
    // corner falls back to the direct connection.
    let square = one_path(vec![(0, 0), (0, 1), (1, 1), (1, 0)]);
    let result = clipper::offset(&square, JoinType::Miter { limit_milli: 1000 }, 1);
    assert_eq!(
        point_set(&result),
        set_of(vec![
            (2, 0),
            (2, 1),
            (1, 2),
            (0, 2),
            (-1, 1),
            (-1, 0),
            (0, -1),
            (1, -1),
        ])
    );
}

#[test]
fn offset_round_with_loose_tolerance_is_bevel() {
    // A tolerance of 2.0 units swallows the whole corner deviation at delta 1,
    // so no arc vertices are emitted.
    let square = one_path(vec![(0, 0), (0, 1), (1, 1), (1, 0)]);
    let result = clipper::offset(&square, JoinType::Round { tolerance_milli: 2000 }, 1);
    assert_eq!(
        point_set(&result),
        set_of(vec![
            (2, 0),
            (2, 1),
            (1, 2),
            (0, 2),
            (-1, 1),
            (-1, 0),
            (0, -1),
            (1, -1),
        ])
    );
}

#[test]
fn offset_inward_shrinks() {
    let square = one_path(vec![(0, 0), (0, 4), (4, 4), (4, 0)]);
    let result = clipper::offset(&square, JoinType::Square, -1);
    assert_eq!(point_set(&result), set_of(vec![(1, 1), (1, 3), (3, 3), (3, 1)]));
}

#[test]
fn offset_segment_becomes_rectangle() {
    // A two-vertex path is offset into the rectangle around the segment.
    let seg = one_path(vec![(0, 0), (4, 0)]);
    let result = clipper::offset(&seg, JoinType::Square, 1);
    assert_eq!(
        point_set(&result),
        set_of(vec![(0, 1), (0, -1), (4, 1), (4, -1)])
    );
}

#[test]
fn path_accessors() {
    let p = Path::from(vec![(3, 4), (5, 6)]);
    assert_eq!(p.len(), 2);
    assert_eq!(p.get(0), Some((3, 4)));
    assert_eq!(p.get(1), Some((5, 6)));
    assert_eq!(p.get(2), None);
    let mut it = p.iter();
    assert_eq!(it.next(), Some((3, 4)));
    assert_eq!(it.next(), Some((5, 6)));
    assert_eq!(it.next(), None);
    let r = p.as_ref();
    assert_eq!(r.len(), 2);
    assert_eq!(r.get(1), Some((5, 6)));
    let ps = paths_of(vec![vec![(1, 1)], vec![(2, 2)]]);
    assert_eq!(ps.len(), 2);
    assert_eq!(ps.get(0).unwrap().get(0), Some((1, 1)));
    assert!(ps.get(2).is_none());
    let mut pit = ps.iter();
    assert_eq!(pit.next().unwrap().get(0), Some((1, 1)));
    assert_eq!(pit.next().unwrap().get(0), Some((2, 2)));
    assert!(pit.next().is_none());
}

#[test]
fn path_equality() {
    let a = Path::from(vec![(1, 2), (3, 4)]);
    let b = Path::from(vec![(1, 2), (3, 4)]);
    let c = Path::from(vec![(1, 2), (3, 5)]);
    let d = Path::from(vec![(1, 2)]);
    assert_eq!(a, b);
    assert_ne!(a, c);
    assert_ne!(a, d);
}
