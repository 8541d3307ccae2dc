use svg2gerber::polygons::{Point, Polygon};
use svg2gerber::resolver::{create_parent_list, ParentInfo, ResolveError};

fn poly(coords: &[(i32, i32)]) -> Polygon {
    let mut vertices: Vec<Point> = Vec::new();
    for &(x, y) in coords {
        vertices.push(Point { x, y });
    }
    Polygon { vertices }
}

fn square(x0: i32, y0: i32, x1: i32, y1: i32) -> Polygon {
    poly(&[(x0, y0), (x1, y0), (x1, y1), (x0, y1)])
}

#[test]
fn single_polygon_is_outermost() {
    let polys = vec![poly(&[(0, 0), (10, 0), (5, 8)])];
    let recs = create_parent_list(&polys).unwrap();
    assert_eq!(recs.len(), 1);
    assert_eq!(recs[0], ParentInfo { parent_idx: None, level: 0 });
}

#[test]
fn two_disjoint_squares() {
    let polys = vec![square(0, 0, 10, 10), square(20, 0, 30, 10)];
    let recs = create_parent_list(&polys).unwrap();
    assert_eq!(recs.len(), 2);
    assert_eq!(recs[0], ParentInfo { parent_idx: None, level: 0 });
    assert_eq!(recs[1], ParentInfo { parent_idx: None, level: 0 });
}

#[test]
fn nested_squares() {
    let polys = vec![square(0, 0, 100, 100), square(20, 20, 80, 80)];
    let recs = create_parent_list(&polys).unwrap();
    assert_eq!(recs[0], ParentInfo { parent_idx: None, level: 0 });
    assert_eq!(recs[1], ParentInfo { parent_idx: Some(0), level: 1 });
}

#[test]
fn three_nested_squares() {
    let polys = vec![
        square(0, 0, 100, 100),
        square(10, 10, 90, 90),
        square(20, 20, 80, 80),
    ];
    let recs = create_parent_list(&polys).unwrap();
    assert_eq!(recs[0], ParentInfo { parent_idx: None, level: 0 });
    assert_eq!(recs[1], ParentInfo { parent_idx: Some(0), level: 1 });
    assert_eq!(recs[2], ParentInfo { parent_idx: Some(1), level: 2 });
}

#[test]
fn immediate_parent_has_one_less_level() {
    let polys = vec![
        square(0, 0, 100, 100),
        square(10, 10, 90, 90),
        square(20, 20, 80, 80),
        square(200, 0, 250, 50),
    ];
    let recs = create_parent_list(&polys).unwrap();
    for rec in &recs {
        match rec.parent_idx {
            None => assert_eq!(rec.level, 0),
            Some(p) => assert_eq!(rec.level, recs[p].level + 1),
        }
    }
}

#[test]
fn degenerate_polygon_fails() {
    let polys = vec![poly(&[(0, 0), (10, 10)])];
    let r = create_parent_list(&polys);
    assert_eq!(r, Err(ResolveError::DegeneratePolygon { poly_idx: 0 }));
}

#[test]
fn degenerate_polygon_fails_among_valid_ones() {
    let polys = vec![square(0, 0, 10, 10), poly(&[(20, 20), (30, 30)])];
    let r = create_parent_list(&polys);
    assert_eq!(r, Err(ResolveError::DegeneratePolygon { poly_idx: 1 }));
}

#[test]
fn c_shape_encloses_despite_double_crossing() {
    // a C-shape opening downward: a 100x100 square with a notch cut
    // upward from the bottom edge between x=40 and x=60
    let c_shape = poly(&[
        (0, 0),
        (40, 0),
        (40, 60),
        (60, 60),
        (60, 0),
        (100, 0),
        (100, 100),
        (0, 100),
    ]);
    // a square inside the right arm of the C: leftward rays from its
    // vertices cross the C's boundary at x=60, x=40 and x=0
    let inner = square(70, 20, 90, 40);
    let polys = vec![c_shape, inner];
    let recs = create_parent_list(&polys).unwrap();
    assert_eq!(recs[0], ParentInfo { parent_idx: None, level: 0 });
    assert_eq!(recs[1], ParentInfo { parent_idx: Some(0), level: 1 });
}

#[test]
fn square_inside_c_notch_is_outside() {
    // the notch of the C is outside the shape: a square inside the
    // notch void is not enclosed
    let c_shape = poly(&[
        (0, 0),
        (40, 0),
        (40, 60),
        (60, 60),
        (60, 0),
        (100, 0),
        (100, 100),
        (0, 100),
    ]);
    let inner = square(45, 10, 55, 30);
    let polys = vec![c_shape, inner];
    let recs = create_parent_list(&polys).unwrap();
    assert_eq!(recs[0], ParentInfo { parent_idx: None, level: 0 });
    assert_eq!(recs[1], ParentInfo { parent_idx: None, level: 0 });
}

#[test]
fn resolver_is_idempotent() {
    let polys = vec![
        square(0, 0, 100, 100),
        square(10, 10, 90, 90),
        square(200, 0, 220, 20),
    ];
    let first = create_parent_list(&polys).unwrap();
    let second = create_parent_list(&polys).unwrap();
    assert_eq!(first, second);
}

#[test]
fn permuting_input_permutes_records() {
    // the same three nested squares, handed over in two orders: each
    // square keeps its own level, and its parent still names the
    // middle square wherever that one now sits
    let outer = || square(0, 0, 100, 100);
    let middle = || square(10, 10, 90, 90);
    let inner = || square(20, 20, 80, 80);

    let recs_a = create_parent_list(&vec![outer(), middle(), inner()]).unwrap();
    let recs_b = create_parent_list(&vec![inner(), outer(), middle()]).unwrap();

    // order a: outer=0, middle=1, inner=2; order b: inner=0, outer=1, middle=2
    assert_eq!(recs_a[0].level, recs_b[1].level);
    assert_eq!(recs_a[1].level, recs_b[2].level);
    assert_eq!(recs_a[2].level, recs_b[0].level);
    assert_eq!(recs_b[1].parent_idx, None);
    assert_eq!(recs_b[2].parent_idx, Some(1));
    assert_eq!(recs_b[0].parent_idx, Some(2));
}

#[test]
fn partially_overlapping_squares_are_inconsistent() {
    // the right square pokes out of the left one: its left vertices
    // lie inside, its right vertices outside, so the sweep computes
    // two different results for it and must abort
    let polys = vec![square(0, 0, 10, 10), square(5, 2, 15, 8)];
    let r = create_parent_list(&polys);
    assert_eq!(r, Err(ResolveError::InconsistentContainment { poly_idx: 1 }));
}

#[test]
fn zero_length_and_horizontal_edges_are_tolerated() {
    // a duplicated vertex (zero-length edge) on an enclosing square
    let outer = poly(&[(0, 0), (100, 0), (100, 0), (100, 100), (0, 100)]);
    let inner = square(20, 20, 80, 80);
    let recs = create_parent_list(&vec![outer, inner]).unwrap();
    assert_eq!(recs[0], ParentInfo { parent_idx: None, level: 0 });
    assert_eq!(recs[1], ParentInfo { parent_idx: Some(0), level: 1 });
}

#[test]
fn negative_coordinates_nest() {
    let polys = vec![square(-100, -100, 100, 100), square(-50, -50, -10, -10)];
    let recs = create_parent_list(&polys).unwrap();
    assert_eq!(recs[0], ParentInfo { parent_idx: None, level: 0 });
    assert_eq!(recs[1], ParentInfo { parent_idx: Some(0), level: 1 });
}

#[test]
fn empty_input_yields_empty_output() {
    let polys: Vec<Polygon> = Vec::new();
    let recs = create_parent_list(&polys).unwrap();
    assert!(recs.is_empty());
}
