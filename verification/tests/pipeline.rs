use svg2gerber::polygons::{events_well_formed, PathEvent, Point, Polygon};
use svg2gerber::poly_points::{sort_poly_points, PolyPoint};
use svg2gerber::scanline::{handle_edge, Edge};

fn pt(x: i32, y: i32) -> Point {
    Point { x, y }
}

#[test]
fn from_path_groups_events_into_polygons() {
    let events = vec![
        PathEvent::MoveTo(pt(0, 0)),
        PathEvent::LineTo(pt(10, 0)),
        PathEvent::LineTo(pt(5, 8)),
        PathEvent::Close,
        PathEvent::MoveTo(pt(20, 20)),
        PathEvent::LineTo(pt(30, 20)),
        PathEvent::LineTo(pt(30, 30)),
        PathEvent::LineTo(pt(20, 30)),
        PathEvent::Close,
    ];
    let polys = Polygon::from_path(&events);
    assert_eq!(polys.len(), 2);
    assert_eq!(polys[0].vertices, vec![pt(0, 0), pt(10, 0), pt(5, 8)]);
    assert_eq!(
        polys[1].vertices,
        vec![pt(20, 20), pt(30, 20), pt(30, 30), pt(20, 30)]
    );
}

#[test]
fn from_path_ignores_stray_line_to() {
    let events = vec![
        PathEvent::LineTo(pt(99, 99)),
        PathEvent::MoveTo(pt(0, 0)),
        PathEvent::LineTo(pt(10, 0)),
        PathEvent::LineTo(pt(5, 8)),
        PathEvent::Close,
    ];
    assert!(events_well_formed(&events));
    let polys = Polygon::from_path(&events);
    assert_eq!(polys.len(), 1);
    assert_eq!(polys[0].vertices, vec![pt(0, 0), pt(10, 0), pt(5, 8)]);
}

#[test]
fn from_path_unclosed_accumulator_is_dropped() {
    let events = vec![
        PathEvent::MoveTo(pt(0, 0)),
        PathEvent::LineTo(pt(10, 0)),
        PathEvent::Close,
        PathEvent::MoveTo(pt(50, 50)),
        PathEvent::LineTo(pt(60, 50)),
    ];
    let polys = Polygon::from_path(&events);
    assert_eq!(polys.len(), 1);
}

#[test]
fn events_well_formed_accepts_matched_close() {
    let events = vec![
        PathEvent::MoveTo(pt(0, 0)),
        PathEvent::LineTo(pt(1, 1)),
        PathEvent::Close,
        PathEvent::MoveTo(pt(2, 2)),
        PathEvent::Close,
    ];
    assert!(events_well_formed(&events));
}

#[test]
fn events_well_formed_rejects_stray_close() {
    let events = vec![PathEvent::Close];
    assert!(!events_well_formed(&events));
    let events2 = vec![
        PathEvent::MoveTo(pt(0, 0)),
        PathEvent::Close,
        PathEvent::Close,
    ];
    assert!(!events_well_formed(&events2));
}

fn record(x: i32, y: i32, poly_idx: usize) -> PolyPoint {
    PolyPoint {
        prev: pt(0, 0),
        vertex: pt(x, y),
        next: pt(0, 0),
        poly_idx,
    }
}

#[test]
fn list_builds_circular_neighborhoods() {
    let polys = vec![Polygon {
        vertices: vec![pt(0, 0), pt(10, 0), pt(5, 8)],
    }];
    let pts = PolyPoint::list(&polys);
    assert_eq!(pts.len(), 3);
    // record 0 is centered on the last vertex
    assert_eq!(pts[0].prev, pt(10, 0));
    assert_eq!(pts[0].vertex, pt(5, 8));
    assert_eq!(pts[0].next, pt(0, 0));
    assert_eq!(pts[1].prev, pt(5, 8));
    assert_eq!(pts[1].vertex, pt(0, 0));
    assert_eq!(pts[1].next, pt(10, 0));
    assert_eq!(pts[2].prev, pt(0, 0));
    assert_eq!(pts[2].vertex, pt(10, 0));
    assert_eq!(pts[2].next, pt(5, 8));
    assert!(pts.iter().all(|p| p.poly_idx == 0));
}

#[test]
fn sort_poly_points_orders_by_descending_y() {
    let mut pts = vec![
        record(0, 3, 0),
        record(1, 9, 0),
        record(2, -4, 1),
        record(3, 9, 1),
        record(4, 7, 2),
    ];
    sort_poly_points(&mut pts);
    let ys: Vec<i32> = pts.iter().map(|p| p.vertex.y).collect();
    assert_eq!(ys, vec![9, 9, 7, 3, -4]);
    // stability: the two y=9 records keep their original relative order
    assert_eq!(pts[0].vertex.x, 1);
    assert_eq!(pts[1].vertex.x, 3);
}

#[test]
fn interpolate_x_lt_compares_exactly() {
    let e = Edge {
        upper: pt(10, 10),
        lower: pt(0, 0),
        poly_idx: 0,
    };
    // the edge passes through (5, 5)
    assert!(e.interpolate_x_lt(5, 6));
    assert!(!e.interpolate_x_lt(5, 5));
    assert!(!e.interpolate_x_lt(5, 4));
    // a non-lattice crossing: x at y=5 on the edge (0,0)-(10,9) is 50/9
    let f = Edge {
        upper: pt(10, 9),
        lower: pt(0, 0),
        poly_idx: 0,
    };
    assert!(f.interpolate_x_lt(5, 6)); // 50/9 < 6
    assert!(!f.interpolate_x_lt(5, 5)); // 50/9 > 5
}

#[test]
fn handle_edge_inserts_in_x_order_and_removes() {
    let mut scan: Vec<Edge> = Vec::new();
    // three downward edges starting at y=10, at x = 0, 5, 9
    handle_edge(&mut scan, pt(5, 10), pt(5, 0), 0);
    handle_edge(&mut scan, pt(0, 10), pt(0, 0), 0);
    handle_edge(&mut scan, pt(9, 10), pt(9, 0), 1);
    let xs: Vec<i32> = scan.iter().map(|e| e.upper.x).collect();
    assert_eq!(xs, vec![0, 5, 9]);
    // a zero-length edge and a horizontal edge change nothing
    handle_edge(&mut scan, pt(3, 4), pt(3, 4), 0);
    handle_edge(&mut scan, pt(3, 4), pt(8, 4), 0);
    assert_eq!(scan.len(), 3);
    // the sweep reaches the bottom of the middle edge: it is removed
    handle_edge(&mut scan, pt(5, 0), pt(5, 10), 0);
    let xs2: Vec<i32> = scan.iter().map(|e| e.upper.x).collect();
    assert_eq!(xs2, vec![0, 9]);
}
