//! The active edge set of the sweep: non-horizontal polygon edges
//! currently crossed by the sweep line, kept in ascending order of their
//! x-intersection, with exact integer comparisons.

use vstd::prelude::*;
use crate::polygons::Point;

verus! {

/// A directed polygon edge, stored canonically: `upper` is the endpoint
/// with the larger y, `lower` the one with the smaller y.  Horizontal
/// edges are never materialized.
#[derive(Clone, Copy, PartialEq, Eq, Structural, Debug)]
pub struct Edge {
    pub upper: Point,
    pub lower: Point,
    pub poly_idx: usize,
}

/// An edge is well formed when it is not horizontal and stored the
/// right way up.
pub open spec fn edge_wf(e: Edge) -> bool {
    e.lower.y < e.upper.y
}

/// All edges of an active set are well formed.
pub open spec fn scan_wf(scan: Seq<Edge>) -> bool {
    forall|i: int| 0 <= i < scan.len() ==> edge_wf(#[trigger] scan[i])
}

/// The x-coordinate of edge `e` at height `y`, scaled by the positive
/// factor `e.upper.y - e.lower.y` to stay in the integers:
/// `x_at_scaled(e, y) = interpolated_x * (e.upper.y - e.lower.y)`.
pub open spec fn x_at_scaled(e: Edge, y: int) -> int {
    e.lower.x * (e.upper.y - e.lower.y) + (y - e.lower.y) * (e.upper.x - e.lower.x)
}

/// Whether the x-coordinate of edge `e` at height `y` lies strictly
/// left of `x`.  For a well-formed edge the scale factor is positive,
/// so this is the exact comparison of the interpolated x against `x`.
pub open spec fn x_at_lt(e: Edge, y: int, x: int) -> bool {
    x_at_scaled(e, y) < x * (e.upper.y - e.lower.y)
}

impl Edge {
    /// Exact comparison of this edge's x-coordinate at height `y`
    /// against `x`: linear interpolation of x along the segment,
    /// carried out by cross-multiplication so that no rounding occurs.
    pub fn interpolate_x_lt(&self, y: i32, x: i32) -> (r: bool)
        requires
            edge_wf(*self),
        ensures
            r == x_at_lt(*self, y as int, x as int),
    {
        let dy: i128 = (self.upper.y as i128) - (self.lower.y as i128);
        let dx: i128 = (self.upper.x as i128) - (self.lower.x as i128);
        let lx: i128 = self.lower.x as i128;
        let w: i128 = (y as i128) - (self.lower.y as i128);
        let xx: i128 = x as i128;
        proof {
            assert(lx * dy <= 0x8000000000000000i128 && lx * dy >= -0x8000000000000000i128)
                by (nonlinear_arith)
                requires
                    -0x80000000i128 <= lx <= 0x7fffffffi128,
                    -0x100000000i128 <= dy <= 0x100000000i128,
            ;
            assert(w * dx <= 0x10000000000000000i128 && w * dx >= -0x10000000000000000i128)
                by (nonlinear_arith)
                requires
                    -0x100000000i128 <= w <= 0x100000000i128,
                    -0x100000000i128 <= dx <= 0x100000000i128,
            ;
            assert(xx * dy <= 0x8000000000000000i128 && xx * dy >= -0x8000000000000000i128)
                by (nonlinear_arith)
                requires
                    -0x80000000i128 <= xx <= 0x7fffffffi128,
                    -0x100000000i128 <= dy <= 0x100000000i128,
            ;
        }
        let lhs: i128 = lx * dy + w * dx;
        let rhs: i128 = xx * dy;
        lhs < rhs
    }
}

/// The active set with every edge whose lower endpoint equals `vert`
/// removed: the sweep has reached the bottom of those edges.
pub open spec fn remove_edges_at(scan: Seq<Edge>, vert: Point) -> Seq<Edge>
    decreases scan.len(),
{
    if scan.len() == 0 {
        Seq::empty()
    } else if scan[0].lower == vert {
        remove_edges_at(scan.drop_first(), vert)
    } else {
        seq![scan[0]] + remove_edges_at(scan.drop_first(), vert)
    }
}

/// The position at which an edge whose x-coordinate at height `y` is
/// `x` is inserted: the length of the maximal prefix of strictly
/// smaller x-intersections, so insertion keeps the set x-ascending.
pub open spec fn insert_pos(scan: Seq<Edge>, y: int, x: int) -> int
    decreases scan.len(),
{
    if scan.len() == 0 {
        0
    } else if x_at_lt(scan[0], y, x) {
        1 + insert_pos(scan.drop_first(), y, x)
    } else {
        0
    }
}

/// What one (vertex, neighbor) pair does to the active set: nothing for
/// a zero-length or horizontal edge; removal when the edge ends at the
/// vertex; ordered insertion when it starts there.
pub open spec fn spec_handle_edge(
    scan: Seq<Edge>,
    vert: Point,
    other: Point,
    poly_idx: usize,
) -> Seq<Edge> {
    if vert == other {
        scan
    } else if other.y == vert.y {
        scan
    } else if other.y > vert.y {
        remove_edges_at(scan, vert)
    } else {
        scan.insert(
            insert_pos(scan, vert.y as int, vert.x as int),
            Edge { upper: vert, lower: other, poly_idx },
        )
    }
}

/// The insertion position is a valid position of the set.
pub proof fn lemma_insert_pos_bounds(scan: Seq<Edge>, y: int, x: int)
    ensures
        0 <= insert_pos(scan, y, x) <= scan.len(),
    decreases scan.len(),
{
    if scan.len() > 0 && x_at_lt(scan[0], y, x) {
        lemma_insert_pos_bounds(scan.drop_first(), y, x);
    }
}

/// Inserts or removes the edge between `vert` and `other` (owned by
/// polygon `poly_idx`) as the sweep line passes `vert`.
pub fn handle_edge(scanline: &mut Vec<Edge>, vert: Point, other: Point, poly_idx: usize)
    requires
        scan_wf(old(scanline)@),
    ensures
        final(scanline)@ == spec_handle_edge(old(scanline)@, vert, other, poly_idx),
        scan_wf(final(scanline)@),
{
    if vert == other {
        // zero-length edge: never materialized
        return;
    }
    if other.y == vert.y {
        // horizontal edge: never enters the active set
        return;
    }
    if other.y > vert.y {
        // the edge ends at the sweep line: remove it
        let mut kept: Vec<Edge> = Vec::new();
        let mut i: usize = 0;
        proof {
            assert(scanline@.skip(0) =~= scanline@);
            assert(kept@ + remove_edges_at(scanline@, vert) =~= remove_edges_at(scanline@, vert));
        }
        while i < scanline.len()
            invariant
                i <= scanline@.len(),
                scan_wf(scanline@),
                scanline@ == old(scanline)@,
                scan_wf(kept@),
                remove_edges_at(scanline@, vert)
                    == kept@ + remove_edges_at(scanline@.skip(i as int), vert),
            decreases scanline@.len() - i,
        {
            let ghost suffix = scanline@.skip(i as int);
            let ghost kept_pre = kept@;
            proof {
                assert(suffix.drop_first() =~= scanline@.skip(i as int + 1));
                assert(suffix[0] == scanline@[i as int]);
            }
            let e = scanline[i];
            if e.lower == vert {
                proof {
                    assert(remove_edges_at(suffix, vert)
                        == remove_edges_at(scanline@.skip(i as int + 1), vert));
                }
            } else {
                kept.push(e);
                proof {
                    assert(kept@ =~= kept_pre.push(e));
                    assert(remove_edges_at(suffix, vert)
                        == seq![e] + remove_edges_at(scanline@.skip(i as int + 1), vert));
                    assert(kept_pre + remove_edges_at(suffix, vert)
                        =~= kept@ + remove_edges_at(scanline@.skip(i as int + 1), vert));
                    assert forall|k: int| 0 <= k < kept@.len() implies edge_wf(
                        #[trigger] kept@[k],
                    ) by {
                        if k < kept_pre.len() {
                            assert(kept@[k] == kept_pre[k]);
                        } else {
                            assert(kept@[k] == e);
                        }
                    }
                }
            }
            i = i + 1;
        }
        proof {
            assert(scanline@.skip(scanline@.len() as int) =~= Seq::<Edge>::empty());
            assert(remove_edges_at(scanline@, vert) =~= kept@);
        }
        *scanline = kept;
    } else {
        // the edge starts at the sweep line: insert it in order
        let edge = Edge { upper: vert, lower: other, poly_idx };
        let mut j: usize = 0;
        proof {
            assert(scanline@.skip(0) =~= scanline@);
        }
        while j < scanline.len()
            invariant_except_break
                j <= scanline@.len(),
                scan_wf(scanline@),
                scanline@ == old(scanline)@,
                insert_pos(scanline@, vert.y as int, vert.x as int)
                    == j + insert_pos(scanline@.skip(j as int), vert.y as int, vert.x as int),
            ensures
                j <= scanline@.len(),
                scanline@ == old(scanline)@,
                insert_pos(scanline@, vert.y as int, vert.x as int) == j as int,
            decreases scanline@.len() - j,
        {
            let ghost suffix = scanline@.skip(j as int);
            proof {
                assert(suffix.drop_first() =~= scanline@.skip(j as int + 1));
            }
            let e = scanline[j];
            if !e.interpolate_x_lt(vert.y, vert.x) {
                proof {
                    assert(insert_pos(suffix, vert.y as int, vert.x as int) == 0);
                }
                break;
            }
            j = j + 1;
            proof {
                if j == scanline@.len() {
                    assert(scanline@.skip(j as int) =~= Seq::<Edge>::empty());
                }
            }
        }
        scanline.insert(j, edge);
        proof {
            lemma_insert_pos_bounds(old(scanline)@, vert.y as int, vert.x as int);
            let pos = insert_pos(old(scanline)@, vert.y as int, vert.x as int);
            let inserted = old(scanline)@.insert(pos, edge);
            assert(edge_wf(edge));
            assert forall|k: int| 0 <= k < inserted.len() implies edge_wf(#[trigger] inserted[k]) by {
                if k < pos {
                    assert(inserted[k] == old(scanline)@[k]);
                } else if k == pos {
                    assert(inserted[k] == edge);
                } else {
                    assert(inserted[k] == old(scanline)@[k - 1]);
                }
            }
        }
    }
}

} // verus!
