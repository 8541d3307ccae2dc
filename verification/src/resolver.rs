//! The containment resolver: a single top-to-bottom sweep over all
//! vertex records.  At every event the active edge set is updated, the
//! edges strictly left of the vertex are walked with a stack-based
//! entry/exit pairing rule (ignoring the vertex's own polygon), and the
//! resulting nesting level and immediate parent are recorded for the
//! vertex's polygon on first visit and re-checked on every later one.

use vstd::prelude::*;
use crate::polygons::{Point, Polygon, polys_view};
use crate::poly_points::{
    PolyPoint, poly_points_of, points_of_poly, sort_desc, sort_poly_points,
    lemma_sort_desc_multiset, lemma_sort_desc_contains,
};
use crate::scanline::{
    Edge, scan_wf, x_at_lt, spec_handle_edge, handle_edge, remove_edges_at, insert_pos,
    lemma_insert_pos_bounds,
};

verus! {

/// The resolver's result for one polygon: its nesting level (0 means
/// outermost) and the index of its immediate enclosing polygon, if any.
#[derive(Clone, Copy, PartialEq, Eq, Debug)]
pub struct ParentInfo {
    pub parent_idx: Option<usize>,
    pub level: usize,
}

/// A fatal resolution failure: the whole conversion is abandoned.
#[derive(Clone, Copy, PartialEq, Eq, Debug)]
pub enum ResolveError {
    /// A polygon has fewer than three vertices.
    DegeneratePolygon { poly_idx: usize },
    /// A polygon was revisited during the sweep with a nesting result
    /// different from its first-assigned one.
    InconsistentContainment { poly_idx: usize },
}

/// The parent stack after walking the active edges left of the vertex
/// at (`x`, `y`): the walk stops at the first edge not strictly left of
/// `x`, skips edges of polygon `own`, and for every other edge pops the
/// stack if its top is that edge's polygon (an exit crossing) or pushes
/// that polygon (an entry crossing).
pub open spec fn stack_scan(scan: Seq<Edge>, y: int, x: int, own: usize, st: Seq<usize>) -> Seq<
    usize,
>
    decreases scan.len(),
{
    if scan.len() == 0 {
        st
    } else if !x_at_lt(scan[0], y, x) {
        st
    } else {
        let rest = scan.drop_first();
        if scan[0].poly_idx == own {
            stack_scan(rest, y, x, own, st)
        } else if st.len() > 0 && st.last() == scan[0].poly_idx {
            stack_scan(rest, y, x, own, st.drop_last())
        } else {
            stack_scan(rest, y, x, own, st.push(scan[0].poly_idx))
        }
    }
}

/// The containment record that a parent stack describes: its size is
/// the nesting level, its top the immediate parent.
pub open spec fn record_of(st: Seq<usize>) -> ParentInfo {
    ParentInfo {
        parent_idx: if st.len() > 0 {
            Some(st.last())
        } else {
            None
        },
        level: st.len() as usize,
    }
}

/// One sweep event: both neighbor edges of the vertex are handed to the
/// active set, the left-of-vertex edges are walked, and the resulting
/// record is stored for the vertex's polygon if it has none yet, or
/// checked against the stored one otherwise.
pub open spec fn sweep_event(
    scan: Seq<Edge>,
    parents: Seq<Option<ParentInfo>>,
    pt: PolyPoint,
) -> Result<(Seq<Edge>, Seq<Option<ParentInfo>>), ResolveError> {
    let scan1 = spec_handle_edge(scan, pt.vertex, pt.prev, pt.poly_idx);
    let scan2 = spec_handle_edge(scan1, pt.vertex, pt.next, pt.poly_idx);
    let st = stack_scan(
        scan2,
        pt.vertex.y as int,
        pt.vertex.x as int,
        pt.poly_idx,
        Seq::empty(),
    );
    let info = record_of(st);
    match parents[pt.poly_idx as int] {
        None => Ok((scan2, parents.update(pt.poly_idx as int, Some(info)))),
        Some(stored) => if stored == info {
            Ok((scan2, parents))
        } else {
            Err(ResolveError::InconsistentContainment { poly_idx: pt.poly_idx })
        },
    }
}

/// The whole sweep: the events are processed in order; the first
/// consistency failure aborts everything.
pub open spec fn sweep(
    pts: Seq<PolyPoint>,
    scan: Seq<Edge>,
    parents: Seq<Option<ParentInfo>>,
) -> Result<Seq<Option<ParentInfo>>, ResolveError>
    decreases pts.len(),
{
    if pts.len() == 0 {
        Ok(parents)
    } else {
        match sweep_event(scan, parents, pts[0]) {
            Ok(next) => sweep(pts.drop_first(), next.0, next.1),
            Err(e) => Err(e),
        }
    }
}

/// The index of the first polygon with fewer than three vertices at or
/// after position `i`, if any.
pub open spec fn first_degenerate_from(polys: Seq<Seq<Point>>, i: int) -> Option<int>
    decreases polys.len() - i,
{
    if i < 0 || i >= polys.len() {
        None
    } else if polys[i].len() < 3 {
        Some(i)
    } else {
        first_degenerate_from(polys, i + 1)
    }
}

/// What resolution returns on a polygon list: the first degenerate
/// polygon is a fatal error; otherwise the sweep runs over all vertex
/// records in descending-y order, and on success every polygon has
/// exactly one containment record, index-aligned with the input.
pub open spec fn spec_create_parent_list(polys: Seq<Seq<Point>>) -> Result<
    Seq<ParentInfo>,
    ResolveError,
> {
    match first_degenerate_from(polys, 0) {
        Some(i) => Err(ResolveError::DegeneratePolygon { poly_idx: i as usize }),
        None => {
            let pts = sort_desc(poly_points_of(polys));
            match sweep(pts, Seq::empty(), Seq::new(polys.len(), |q: int| None::<ParentInfo>)) {
                Err(e) => Err(e),
                Ok(ps) => Ok(Seq::new(ps.len(), |j: int| ps[j].unwrap())),
            }
        },
    }
}

/// Every vertex record of `polys` names a polygon index below
/// `polys.len()`.
pub proof fn lemma_poly_points_idx_bound(polys: Seq<Seq<Point>>)
    ensures
        forall|j: int|
            0 <= j < poly_points_of(polys).len() ==> (#[trigger] poly_points_of(polys)[j]).poly_idx
                < polys.len(),
    decreases polys.len(),
{
    if polys.len() > 0 {
        lemma_poly_points_idx_bound(polys.drop_last());
        let a = poly_points_of(polys.drop_last());
        let b = points_of_poly(polys.last(), (polys.len() - 1) as usize);
        assert forall|j: int|
            0 <= j < poly_points_of(polys).len() implies (#[trigger] poly_points_of(polys)[j]).poly_idx
            < polys.len() by {
            if j < a.len() {
                assert(poly_points_of(polys)[j] == a[j]);
            } else {
                assert(poly_points_of(polys)[j] == b[j - a.len()]);
            }
        }
    }
}

/// Every non-empty polygon contributes at least one vertex record that
/// names its index.
pub proof fn lemma_poly_points_cover(polys: Seq<Seq<Point>>, k: int)
    requires
        0 <= k < polys.len(),
        polys.len() <= usize::MAX,
        polys[k].len() >= 1,
    ensures
        exists|j: int|
            0 <= j < poly_points_of(polys).len() && (#[trigger] poly_points_of(polys)[j]).poly_idx
                == k,
    decreases polys.len(),
{
    let a = poly_points_of(polys.drop_last());
    let b = points_of_poly(polys.last(), (polys.len() - 1) as usize);
    if k == polys.len() - 1 {
        let j = a.len() as int;
        assert(polys.last() == polys[k]);
        assert(poly_points_of(polys)[j] == b[0]);
        assert(poly_points_of(polys)[j].poly_idx == k);
    } else {
        lemma_poly_points_cover(polys.drop_last(), k);
        let j0 = choose|j0: int|
            0 <= j0 < a.len() && (#[trigger] a[j0]).poly_idx == k;
        assert(poly_points_of(polys)[j0] == a[j0]);
    }
}

/// A record assigned before the sweep ran is never altered by it.
pub proof fn lemma_sweep_keeps(
    pts: Seq<PolyPoint>,
    scan: Seq<Edge>,
    parents: Seq<Option<ParentInfo>>,
    k: int,
)
    requires
        forall|j: int| 0 <= j < pts.len() ==> (#[trigger] pts[j]).poly_idx < parents.len(),
        0 <= k < parents.len(),
        parents[k] is Some,
    ensures
        (sweep(pts, scan, parents) matches Ok(res) ==> res[k] == parents[k]),
    decreases pts.len(),
{
    if pts.len() > 0 {
        match sweep_event(scan, parents, pts[0]) {
            Ok(next) => {
                assert(next.1.len() == parents.len());
                assert(next.1[k] == parents[k]);
                assert(forall|j: int|
                    0 <= j < pts.drop_first().len() ==> (#[trigger] pts.drop_first()[j]).poly_idx
                        < next.1.len());
                lemma_sweep_keeps(pts.drop_first(), next.0, next.1, k);
            },
            Err(_) => {},
        }
    }
}

/// After a successful sweep, every polygon that had an event has a
/// record.
pub proof fn lemma_sweep_sets(
    pts: Seq<PolyPoint>,
    scan: Seq<Edge>,
    parents: Seq<Option<ParentInfo>>,
    j: int,
)
    requires
        forall|q: int| 0 <= q < pts.len() ==> (#[trigger] pts[q]).poly_idx < parents.len(),
        0 <= j < pts.len(),
    ensures
        (sweep(pts, scan, parents) matches Ok(res) ==> res[pts[j].poly_idx as int] is Some),
    decreases pts.len(),
{
    match sweep_event(scan, parents, pts[0]) {
        Ok(next) => {
            assert(next.1.len() == parents.len());
            assert(forall|q: int|
                0 <= q < pts.drop_first().len() ==> (#[trigger] pts.drop_first()[q]).poly_idx
                    < next.1.len());
            if j == 0 {
                let idx = pts[0].poly_idx as int;
                assert(next.1[idx] is Some);
                lemma_sweep_keeps(pts.drop_first(), next.0, next.1, idx);
            } else {
                assert(pts.drop_first()[j - 1] == pts[j]);
                lemma_sweep_sets(pts.drop_first(), next.0, next.1, j - 1);
            }
        },
        Err(_) => {},
    }
}

/// Computes the containment record of every polygon: its nesting level
/// and its immediate parent, by the sweep described in this module.
/// The result is index-aligned with the input.  A polygon with fewer
/// than three vertices, or a polygon revisited with a different result
/// than its first-assigned one, aborts the whole resolution.
pub fn create_parent_list(polygons: &Vec<Polygon>) -> (r: Result<Vec<ParentInfo>, ResolveError>)
    ensures
        ({
            let s = spec_create_parent_list(polys_view(polygons@));
            match r {
                Ok(infos) => s == Ok::<Seq<ParentInfo>, ResolveError>(infos@),
                Err(e) => s == Err::<Seq<ParentInfo>, ResolveError>(e),
            }
        }),
{
    let ghost pv = polys_view(polygons@);
    // reject degenerate polygons up front
    let mut i: usize = 0;
    while i < polygons.len()
        invariant
            i <= polygons@.len(),
            pv == polys_view(polygons@),
            first_degenerate_from(pv, 0) == first_degenerate_from(pv, i as int),
            forall|k: int| 0 <= k < i ==> (#[trigger] pv[k]).len() >= 3,
        decreases polygons@.len() - i,
    {
        proof {
            assert(pv[i as int] == polygons@[i as int]@);
        }
        if polygons[i].vertices.len() < 3 {
            proof {
                assert(first_degenerate_from(pv, i as int) == Some(i as int));
            }
            return Err(ResolveError::DegeneratePolygon { poly_idx: i });
        }
        i = i + 1;
    }
    proof {
        assert(first_degenerate_from(pv, 0) is None);
        assert forall|k: int| 0 <= k < polygons@.len() implies (#[trigger] polygons@[k])@.len()
            >= 3 by {
            assert(pv[k] == polygons@[k]@);
        }
    }
    // build the vertex records and sort them into sweep order
    let mut pts = PolyPoint::list(polygons);
    sort_poly_points(&mut pts);
    let ghost init = Seq::new(pv.len(), |q: int| None::<ParentInfo>);
    proof {
        lemma_sort_desc_multiset(poly_points_of(pv));
        lemma_poly_points_idx_bound(pv);
        assert forall|k: int| 0 <= k < pts@.len() implies (#[trigger] pts@[k]).poly_idx
            < pv.len() by {
            assert(pts@.contains(pts@[k]));
            lemma_sort_desc_contains(poly_points_of(pv), pts@[k]);
            let j0 = choose|j0: int|
                0 <= j0 < poly_points_of(pv).len() && poly_points_of(pv)[j0] == pts@[k];
            assert(poly_points_of(pv)[j0].poly_idx < pv.len());
        }
    }
    // the sweep
    let mut scanline: Vec<Edge> = Vec::new();
    let mut parents: Vec<Option<ParentInfo>> = Vec::new();
    let mut t0: usize = 0;
    while t0 < polygons.len()
        invariant
            t0 <= polygons@.len(),
            parents@ =~= Seq::new(t0 as nat, |q: int| None::<ParentInfo>),
        decreases polygons@.len() - t0,
    {
        parents.push(None);
        proof {
            assert(parents@ =~= Seq::new(t0 as nat + 1, |q: int| None::<ParentInfo>));
        }
        t0 = t0 + 1;
    }
    proof {
        assert(parents@ =~= init);
        assert(pts@.skip(0) =~= pts@);
    }
    let mut idx: usize = 0;
    while idx < pts.len()
        invariant
            idx <= pts@.len(),
            pv == polys_view(polygons@),
            forall|k: int| 0 <= k < pv.len() ==> (#[trigger] pv[k]).len() >= 3,
            first_degenerate_from(pv, 0) is None,
            pts@ == sort_desc(poly_points_of(pv)),
            forall|k: int| 0 <= k < pts@.len() ==> (#[trigger] pts@[k]).poly_idx < pv.len(),
            init == Seq::new(pv.len(), |q: int| None::<ParentInfo>),
            parents@.len() == pv.len(),
            scan_wf(scanline@),
            sweep(pts@, Seq::empty(), init) == sweep(pts@.skip(idx as int), scanline@, parents@),
        decreases pts@.len() - idx,
    {
        let pt: PolyPoint = pts[idx];
        let ghost scan_pre = scanline@;
        let ghost parents_pre = parents@;
        proof {
            assert(pts@.skip(idx as int)[0] == pt);
            assert(pts@.skip(idx as int).drop_first() =~= pts@.skip(idx as int + 1));
        }
        // both neighbor edges of the vertex touch the active set
        handle_edge(&mut scanline, pt.vertex, pt.prev, pt.poly_idx);
        handle_edge(&mut scanline, pt.vertex, pt.next, pt.poly_idx);
        // walk the edges strictly left of the vertex
        let mut stack: Vec<usize> = Vec::new();
        let mut m: usize = 0;
        proof {
            assert(scanline@.skip(0) =~= scanline@);
        }
        loop
            invariant_except_break
                m <= scanline@.len(),
                scan_wf(scanline@),
                pt == pts@[idx as int],
                idx < pts@.len(),
                stack_scan(
                    scanline@,
                    pt.vertex.y as int,
                    pt.vertex.x as int,
                    pt.poly_idx,
                    Seq::empty(),
                ) == stack_scan(
                    scanline@.skip(m as int),
                    pt.vertex.y as int,
                    pt.vertex.x as int,
                    pt.poly_idx,
                    stack@,
                ),
            ensures
                stack@ == stack_scan(
                    scanline@,
                    pt.vertex.y as int,
                    pt.vertex.x as int,
                    pt.poly_idx,
                    Seq::empty(),
                ),
            decreases scanline@.len() - m,
        {
            if m == scanline.len() {
                proof {
                    assert(scanline@.skip(m as int) =~= Seq::<Edge>::empty());
                }
                break;
            }
            let ghost suffix = scanline@.skip(m as int);
            proof {
                assert(suffix[0] == scanline@[m as int]);
                assert(suffix.drop_first() =~= scanline@.skip(m as int + 1));
            }
            let e: Edge = scanline[m];
            if !e.interpolate_x_lt(pt.vertex.y, pt.vertex.x) {
                break;
            }
            if e.poly_idx != pt.poly_idx {
                let ghost st_pre = stack@;
                let mut do_pop: bool = false;
                if stack.len() > 0 {
                    if stack[stack.len() - 1] == e.poly_idx {
                        do_pop = true;
                    }
                }
                proof {
                    assert(do_pop == (st_pre.len() > 0 && st_pre.last() == e.poly_idx));
                }
                if do_pop {
                    stack.pop();
                    proof {
                        assert(stack@ =~= st_pre.drop_last());
                    }
                } else {
                    stack.push(e.poly_idx);
                }
            }
            m = m + 1;
        }
        // record the result on first visit, check it on later ones
        let ghost st = stack_scan(
            scanline@,
            pt.vertex.y as int,
            pt.vertex.x as int,
            pt.poly_idx,
            Seq::empty(),
        );
        let level: usize = stack.len();
        let parent_idx: Option<usize> = if stack.len() > 0 {
            Some(stack[stack.len() - 1])
        } else {
            None
        };
        proof {
            assert(stack@ == st);
            if st.len() > 0 {
                assert(stack@[stack@.len() - 1] == st.last());
            }
            assert(ParentInfo { parent_idx, level } == record_of(st));
        }
        let existing: Option<ParentInfo> = parents[pt.poly_idx];
        match existing {
            None => {
                parents.set(pt.poly_idx, Some(ParentInfo { parent_idx, level }));
                proof {
                    assert(sweep_event(scan_pre, parents_pre, pt)
                        == Ok::<(Seq<Edge>, Seq<Option<ParentInfo>>), ResolveError>(
                        (scanline@, parents@),
                    ));
                }
            },
            Some(stored) => {
                let same_parent: bool = match (stored.parent_idx, parent_idx) {
                    (None, None) => true,
                    (Some(sa), Some(sb)) => sa == sb,
                    _ => false,
                };
                if !(stored.level == level && same_parent) {
                    proof {
                        assert(stored != record_of(st));
                        assert(sweep_event(scan_pre, parents_pre, pt)
                            == Err::<(Seq<Edge>, Seq<Option<ParentInfo>>), ResolveError>(
                            ResolveError::InconsistentContainment { poly_idx: pt.poly_idx },
                        ));
                        assert(sweep(pts@.skip(idx as int), scan_pre, parents_pre)
                            == Err::<Seq<Option<ParentInfo>>, ResolveError>(
                            ResolveError::InconsistentContainment { poly_idx: pt.poly_idx },
                        ));
                    }
                    return Err(ResolveError::InconsistentContainment { poly_idx: pt.poly_idx });
                }
                proof {
                    assert(stored == record_of(st));
                    assert(sweep_event(scan_pre, parents_pre, pt)
                        == Ok::<(Seq<Edge>, Seq<Option<ParentInfo>>), ResolveError>(
                        (scanline@, parents@),
                    ));
                }
            },
        }
        idx = idx + 1;
    }
    proof {
        assert(pts@.skip(pts@.len() as int) =~= Seq::<PolyPoint>::empty());
        assert(sweep(pts@, Seq::empty(), init)
            == Ok::<Seq<Option<ParentInfo>>, ResolveError>(parents@));
        assert forall|k: int| 0 <= k < parents@.len() implies (#[trigger] parents@[k]) is Some by {
            lemma_poly_points_cover(pv, k);
            let j0 = choose|j0: int|
                0 <= j0 < poly_points_of(pv).len() && (#[trigger] poly_points_of(pv)[j0]).poly_idx
                    == k;
            let w = poly_points_of(pv)[j0];
            assert(poly_points_of(pv).contains(w));
            lemma_sort_desc_contains(poly_points_of(pv), w);
            let j2 = choose|j2: int| 0 <= j2 < pts@.len() && pts@[j2] == w;
            lemma_sweep_sets(pts@, Seq::empty(), init, j2);
        }
    }
    // every polygon has exactly one record: unwrap them in order
    let mut out: Vec<ParentInfo> = Vec::new();
    let mut t: usize = 0;
    while t < parents.len()
        invariant
            t <= parents@.len(),
            forall|k: int| 0 <= k < parents@.len() ==> (#[trigger] parents@[k]) is Some,
            out@.len() == t as int,
            forall|k: int| 0 <= k < t ==> #[trigger] out@[k] == parents@[k].unwrap(),
        decreases parents@.len() - t,
    {
        let o: Option<ParentInfo> = parents[t];
        out.push(o.unwrap());
        t = t + 1;
    }
    proof {
        assert(out@ =~= Seq::new(parents@.len(), |j: int| parents@[j].unwrap()));
    }
    Ok(out)
}

/// Resolution is a function of its input alone: two runs on the same
/// polygon list yield identical containment records (or the identical
/// error).
pub proof fn lemma_resolver_deterministic(
    polys: Seq<Seq<Point>>,
    r1: Result<Seq<ParentInfo>, ResolveError>,
    r2: Result<Seq<ParentInfo>, ResolveError>,
)
    requires
        r1 == spec_create_parent_list(polys),
        r2 == spec_create_parent_list(polys),
    ensures
        r1 == r2,
{
}

proof fn lemma_first_degenerate_props(polys: Seq<Seq<Point>>, i: int)
    requires
        0 <= i,
    ensures
        (first_degenerate_from(polys, i) matches Some(j) ==> i <= j < polys.len() && polys[j].len()
            < 3),
        first_degenerate_from(polys, i) is None ==> (forall|k: int|
            i <= k < polys.len() ==> (#[trigger] polys[k]).len() >= 3),
    decreases polys.len() - i,
{
    if i < polys.len() && polys[i].len() >= 3 {
        lemma_first_degenerate_props(polys, i + 1);
    }
}

/// The sweep itself can only fail with a consistency violation.
pub proof fn lemma_sweep_err_kind(
    pts: Seq<PolyPoint>,
    scan: Seq<Edge>,
    parents: Seq<Option<ParentInfo>>,
)
    ensures
        (sweep(pts, scan, parents) matches Err(e) ==> e is InconsistentContainment),
    decreases pts.len(),
{
    if pts.len() > 0 {
        match sweep_event(scan, parents, pts[0]) {
            Ok(next) => {
                lemma_sweep_err_kind(pts.drop_first(), next.0, next.1);
            },
            Err(_) => {},
        }
    }
}

/// Resolution fails with a degenerate-polygon error exactly when some
/// polygon has fewer than three vertices; it never proceeds silently on
/// such an input.
pub proof fn lemma_degenerate_rejected(polys: Seq<Seq<Point>>)
    ensures
        (spec_create_parent_list(polys) matches Err(e) && e is DegeneratePolygon) <==> (exists|k: int|
            0 <= k < polys.len() && (#[trigger] polys[k]).len() < 3),
{
    lemma_first_degenerate_props(polys, 0);
    match first_degenerate_from(polys, 0) {
        Some(j) => {
            assert(0 <= j < polys.len() && polys[j].len() < 3);
        },
        None => {
            lemma_sweep_err_kind(
                sort_desc(poly_points_of(polys)),
                Seq::empty(),
                Seq::new(polys.len(), |q: int| None::<ParentInfo>),
            );
            if exists|k: int| 0 <= k < polys.len() && (#[trigger] polys[k]).len() < 3 {
                let k = choose|k: int| 0 <= k < polys.len() && (#[trigger] polys[k]).len() < 3;
                assert(polys[k].len() >= 3);
            }
        },
    }
}

proof fn lemma_remove_own(scan: Seq<Edge>, vert: Point, own: usize)
    requires
        forall|i: int| 0 <= i < scan.len() ==> (#[trigger] scan[i]).poly_idx == own,
    ensures
        forall|i: int|
            0 <= i < remove_edges_at(scan, vert).len() ==> (#[trigger] remove_edges_at(scan, vert)[i]).poly_idx
                == own,
    decreases scan.len(),
{
    if scan.len() > 0 {
        assert(forall|i: int|
            0 <= i < scan.drop_first().len() ==> (#[trigger] scan.drop_first()[i]).poly_idx == own);
        lemma_remove_own(scan.drop_first(), vert, own);
        let rest = remove_edges_at(scan.drop_first(), vert);
        if scan[0].lower != vert {
            assert forall|i: int|
                0 <= i < remove_edges_at(scan, vert).len() implies (#[trigger] remove_edges_at(
                scan,
                vert,
            )[i]).poly_idx == own by {
                if i == 0 {
                    assert(remove_edges_at(scan, vert)[i] == scan[0]);
                } else {
                    assert(remove_edges_at(scan, vert)[i] == rest[i - 1]);
                }
            }
        }
    }
}

/// Touching the active set with an edge of polygon `own` keeps the set
/// owned entirely by `own` if it was before.
proof fn lemma_handle_edge_own(scan: Seq<Edge>, vert: Point, other: Point, own: usize)
    requires
        forall|i: int| 0 <= i < scan.len() ==> (#[trigger] scan[i]).poly_idx == own,
    ensures
        forall|i: int|
            0 <= i < spec_handle_edge(scan, vert, other, own).len() ==> (#[trigger] spec_handle_edge(
                scan,
                vert,
                other,
                own,
            )[i]).poly_idx == own,
{
    if vert == other || other.y == vert.y {
    } else if other.y > vert.y {
        lemma_remove_own(scan, vert, own);
    } else {
        lemma_insert_pos_bounds(scan, vert.y as int, vert.x as int);
        let pos = insert_pos(scan, vert.y as int, vert.x as int);
        let res = scan.insert(pos, Edge { upper: vert, lower: other, poly_idx: own });
        assert forall|i: int| 0 <= i < res.len() implies (#[trigger] res[i]).poly_idx == own by {
            if i < pos {
                assert(res[i] == scan[i]);
            } else if i == pos {
                assert(res[i] == Edge { upper: vert, lower: other, poly_idx: own });
            } else {
                assert(res[i] == scan[i - 1]);
            }
        }
    }
}

/// Walking an active set owned entirely by the vertex's own polygon
/// leaves the parent stack untouched: every edge is skipped.
proof fn lemma_stack_scan_own(scan: Seq<Edge>, y: int, x: int, own: usize, st: Seq<usize>)
    requires
        forall|i: int| 0 <= i < scan.len() ==> (#[trigger] scan[i]).poly_idx == own,
    ensures
        stack_scan(scan, y, x, own, st) == st,
    decreases scan.len(),
{
    if scan.len() > 0 && x_at_lt(scan[0], y, x) {
        assert(forall|i: int|
            0 <= i < scan.drop_first().len() ==> (#[trigger] scan.drop_first()[i]).poly_idx == own);
        lemma_stack_scan_own(scan.drop_first(), y, x, own, st);
    }
}

proof fn lemma_sweep_single(pts: Seq<PolyPoint>, scan: Seq<Edge>, parents: Seq<Option<ParentInfo>>)
    requires
        forall|j: int| 0 <= j < pts.len() ==> (#[trigger] pts[j]).poly_idx == 0,
        forall|i: int| 0 <= i < scan.len() ==> (#[trigger] scan[i]).poly_idx == 0,
        parents.len() == 1,
        parents[0] is None || parents[0] == Some(ParentInfo { parent_idx: None, level: 0 }),
    ensures
        sweep(pts, scan, parents) == Ok::<Seq<Option<ParentInfo>>, ResolveError>(
            if pts.len() == 0 {
                parents
            } else {
                seq![Some(ParentInfo { parent_idx: None, level: 0 })]
            },
        ),
    decreases pts.len(),
{
    let info0 = ParentInfo { parent_idx: None, level: 0 };
    if pts.len() > 0 {
        let pt = pts[0];
        let scan1 = spec_handle_edge(scan, pt.vertex, pt.prev, pt.poly_idx);
        let scan2 = spec_handle_edge(scan1, pt.vertex, pt.next, pt.poly_idx);
        lemma_handle_edge_own(scan, pt.vertex, pt.prev, pt.poly_idx);
        lemma_handle_edge_own(scan1, pt.vertex, pt.next, pt.poly_idx);
        lemma_stack_scan_own(
            scan2,
            pt.vertex.y as int,
            pt.vertex.x as int,
            pt.poly_idx,
            Seq::empty(),
        );
        assert(record_of(Seq::empty()) == info0);
        let parents2: Seq<Option<ParentInfo>> = if parents[0] is None {
            parents.update(0, Some(info0))
        } else {
            parents
        };
        assert(parents2 =~= seq![Some(info0)]);
        assert(sweep_event(scan, parents, pt) == Ok::<
            (Seq<Edge>, Seq<Option<ParentInfo>>),
            ResolveError,
        >((scan2, parents2)));
        assert(forall|j: int|
            0 <= j < pts.drop_first().len() ==> (#[trigger] pts.drop_first()[j]).poly_idx == 0);
        lemma_sweep_single(pts.drop_first(), scan2, parents2);
    }
}

/// A single polygon with no others present is always outermost: the
/// resolver assigns it level 0 and no parent.
pub proof fn lemma_single_polygon(vs: Seq<Point>)
    requires
        vs.len() >= 3,
    ensures
        spec_create_parent_list(seq![vs]) == Ok::<Seq<ParentInfo>, ResolveError>(
            seq![ParentInfo { parent_idx: None, level: 0 }],
        ),
{
    let info0 = ParentInfo { parent_idx: None, level: 0 };
    let pv: Seq<Seq<Point>> = seq![vs];
    assert(pv[0] == vs);
    assert(first_degenerate_from(pv, 1) is None);
    assert(first_degenerate_from(pv, 0) is None);
    let base = poly_points_of(pv);
    assert(pv.drop_last() =~= Seq::<Seq<Point>>::empty());
    assert(poly_points_of(pv.drop_last()) == Seq::<PolyPoint>::empty());
    assert(pv.last() == vs);
    assert(base =~= points_of_poly(vs, 0));
    assert(forall|j: int| 0 <= j < base.len() ==> (#[trigger] base[j]).poly_idx == 0);
    lemma_sort_desc_multiset(base);
    let pts = sort_desc(base);
    assert(pts.len() == vs.len());
    assert forall|k: int| 0 <= k < pts.len() implies (#[trigger] pts[k]).poly_idx == 0 by {
        assert(pts.contains(pts[k]));
        lemma_sort_desc_contains(base, pts[k]);
        let j0 = choose|j0: int| 0 <= j0 < base.len() && base[j0] == pts[k];
        assert(base[j0].poly_idx == 0);
    }
    let init = Seq::new(pv.len(), |q: int| None::<ParentInfo>);
    assert(init =~= seq![None::<ParentInfo>]);
    lemma_sweep_single(pts, Seq::empty(), init);
    assert(sweep(pts, Seq::empty(), init) == Ok::<Seq<Option<ParentInfo>>, ResolveError>(
        seq![Some(info0)],
    ));
    assert(Seq::new(seq![Some(info0)].len(), |j: int| seq![Some(info0)][j].unwrap())
        =~= seq![info0]);
}

/// Structural soundness of one containment record for polygon `i` out
/// of `n`: level 0 exactly for polygons without a parent, and a parent
/// is always the index of another polygon of the input.
pub open spec fn record_wf(rec: ParentInfo, i: int, n: int) -> bool {
    &&& (rec.level == 0 <==> rec.parent_idx is None)
    &&& (rec.parent_idx matches Some(p) ==> p < n && p != i)
}

proof fn lemma_remove_len(scan: Seq<Edge>, vert: Point)
    ensures
        remove_edges_at(scan, vert).len() <= scan.len(),
    decreases scan.len(),
{
    if scan.len() > 0 {
        lemma_remove_len(scan.drop_first(), vert);
    }
}

proof fn lemma_stack_scan_len(scan: Seq<Edge>, y: int, x: int, own: usize, st: Seq<usize>)
    ensures
        stack_scan(scan, y, x, own, st).len() <= st.len() + scan.len(),
    decreases scan.len(),
{
    if scan.len() > 0 && x_at_lt(scan[0], y, x) {
        let rest = scan.drop_first();
        if scan[0].poly_idx == own {
            lemma_stack_scan_len(rest, y, x, own, st);
        } else if st.len() > 0 && st.last() == scan[0].poly_idx {
            lemma_stack_scan_len(rest, y, x, own, st.drop_last());
        } else {
            lemma_stack_scan_len(rest, y, x, own, st.push(scan[0].poly_idx));
        }
    }
}

proof fn lemma_stack_scan_entries(
    scan: Seq<Edge>,
    y: int,
    x: int,
    own: usize,
    st: Seq<usize>,
    n: int,
)
    requires
        forall|i: int| 0 <= i < scan.len() ==> (#[trigger] scan[i]).poly_idx < n,
        forall|q: int| 0 <= q < st.len() ==> #[trigger] st[q] < n && st[q] != own,
    ensures
        forall|q: int|
            0 <= q < stack_scan(scan, y, x, own, st).len() ==> #[trigger] stack_scan(
                scan,
                y,
                x,
                own,
                st,
            )[q] < n && stack_scan(scan, y, x, own, st)[q] != own,
    decreases scan.len(),
{
    let result = stack_scan(scan, y, x, own, st);
    if scan.len() > 0 && x_at_lt(scan[0], y, x) {
        let rest = scan.drop_first();
        assert(forall|i: int|
            0 <= i < rest.len() ==> (#[trigger] rest[i]).poly_idx < n);
        if scan[0].poly_idx == own {
            lemma_stack_scan_entries(rest, y, x, own, st, n);
            assert forall|q: int| 0 <= q < result.len() implies #[trigger] result[q] < n
                && result[q] != own by {
                assert(result[q] == stack_scan(rest, y, x, own, st)[q]);
            }
        } else if st.len() > 0 && st.last() == scan[0].poly_idx {
            assert(forall|q: int|
                0 <= q < st.drop_last().len() ==> #[trigger] st.drop_last()[q] < n
                    && st.drop_last()[q] != own);
            lemma_stack_scan_entries(rest, y, x, own, st.drop_last(), n);
            assert forall|q: int| 0 <= q < result.len() implies #[trigger] result[q] < n
                && result[q] != own by {
                assert(result[q] == stack_scan(rest, y, x, own, st.drop_last())[q]);
            }
        } else {
            let st2 = st.push(scan[0].poly_idx);
            assert forall|q: int| 0 <= q < st2.len() implies #[trigger] st2[q] < n && st2[q]
                != own by {
                if q < st.len() {
                    assert(st2[q] == st[q]);
                } else {
                    assert(st2[q] == scan[0].poly_idx);
                }
            }
            lemma_stack_scan_entries(rest, y, x, own, st2, n);
            assert forall|q: int| 0 <= q < result.len() implies #[trigger] result[q] < n
                && result[q] != own by {
                assert(result[q] == stack_scan(rest, y, x, own, st2)[q]);
            }
        }
    } else {
        assert forall|q: int| 0 <= q < result.len() implies #[trigger] result[q] < n && result[q]
            != own by {
            assert(result[q] == st[q]);
        }
    }
}

proof fn lemma_handle_edge_bound(scan: Seq<Edge>, vert: Point, other: Point, own: usize, n: int)
    requires
        forall|i: int| 0 <= i < scan.len() ==> (#[trigger] scan[i]).poly_idx < n,
        own < n,
    ensures
        forall|i: int|
            0 <= i < spec_handle_edge(scan, vert, other, own).len() ==> (#[trigger] spec_handle_edge(
                scan,
                vert,
                other,
                own,
            )[i]).poly_idx < n,
        spec_handle_edge(scan, vert, other, own).len() <= scan.len() + 1,
    decreases scan.len(),
{
    if vert == other || other.y == vert.y {
    } else if other.y > vert.y {
        lemma_remove_len(scan, vert);
        lemma_remove_own_bound(scan, vert, n);
    } else {
        lemma_insert_pos_bounds(scan, vert.y as int, vert.x as int);
        let pos = insert_pos(scan, vert.y as int, vert.x as int);
        let res = scan.insert(pos, Edge { upper: vert, lower: other, poly_idx: own });
        assert forall|i: int| 0 <= i < res.len() implies (#[trigger] res[i]).poly_idx < n by {
            if i < pos {
                assert(res[i] == scan[i]);
            } else if i == pos {
                assert(res[i] == Edge { upper: vert, lower: other, poly_idx: own });
            } else {
                assert(res[i] == scan[i - 1]);
            }
        }
    }
}

proof fn lemma_remove_own_bound(scan: Seq<Edge>, vert: Point, n: int)
    requires
        forall|i: int| 0 <= i < scan.len() ==> (#[trigger] scan[i]).poly_idx < n,
    ensures
        forall|i: int|
            0 <= i < remove_edges_at(scan, vert).len() ==> (#[trigger] remove_edges_at(scan, vert)[i]).poly_idx
                < n,
    decreases scan.len(),
{
    if scan.len() > 0 {
        assert(forall|i: int|
            0 <= i < scan.drop_first().len() ==> (#[trigger] scan.drop_first()[i]).poly_idx < n);
        lemma_remove_own_bound(scan.drop_first(), vert, n);
        let rest = remove_edges_at(scan.drop_first(), vert);
        if scan[0].lower != vert {
            assert forall|i: int|
                0 <= i < remove_edges_at(scan, vert).len() implies (#[trigger] remove_edges_at(
                scan,
                vert,
            )[i]).poly_idx < n by {
                if i == 0 {
                    assert(remove_edges_at(scan, vert)[i] == scan[0]);
                } else {
                    assert(remove_edges_at(scan, vert)[i] == rest[i - 1]);
                }
            }
        }
    }
}

proof fn lemma_sweep_sound(
    pts: Seq<PolyPoint>,
    scan: Seq<Edge>,
    parents: Seq<Option<ParentInfo>>,
    n: int,
)
    requires
        parents.len() == n,
        forall|j: int| 0 <= j < pts.len() ==> (#[trigger] pts[j]).poly_idx < n,
        forall|i: int| 0 <= i < scan.len() ==> (#[trigger] scan[i]).poly_idx < n,
        scan.len() + 2 * pts.len() <= usize::MAX,
        forall|k: int|
            0 <= k < n ==> ((#[trigger] parents[k]) matches Some(rec) ==> record_wf(rec, k, n)),
    ensures
        (sweep(pts, scan, parents) matches Ok(res) ==> res.len() == n && forall|k: int|
            0 <= k < n ==> ((#[trigger] res[k]) matches Some(rec) ==> record_wf(rec, k, n))),
    decreases pts.len(),
{
    if pts.len() > 0 {
        let pt = pts[0];
        let scan1 = spec_handle_edge(scan, pt.vertex, pt.prev, pt.poly_idx);
        let scan2 = spec_handle_edge(scan1, pt.vertex, pt.next, pt.poly_idx);
        lemma_handle_edge_bound(scan, pt.vertex, pt.prev, pt.poly_idx, n);
        lemma_handle_edge_bound(scan1, pt.vertex, pt.next, pt.poly_idx, n);
        let st = stack_scan(
            scan2,
            pt.vertex.y as int,
            pt.vertex.x as int,
            pt.poly_idx,
            Seq::empty(),
        );
        lemma_stack_scan_len(
            scan2,
            pt.vertex.y as int,
            pt.vertex.x as int,
            pt.poly_idx,
            Seq::empty(),
        );
        lemma_stack_scan_entries(
            scan2,
            pt.vertex.y as int,
            pt.vertex.x as int,
            pt.poly_idx,
            Seq::empty(),
            n,
        );
        assert(st.len() <= scan2.len());
        assert(record_of(st).level == st.len());
        assert(record_wf(record_of(st), pt.poly_idx as int, n));
        match sweep_event(scan, parents, pt) {
            Ok(next) => {
                assert(next.0 == scan2);
                assert(next.1.len() == n);
                assert(forall|j: int|
                    0 <= j < pts.drop_first().len() ==> (#[trigger] pts.drop_first()[j]).poly_idx
                        < n);
                assert forall|k: int|
                    0 <= k < n implies ((#[trigger] next.1[k]) matches Some(rec) ==> record_wf(
                    rec,
                    k,
                    n,
                )) by {
                    if k != pt.poly_idx as int {
                        assert(next.1[k] == parents[k]);
                    }
                }
                lemma_sweep_sound(pts.drop_first(), scan2, next.1, n);
            },
            Err(_) => {},
        }
    }
}

/// Every successful resolution is structurally sound: there is exactly
/// one record per input polygon; a polygon has level 0 exactly when it
/// has no parent; and a recorded parent is always the index of another
/// polygon of the input.
pub proof fn lemma_resolver_sound(polys: Seq<Seq<Point>>)
    requires
        polys.len() <= usize::MAX,
        2 * poly_points_of(polys).len() <= usize::MAX,
    ensures
        (spec_create_parent_list(polys) matches Ok(recs) ==> recs.len() == polys.len() && forall|
            i: int,
        | 0 <= i < recs.len() ==> record_wf(#[trigger] recs[i], i, polys.len() as int)),
{
    let n = polys.len() as int;
    if first_degenerate_from(polys, 0) is None {
        lemma_first_degenerate_props(polys, 0);
        let base = poly_points_of(polys);
        lemma_poly_points_idx_bound(polys);
        lemma_sort_desc_multiset(base);
        let pts = sort_desc(base);
        assert forall|k: int| 0 <= k < pts.len() implies (#[trigger] pts[k]).poly_idx < n by {
            assert(pts.contains(pts[k]));
            lemma_sort_desc_contains(base, pts[k]);
            let j0 = choose|j0: int| 0 <= j0 < base.len() && base[j0] == pts[k];
            assert(base[j0].poly_idx < n);
        }
        let init = Seq::new(polys.len(), |q: int| None::<ParentInfo>);
        lemma_sweep_sound(pts, Seq::empty(), init, n);
        match sweep(pts, Seq::empty(), init) {
            Ok(ps) => {
                assert forall|k: int| 0 <= k < n implies #[trigger] ps[k] is Some by {
                    lemma_poly_points_cover(polys, k);
                    let j0 = choose|j0: int|
                        0 <= j0 < base.len() && (#[trigger] base[j0]).poly_idx == k;
                    let w = base[j0];
                    assert(base.contains(w));
                    lemma_sort_desc_contains(base, w);
                    let j2 = choose|j2: int| 0 <= j2 < pts.len() && pts[j2] == w;
                    lemma_sweep_sets(pts, Seq::empty(), init, j2);
                }
                let recs = Seq::new(ps.len(), |j: int| ps[j].unwrap());
                assert forall|i: int| 0 <= i < recs.len() implies record_wf(
                    #[trigger] recs[i],
                    i,
                    n,
                ) by {
                    assert(ps[i] is Some);
                    assert(recs[i] == ps[i].unwrap());
                }
            },
            Err(_) => {},
        }
    }
}

} // verus!
