//! Vertex neighborhood records: for every vertex of every polygon, a
//! record of its previous and next neighbor and its owning polygon's
//! index, flattened into one collection and sorted into sweep order
//! (descending y).

use vstd::prelude::*;
use crate::polygons::{Point, Polygon, polys_view};

verus! {

/// One vertex of one polygon, together with its circular neighbors and
/// the index of the polygon that owns it.
#[derive(Clone, Copy, PartialEq, Eq, Structural, Debug)]
pub struct PolyPoint {
    pub prev: Point,
    pub vertex: Point,
    pub next: Point,
    pub poly_idx: usize,
}

/// The vertex records of one polygon with vertex sequence `vs` and
/// index `idx`: record `k` is centered on the vertex that precedes
/// `vs[k]`, treating the sequence as circular, so that every vertex is
/// the center of exactly one record.
pub open spec fn points_of_poly(vs: Seq<Point>, idx: usize) -> Seq<PolyPoint> {
    Seq::new(
        vs.len(),
        |k: int|
            PolyPoint {
                prev: if k == 0 {
                    vs[vs.len() - 2]
                } else if k == 1 {
                    vs[vs.len() - 1]
                } else {
                    vs[k - 2]
                },
                vertex: if k == 0 {
                    vs[vs.len() - 1]
                } else {
                    vs[k - 1]
                },
                next: vs[k],
                poly_idx: idx,
            },
    )
}

/// All vertex records of all polygons, concatenated in polygon order.
pub open spec fn poly_points_of(polys: Seq<Seq<Point>>) -> Seq<PolyPoint>
    decreases polys.len(),
{
    if polys.len() == 0 {
        Seq::empty()
    } else {
        poly_points_of(polys.drop_last())
            + points_of_poly(polys.last(), (polys.len() - 1) as usize)
    }
}

impl PolyPoint {
    /// Builds the flat list of vertex records of all polygons.  Every
    /// polygon must have at least three vertices; a caller rejects
    /// degenerate polygons beforehand.
    pub fn list(polys: &Vec<Polygon>) -> (r: Vec<PolyPoint>)
        requires
            forall|i: int| 0 <= i < polys@.len() ==> (#[trigger] polys@[i])@.len() >= 3,
        ensures
            r@ == poly_points_of(polys_view(polys@)),
    {
        let ghost pv = polys_view(polys@);
        let mut pts: Vec<PolyPoint> = Vec::new();
        let mut i: usize = 0;
        proof {
            assert(pv.take(0) =~= Seq::<Seq<Point>>::empty());
        }
        while i < polys.len()
            invariant
                i <= polys@.len(),
                pv == polys_view(polys@),
                forall|k: int| 0 <= k < polys@.len() ==> (#[trigger] polys@[k])@.len() >= 3,
                pts@ == poly_points_of(pv.take(i as int)),
            decreases polys@.len() - i,
        {
            let poly = &polys[i];
            let n = poly.vertices.len();
            let ghost vs = pv[i as int];
            proof {
                assert(pv[i as int] == polys@[i as int]@);
                assert(n >= 3);
            }
            let mut v1: Point = poly.vertices[n - 2];
            let mut v2: Point = poly.vertices[n - 1];
            let mut k: usize = 0;
            let ghost recs = points_of_poly(vs, i);
            while k < n
                invariant
                    k <= n,
                    n == vs.len(),
                    n >= 3,
                    poly@ == vs,
                    recs == points_of_poly(vs, i),
                    pts@ == poly_points_of(pv.take(i as int)) + recs.take(k as int),
                    v1 == if k == 0 { vs[n - 2] } else if k == 1 { vs[n - 1] } else { vs[k - 2] },
                    v2 == if k == 0 { vs[n - 1] } else { vs[k - 1] },
                decreases n - k,
            {
                let v3: Point = poly.vertices[k];
                pts.push(PolyPoint { prev: v1, vertex: v2, next: v3, poly_idx: i });
                proof {
                    assert(recs[k as int] == PolyPoint { prev: v1, vertex: v2, next: v3, poly_idx: i });
                    assert(recs.take(k as int).push(recs[k as int]) =~= recs.take(k as int + 1));
                }
                v1 = v2;
                v2 = v3;
                k = k + 1;
            }
            proof {
                assert(recs.take(n as int) =~= recs);
                assert(pv.take(i as int + 1).drop_last() =~= pv.take(i as int));
                assert(pv.take(i as int + 1).last() == vs);
                assert(poly_points_of(pv.take(i as int + 1))
                    == poly_points_of(pv.take(i as int)) + points_of_poly(vs, i));
            }
            i = i + 1;
        }
        proof {
            assert(pv.take(pv.len() as int) =~= pv);
        }
        pts
    }
}

/// Stable insertion of `p` into a sequence sorted by descending
/// y-coordinate: `p` goes after every record whose y is greater than or
/// equal to its own.
pub open spec fn insert_desc(s: Seq<PolyPoint>, p: PolyPoint) -> Seq<PolyPoint>
    decreases s.len(),
{
    if s.len() == 0 {
        seq![p]
    } else if s.last().vertex.y < p.vertex.y {
        insert_desc(s.drop_last(), p).push(s.last())
    } else {
        s.push(p)
    }
}

/// Stable sort of the vertex records by descending y-coordinate: the
/// order in which the sweep line visits events.  Records with equal y
/// keep their relative order, so the result is a function of the input.
pub open spec fn sort_desc(s: Seq<PolyPoint>) -> Seq<PolyPoint>
    decreases s.len(),
{
    if s.len() == 0 {
        Seq::empty()
    } else {
        insert_desc(sort_desc(s.drop_last()), s.last())
    }
}

/// Inserting keeps exactly the records that were there, plus the new
/// one.
pub proof fn lemma_insert_desc_multiset(s: Seq<PolyPoint>, p: PolyPoint)
    ensures
        insert_desc(s, p).to_multiset() == s.to_multiset().insert(p),
        insert_desc(s, p).len() == s.len() + 1,
    decreases s.len(),
{
    broadcast use vstd::seq_lib::group_to_multiset_ensures;

    if s.len() == 0 {
        assert(seq![p] =~= Seq::<PolyPoint>::empty().push(p));
        assert(Seq::<PolyPoint>::empty().push(p).to_multiset()
            =~= Seq::<PolyPoint>::empty().to_multiset().insert(p));
    } else if s.last().vertex.y < p.vertex.y {
        lemma_insert_desc_multiset(s.drop_last(), p);
        assert(s.drop_last().push(s.last()) =~= s);
        assert(insert_desc(s, p).to_multiset()
            =~= s.drop_last().to_multiset().insert(p).insert(s.last()));
        assert(s.to_multiset() =~= s.drop_last().to_multiset().insert(s.last()));
        assert(s.drop_last().to_multiset().insert(p).insert(s.last())
            =~= s.drop_last().to_multiset().insert(s.last()).insert(p));
    } else {
    }
}

/// Sorting permutes the records: the sorted sequence holds exactly the
/// records of the input, each as often as it occurs there.
pub proof fn lemma_sort_desc_multiset(s: Seq<PolyPoint>)
    ensures
        sort_desc(s).to_multiset() == s.to_multiset(),
        sort_desc(s).len() == s.len(),
    decreases s.len(),
{
    broadcast use vstd::seq_lib::group_to_multiset_ensures;

    if s.len() == 0 {
    } else {
        lemma_sort_desc_multiset(s.drop_last());
        lemma_insert_desc_multiset(sort_desc(s.drop_last()), s.last());
        assert(s.drop_last().push(s.last()) =~= s);
        assert(sort_desc(s).to_multiset() =~= s.drop_last().to_multiset().insert(s.last()));
    }
}

/// Every record of the sorted sequence is a record of the input.
pub proof fn lemma_sort_desc_contains(s: Seq<PolyPoint>, p: PolyPoint)
    ensures
        sort_desc(s).contains(p) <==> s.contains(p),
{
    broadcast use vstd::seq_lib::group_to_multiset_ensures;

    lemma_sort_desc_multiset(s);
    assert(s.contains(p) <==> s.to_multiset().count(p) > 0);
    assert(sort_desc(s).contains(p) <==> sort_desc(s).to_multiset().count(p) > 0);
}

/// Sorts the vertex records by descending y-coordinate, stably, so the
/// records the sweep visits first are the topmost ones.
pub fn sort_poly_points(pts: &mut Vec<PolyPoint>)
    ensures
        final(pts)@ == sort_desc(old(pts)@),
{
    let ghost orig = old(pts)@;
    if pts.len() <= 1 {
        proof {
            if orig.len() == 0 {
                assert(orig =~= Seq::<PolyPoint>::empty());
            } else {
                assert(orig.drop_last() =~= Seq::<PolyPoint>::empty());
                assert(sort_desc(orig)
                    == insert_desc(sort_desc(Seq::<PolyPoint>::empty()), orig.last()));
                assert(sort_desc(orig) =~= orig);
            }
        }
        return;
    }
    let mut i: usize = 1;
    proof {
        assert(orig.take(1).drop_last() =~= Seq::<PolyPoint>::empty());
        assert(orig.take(1).last() == orig[0]);
        assert(sort_desc(orig.take(1))
            == insert_desc(sort_desc(Seq::<PolyPoint>::empty()), orig[0]));
        assert(sort_desc(orig.take(1)) =~= seq![orig[0]]);
        assert(sort_desc(orig.take(1)) + orig.skip(1) =~= orig);
    }
    while i < pts.len()
        invariant
            1 <= i <= pts@.len(),
            pts@.len() == orig.len(),
            pts@ == sort_desc(orig.take(i as int)) + orig.skip(i as int),
        decreases pts@.len() - i,
    {
        let ghost a = sort_desc(orig.take(i as int));
        let ghost p = orig[i as int];
        proof {
            lemma_sort_desc_multiset(orig.take(i as int));
            assert(a.len() == i);
            assert(pts@[i as int] == p);
            assert(a.take(i as int) =~= a);
            assert((a.take(i as int).push(p) + a.skip(i as int)) + orig.skip(i as int + 1)
                =~= a + orig.skip(i as int));
            assert(insert_desc(a.take(i as int), p) + a.skip(i as int) =~= insert_desc(a, p));
        }
        let mut j: usize = i;
        loop
            invariant_except_break
                0 <= j <= i,
                i < pts@.len(),
                pts@.len() == orig.len(),
                a == sort_desc(orig.take(i as int)),
                p == orig[i as int],
                a.len() == i,
                pts@ == (a.take(j as int).push(p) + a.skip(j as int)) + orig.skip(i as int + 1),
                insert_desc(a, p) == insert_desc(a.take(j as int), p) + a.skip(j as int),
            ensures
                pts@.len() == orig.len(),
                pts@ == insert_desc(a, p) + orig.skip(i as int + 1),
            decreases j,
        {
            if j == 0 {
                proof {
                    assert(a.take(0) =~= Seq::<PolyPoint>::empty());
                    assert(insert_desc(a.take(0), p) == seq![p]);
                    assert(a.take(0).push(p) =~= insert_desc(a.take(0), p));
                    assert((a.take(0).push(p) + a.skip(0)) + orig.skip(i as int + 1)
                        =~= (insert_desc(a.take(0), p) + a.skip(0)) + orig.skip(i as int + 1));
                }
                break;
            }
            let prev_smaller: bool = pts[j - 1].vertex.y < pts[j].vertex.y;
            proof {
                assert(pts@[j as int - 1] == a[j as int - 1]);
                assert(pts@[j as int] == p);
                assert(a.take(j as int).last() == a[j as int - 1]);
                assert(a.take(j as int).drop_last() =~= a.take(j as int - 1));
            }
            if !prev_smaller {
                proof {
                    assert(insert_desc(a.take(j as int), p) == a.take(j as int).push(p));
                    assert((a.take(j as int).push(p) + a.skip(j as int)) + orig.skip(i as int + 1)
                        =~= (insert_desc(a.take(j as int), p) + a.skip(j as int))
                            + orig.skip(i as int + 1));
                }
                break;
            }
            let tmp: PolyPoint = pts[j - 1];
            let cur: PolyPoint = pts[j];
            pts.set(j - 1, cur);
            pts.set(j, tmp);
            proof {
                assert(insert_desc(a.take(j as int), p)
                    == insert_desc(a.take(j as int - 1), p).push(a[j as int - 1]));
                assert(insert_desc(a.take(j as int - 1), p).push(a[j as int - 1]) + a.skip(j as int)
                    =~= insert_desc(a.take(j as int - 1), p) + a.skip(j as int - 1));
                assert(pts@ =~= (a.take(j as int - 1).push(p) + a.skip(j as int - 1))
                    + orig.skip(i as int + 1));
            }
            j = j - 1;
        }
        proof {
            assert(orig.take(i as int + 1).drop_last() =~= orig.take(i as int));
            assert(orig.take(i as int + 1).last() == p);
            assert(sort_desc(orig.take(i as int + 1)) == insert_desc(a, p));
        }
        i = i + 1;
    }
    proof {
        assert(orig.take(orig.len() as int) =~= orig);
        assert(orig.skip(orig.len() as int) =~= Seq::<PolyPoint>::empty());
        assert(sort_desc(orig) + orig.skip(orig.len() as int) =~= sort_desc(orig));
    }
}

} // verus!
