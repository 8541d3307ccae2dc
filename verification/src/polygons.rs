//! Points, path events, and the grouping of a flat event stream into
//! closed polygons.

use vstd::prelude::*;

verus! {

/// A point of the plane, in fixed-point integer coordinates.
#[derive(Clone, Copy, PartialEq, Eq, Structural, Debug)]
pub struct Point {
    pub x: i32,
    pub y: i32,
}

/// One event of a curve-flattened vector path.
#[derive(Clone, Copy, PartialEq, Eq, Structural, Debug)]
pub enum PathEvent {
    MoveTo(Point),
    LineTo(Point),
    Close,
}

/// A closed polygon: an ordered vertex sequence, with an implicit edge
/// from the last vertex back to the first.
pub struct Polygon {
    pub vertices: Vec<Point>,
}

impl View for Polygon {
    type V = Seq<Point>;

    open spec fn view(&self) -> Seq<Point> {
        self.vertices@
    }
}

/// The vertex sequences of a list of polygons.
pub open spec fn polys_view(polys: Seq<Polygon>) -> Seq<Seq<Point>> {
    polys.map_values(|p: Polygon| p@)
}

/// One step of polygon extraction: how a single path event transforms
/// the list of finished polygons and the currently open vertex
/// accumulator.
pub open spec fn extract_step(
    polys: Seq<Seq<Point>>,
    pending: Option<Seq<Point>>,
    e: PathEvent,
) -> (Seq<Seq<Point>>, Option<Seq<Point>>) {
    match e {
        PathEvent::MoveTo(p) => (polys, Some(seq![p])),
        PathEvent::LineTo(p) => match pending {
            Some(vs) => (polys, Some(vs.push(p))),
            None => (polys, None),
        },
        PathEvent::Close => match pending {
            Some(vs) => (polys.push(vs), None),
            None => (polys, None),
        },
    }
}

/// Folds `extract_step` over an event sequence.
pub open spec fn extract_from(
    events: Seq<PathEvent>,
    polys: Seq<Seq<Point>>,
    pending: Option<Seq<Point>>,
) -> (Seq<Seq<Point>>, Option<Seq<Point>>)
    decreases events.len(),
{
    if events.len() == 0 {
        (polys, pending)
    } else {
        let next = extract_step(polys, pending, events[0]);
        extract_from(events.drop_first(), next.0, next.1)
    }
}

/// The polygons that a full event stream describes.
pub open spec fn extract_polys(events: Seq<PathEvent>) -> Seq<Seq<Point>> {
    extract_from(events, Seq::empty(), None).0
}

/// A stream is well formed when every `Close` finds an open accumulator,
/// that is, a `MoveTo` has occurred since the previous `Close`.
pub open spec fn events_wf_from(events: Seq<PathEvent>, pending: bool) -> bool
    decreases events.len(),
{
    if events.len() == 0 {
        true
    } else {
        match events[0] {
            PathEvent::MoveTo(_) => events_wf_from(events.drop_first(), true),
            PathEvent::LineTo(_) => events_wf_from(events.drop_first(), pending),
            PathEvent::Close => pending && events_wf_from(events.drop_first(), false),
        }
    }
}

/// Well-formedness of a whole event stream (no accumulator open at the
/// start).
pub open spec fn events_wf(events: Seq<PathEvent>) -> bool {
    events_wf_from(events, false)
}

/// Decides well-formedness of an event stream, so that a caller can
/// test it before handing the stream to `Polygon::from_path`.
pub fn events_well_formed(events: &Vec<PathEvent>) -> (r: bool)
    ensures
        r == events_wf(events@),
{
    let mut pending: bool = false;
    let mut i: usize = 0;
    proof {
        assert(events@.skip(0) =~= events@);
    }
    while i < events.len()
        invariant
            i <= events@.len(),
            events_wf(events@) == events_wf_from(events@.skip(i as int), pending),
        decreases events@.len() - i,
    {
        proof {
            assert(events@.skip(i as int).drop_first() =~= events@.skip(i as int + 1));
        }
        match events[i] {
            PathEvent::MoveTo(_) => {
                pending = true;
            },
            PathEvent::LineTo(_) => {
            },
            PathEvent::Close => {
                if !pending {
                    return false;
                }
                pending = false;
            },
        }
        i = i + 1;
    }
    proof {
        assert(events@.skip(events@.len() as int) =~= Seq::<PathEvent>::empty());
    }
    true
}

/// The open vertex accumulator, seen as the sequence it holds.
pub open spec fn pending_view(pending: Option<Polygon>) -> Option<Seq<Point>> {
    match pending {
        Some(p) => Some(p@),
        None => None,
    }
}

impl Polygon {
    /// An empty polygon accumulator.
    pub fn new() -> (r: Polygon)
        ensures
            r@ == Seq::<Point>::empty(),
    {
        Polygon { vertices: Vec::new() }
    }

    /// Groups a flat stream of move/line/close events into closed
    /// polygons: `MoveTo` opens a fresh accumulator seeded with its
    /// point, `LineTo` appends to the open accumulator (and is a no-op
    /// without one), `Close` finishes the accumulator as the next
    /// polygon.  Polygon index equals emission order.
    pub fn from_path(events: &Vec<PathEvent>) -> (r: Vec<Polygon>)
        requires
            events_wf(events@),
        ensures
            polys_view(r@) == extract_polys(events@),
    {
        let mut polys: Vec<Polygon> = Vec::new();
        let mut current: Option<Polygon> = None;
        let mut i: usize = 0;
        proof {
            assert(events@.skip(0) =~= events@);
            assert(polys_view(polys@) =~= Seq::<Seq<Point>>::empty());
        }
        while i < events.len()
            invariant
                i <= events@.len(),
                extract_from(events@, Seq::empty(), None)
                    == extract_from(events@.skip(i as int), polys_view(polys@), pending_view(current)),
            decreases events@.len() - i,
        {
            proof {
                assert(events@.skip(i as int).drop_first() =~= events@.skip(i as int + 1));
            }
            let ghost polys_pre = polys_view(polys@);
            let ghost pending_pre = pending_view(current);
            let ghost e = events@[i as int];
            match events[i] {
                PathEvent::MoveTo(p) => {
                    let mut poly = Polygon::new();
                    poly.vertices.push(p);
                    current = Some(poly);
                    proof {
                        assert(pending_view(current) =~= extract_step(polys_pre, pending_pre, e).1);
                    }
                },
                PathEvent::LineTo(p) => {
                    let cur = current;
                    match cur {
                        Some(mut poly) => {
                            poly.vertices.push(p);
                            current = Some(poly);
                        },
                        None => {
                            current = None;
                        },
                    }
                },
                PathEvent::Close => {
                    let cur = current;
                    match cur {
                        Some(poly) => {
                            polys.push(poly);
                            current = None;
                            proof {
                                assert(polys_view(polys@)
                                    =~= extract_step(polys_pre, pending_pre, e).0);
                            }
                        },
                        None => {
                            current = None;
                        },
                    }
                },
            }
            i = i + 1;
        }
        proof {
            assert(events@.skip(events@.len() as int) =~= Seq::<PathEvent>::empty());
        }
        polys
    }
}

} // verus!
