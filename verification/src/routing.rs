//! Edge routing: a cubic bezier curve and an arrowhead triangle for every
//! edge, computed from the placed rectangles in exact integer units.

use vstd::prelude::*;
use vstd::math::{abs, max};
use crate::layering::EdgeRef;
use crate::layout::{placed_ids, placed_view, rect_bounded, PlacedNode, PlacedS};

verus! {

/// How far the curve's endpoint is inset from the destination box, on both
/// axes, to leave room for the arrowhead.
pub const EDGE_INSET: i64 = 10;

/// How far the arrowhead tip is inset from the destination box, on both
/// axes.
pub const TIP_INSET: i64 = 2;

/// Smallest allowed horizontal control-point offset: keeps short or purely
/// vertical edges from degenerating into straight lines.
pub const MIN_CONTROL: i64 = 30;

/// Stroke width of every edge curve.
pub const STROKE_WIDTH: i64 = 2;

/// Red component of the stroke colour.
pub const STROKE_R: u8 = 96;

/// Green component of the stroke colour.
pub const STROKE_G: u8 = 70;

/// Blue component of the stroke colour.
pub const STROKE_B: u8 = 59;

/// An RGB colour.
#[derive(Clone, Copy, Debug, PartialEq, Eq, Structural)]
pub struct Color {
    pub r: u8,
    pub g: u8,
    pub b: u8,
}

/// Mathematical value of a `Point`.
#[verifier::ext_equal]
pub ghost struct PointS {
    pub x: int,
    pub y: int,
}

/// A point of the drawing plane, in integer layout units.
#[derive(Clone, Copy, Debug, PartialEq, Eq, Structural)]
pub struct Point {
    pub x: i64,
    pub y: i64,
}

impl View for Point {
    type V = PointS;

    open spec fn view(&self) -> PointS {
        PointS { x: self.x as int, y: self.y as int }
    }
}

/// Mathematical value of an `EdgeGeometry`.
#[verifier::ext_equal]
pub ghost struct GeoS {
    pub from: usize,
    pub to: usize,
    pub p0: PointS,
    pub p1: PointS,
    pub p2: PointS,
    pub p3: PointS,
    pub base1: PointS,
    pub tip: PointS,
    pub base2: PointS,
    pub stroke_width: int,
    pub color: Color,
}

/// The drawable geometry of one edge: a cubic bezier curve from `p0`
/// through control points `p1`, `p2` to `p3`, an arrowhead triangle
/// `base1`, `tip`, `base2`, and stroke parameters.
#[derive(Clone, Copy, Debug, PartialEq, Eq, Structural)]
pub struct EdgeGeometry {
    pub from: usize,
    pub to: usize,
    pub p0: Point,
    pub p1: Point,
    pub p2: Point,
    pub p3: Point,
    pub base1: Point,
    pub tip: Point,
    pub base2: Point,
    pub stroke_width: i64,
    pub color: Color,
}

impl View for EdgeGeometry {
    type V = GeoS;

    open spec fn view(&self) -> GeoS {
        GeoS {
            from: self.from,
            to: self.to,
            p0: self.p0@,
            p1: self.p1@,
            p2: self.p2@,
            p3: self.p3@,
            base1: self.base1@,
            tip: self.tip@,
            base2: self.base2@,
            stroke_width: self.stroke_width as int,
            color: self.color,
        }
    }
}

/// The views of a geometry sequence, element by element.
pub open spec fn geos_view(gs: Seq<EdgeGeometry>) -> Seq<GeoS> {
    gs.map_values(|g: EdgeGeometry| g@)
}

/// The index of the first placed node with the given id, or -1 when there
/// is none.
pub open spec fn find_placed(ps: Seq<PlacedS>, id: usize) -> int
    decreases ps.len(),
{
    if ps.len() == 0 {
        -1
    } else if ps[0].id == id {
        0
    } else {
        let r = find_placed(ps.drop_first(), id);
        if r < 0 {
            -1
        } else {
            1 + r
        }
    }
}

/// `find_placed` finds exactly the first occurrence of an id.
pub proof fn lemma_find_placed(ps: Seq<PlacedS>, id: usize)
    ensures
        placed_ids(ps).contains(id) <==> find_placed(ps, id) >= 0,
        find_placed(ps, id) < ps.len(),
        find_placed(ps, id) >= 0 ==> ps[find_placed(ps, id)].id == id,
        forall|k: int|
            0 <= k < ps.len() && (k < find_placed(ps, id) || find_placed(ps, id) < 0)
                ==> (#[trigger] ps[k]).id != id,
    decreases ps.len(),
{
    let ids = placed_ids(ps);
    assert(forall|k: int| 0 <= k < ps.len() ==> ids[k] == (#[trigger] ps[k]).id);
    if ps.len() == 0 {
    } else if ps[0].id == id {
        assert(ids[0] == id);
        assert(ids.contains(id));
    } else {
        lemma_find_placed(ps.drop_first(), id);
        let rest = ps.drop_first();
        assert(forall|k: int| 0 <= k < rest.len() ==> #[trigger] rest[k] == ps[k + 1]);
        if placed_ids(rest).contains(id) {
            let w = choose|w: int| 0 <= w < rest.len() && placed_ids(rest)[w] == id;
            assert(ids[w + 1] == id);
            assert(ids.contains(id));
        }
        if ids.contains(id) {
            let w = choose|w: int| 0 <= w < ids.len() && ids[w] == id;
            assert(w != 0);
            assert(placed_ids(rest)[w - 1] == id);
            assert(placed_ids(rest).contains(id));
        }
        assert forall|k: int|
            0 <= k < ps.len() && (k < find_placed(ps, id) || find_placed(ps, id)
                < 0) implies (#[trigger] ps[k]).id != id by {
            if k > 0 {
                assert(rest[k - 1] == ps[k]);
            }
        }
    }
}

/// The geometry of one edge. The curve starts at the bottom-center of the
/// source rectangle and ends at the top-center of the destination
/// rectangle, inset by `EDGE_INSET` on both axes. Its control points sit
/// at a horizontal offset of half the horizontal endpoint distance, but
/// never less than `MIN_CONTROL`. The arrowhead tip sits at the top-center
/// of the destination inset by `TIP_INSET`; the base corners are the
/// endpoint shifted by the tip direction rotated by plus and minus a
/// quarter turn and halved.
pub open spec fn spec_route_edge(ps: Seq<PlacedS>, e: EdgeRef) -> GeoS {
    let fr = ps[find_placed(ps, e.from)].rect;
    let to = ps[find_placed(ps, e.to)].rect;
    let src = PointS { x: fr.x + fr.w / 2, y: fr.y + fr.h };
    let dtop = PointS { x: to.x + to.w / 2, y: to.y };
    let dst = PointS { x: dtop.x - (EDGE_INSET as int), y: dtop.y - (EDGE_INSET as int) };
    let control = max((abs(dst.x - src.x) as int) / 2, MIN_CONTROL as int);
    let tip = PointS { x: dtop.x - (TIP_INSET as int), y: dtop.y - (TIP_INSET as int) };
    let vx = tip.x - dst.x;
    let vy = tip.y - dst.y;
    GeoS {
        from: e.from,
        to: e.to,
        p0: src,
        p1: PointS { x: src.x + control, y: src.y },
        p2: PointS { x: dst.x - control, y: dst.y },
        p3: dst,
        base1: PointS { x: dst.x + vy / 2, y: dst.y - vx / 2 },
        tip: tip,
        base2: PointS { x: dst.x - vy / 2, y: dst.y + vx / 2 },
        stroke_width: STROKE_WIDTH as int,
        color: Color { r: STROKE_R, g: STROKE_G, b: STROKE_B },
    }
}

/// The geometries of a whole edge list, in edge-list order.
pub open spec fn spec_route(ps: Seq<PlacedS>, es: Seq<EdgeRef>) -> Seq<GeoS>
    decreases es.len(),
{
    if es.len() == 0 {
        Seq::empty()
    } else {
        seq![spec_route_edge(ps, es[0])] + spec_route(ps, es.drop_first())
    }
}

/// The horizontal control-point offset never falls below its configured
/// minimum, on either end of the curve, whatever the placement: degenerate
/// or coincident anchors are clamped rather than collapsing the curve.
pub proof fn lemma_control_offset_minimum(ps: Seq<PlacedS>, e: EdgeRef)
    ensures
        spec_route_edge(ps, e).p1.x - spec_route_edge(ps, e).p0.x >= MIN_CONTROL,
        spec_route_edge(ps, e).p3.x - spec_route_edge(ps, e).p2.x >= MIN_CONTROL,
{
}

/// Looks up the first placed node with the given id.
fn find_placed_exec(placed: &Vec<PlacedNode>, id: usize) -> (r: Option<usize>)
    ensures
        ({
            let f = find_placed(placed_view(placed@), id);
            match r {
                Some(i) => f == i as int && i < placed.len() && placed@[i as int].id == id,
                None => f < 0,
            }
        }),
{
    proof {
        lemma_find_placed(placed_view(placed@), id);
    }
    let ghost pv = placed_view(placed@);
    let mut i: usize = 0;
    while i < placed.len()
        invariant
            0 <= i <= placed.len(),
            pv == placed_view(placed@),
            pv.len() == placed.len(),
            forall|k: int| 0 <= k < placed.len() ==> (#[trigger] pv[k]).id == placed@[k].id,
            forall|k: int| 0 <= k < i ==> (#[trigger] pv[k]).id != id,
            find_placed(pv, id) < pv.len(),
            find_placed(pv, id) >= 0 ==> pv[find_placed(pv, id)].id == id,
            forall|k: int|
                0 <= k < pv.len() && (k < find_placed(pv, id) || find_placed(pv, id) < 0)
                    ==> (#[trigger] pv[k]).id != id,
        decreases placed.len() - i,
    {
        if placed[i].id == id {
            proof {
                assert(pv[i as int].id == id);
                assert(find_placed(pv, id) >= 0);
                assert(find_placed(pv, id) == i as int);
            }
            return Some(i);
        }
        i = i + 1;
    }
    proof {
        if find_placed(pv, id) >= 0 {
            assert(pv[find_placed(pv, id)].id != id);
        }
    }
    None
}

/// Computes the geometry of every edge from the placed rectangles, in
/// edge-list order. Every edge endpoint must be placed, and the rectangles
/// must lie within the coordinate bound.
pub fn route_edges(placed: &Vec<PlacedNode>, edges: &Vec<EdgeRef>) -> (out: Vec<EdgeGeometry>)
    requires
        forall|i: int|
            0 <= i < edges@.len() ==> placed_ids(placed_view(placed@)).contains(
                (#[trigger] edges@[i]).from,
            ) && placed_ids(placed_view(placed@)).contains(edges@[i].to),
        forall|p: int| 0 <= p < placed@.len() ==> rect_bounded((#[trigger] placed@[p])@.rect),
    ensures
        geos_view(out@) == spec_route(placed_view(placed@), edges@),
{
    let ghost pv = placed_view(placed@);
    let ghost target = spec_route(pv, edges@);
    let mut out: Vec<EdgeGeometry> = Vec::new();
    let mut i: usize = 0;
    proof {
        assert(geos_view(out@) =~= Seq::<GeoS>::empty());
        assert(edges@.skip(0) =~= edges@);
    }
    while i < edges.len()
        invariant
            pv == placed_view(placed@),
            pv.len() == placed@.len(),
            target == spec_route(pv, edges@),
            forall|k: int|
                0 <= k < edges@.len() ==> placed_ids(pv).contains((#[trigger] edges@[k]).from)
                    && placed_ids(pv).contains(edges@[k].to),
            forall|p: int| 0 <= p < placed@.len() ==> rect_bounded((#[trigger] placed@[p])@.rect),
            forall|p: int| 0 <= p < pv.len() ==> #[trigger] pv[p] == placed@[p]@,
            0 <= i <= edges.len(),
            geos_view(out@) + spec_route(pv, edges@.skip(i as int)) == target,
        decreases edges.len() - i,
    {
        let ghost out_pre = geos_view(out@);
        let e = edges[i];
        proof {
            lemma_find_placed(pv, e.from);
            lemma_find_placed(pv, e.to);
        }
        let fi = match find_placed_exec(placed, e.from) {
            Some(fi) => fi,
            None => {
                proof {
                    assert(false);
                }
                0
            },
        };
        let ti = match find_placed_exec(placed, e.to) {
            Some(ti) => ti,
            None => {
                proof {
                    assert(false);
                }
                0
            },
        };
        let fr = placed[fi].rect;
        let to = placed[ti].rect;
        proof {
            assert(fr@ == pv[find_placed(pv, e.from)].rect);
            assert(to@ == pv[find_placed(pv, e.to)].rect);
            assert(rect_bounded(fr@));
            assert(rect_bounded(to@));
        }
        let src = Point { x: fr.x + fr.w / 2, y: fr.y + fr.h };
        let dtop_x = to.x + to.w / 2;
        let dst = Point { x: dtop_x - EDGE_INSET, y: to.y - EDGE_INSET };
        let dx = dst.x - src.x;
        let adx = if dx < 0 {
            -dx
        } else {
            dx
        };
        let half = adx / 2;
        let control = if half < MIN_CONTROL {
            MIN_CONTROL
        } else {
            half
        };
        let tip = Point { x: dtop_x - TIP_INSET, y: to.y - TIP_INSET };
        let vx = tip.x - dst.x;
        let vy = tip.y - dst.y;
        let geo = EdgeGeometry {
            from: e.from,
            to: e.to,
            p0: src,
            p1: Point { x: src.x + control, y: src.y },
            p2: Point { x: dst.x - control, y: dst.y },
            p3: dst,
            base1: Point { x: dst.x + vy / 2, y: dst.y - vx / 2 },
            tip,
            base2: Point { x: dst.x - vy / 2, y: dst.y + vx / 2 },
            stroke_width: STROKE_WIDTH,
            color: Color { r: STROKE_R, g: STROKE_G, b: STROKE_B },
        };
        out.push(geo);
        i = i + 1;
        proof {
            assert(edges@.skip(i as int - 1)[0] == edges@[i as int - 1]);
            assert(edges@.skip(i as int - 1).drop_first() =~= edges@.skip(i as int));
            assert(geo@ == spec_route_edge(pv, e));
            assert(spec_route(pv, edges@.skip(i as int - 1)) == seq![spec_route_edge(pv, e)]
                + spec_route(pv, edges@.skip(i as int)));
            assert(geos_view(out@) =~= out_pre.push(geo@));
            assert(geos_view(out@) + spec_route(pv, edges@.skip(i as int)) =~= out_pre
                + spec_route(pv, edges@.skip(i as int - 1)));
        }
    }
    proof {
        assert(edges@.skip(edges@.len() as int) =~= Seq::<EdgeRef>::empty());
        assert(spec_route(pv, edges@.skip(edges@.len() as int)) == Seq::<GeoS>::empty());
        assert(geos_view(out@) + Seq::<GeoS>::empty() =~= geos_view(out@));
    }
    out
}

} // verus!
