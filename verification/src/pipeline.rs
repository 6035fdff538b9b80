//! The full layout pass: layering, sizing, placement and edge routing as
//! one pure pipeline from a graph model to drawable geometry.

use vstd::prelude::*;
use crate::layering::{layer, lemma_layering_shape, rows_view, spec_layering, EdgeRef};
use crate::layout::{
    lemma_place_rows_ids, place, placed_ids, placed_view, spec_placements, PlacedNode, PlacedS,
};
use crate::model::{GraphModel, GraphS};
use crate::routing::{geos_view, route_edges, spec_route, EdgeGeometry, GeoS};

verus! {

/// Mathematical value of a `LayoutResult`.
#[verifier::ext_equal]
pub ghost struct LayoutS {
    pub rows: Seq<Seq<usize>>,
    pub placed: Seq<PlacedS>,
    pub edges: Seq<EdgeRef>,
    pub geometry: Seq<GeoS>,
}

/// The output of one full layout pass: the rows of node ids, a rectangle
/// for every placed node, the emitted edge list, and the drawable geometry
/// of every emitted edge, in edge-list order.
pub struct LayoutResult {
    pub rows: Vec<Vec<usize>>,
    pub placed: Vec<PlacedNode>,
    pub edges: Vec<EdgeRef>,
    pub geometry: Vec<EdgeGeometry>,
}

impl View for LayoutResult {
    type V = LayoutS;

    open spec fn view(&self) -> LayoutS {
        LayoutS {
            rows: rows_view(self.rows@),
            placed: placed_view(self.placed@),
            edges: self.edges@,
            geometry: geos_view(self.geometry@),
        }
    }
}

/// The whole pipeline as one mathematical function of the graph model.
pub open spec fn spec_pipeline(g: GraphS) -> LayoutS {
    let lay = spec_layering(g);
    let placed = spec_placements(g, lay.rows);
    LayoutS {
        rows: lay.rows,
        placed: placed,
        edges: lay.edges,
        geometry: spec_route(placed, lay.edges),
    }
}

/// The pipeline is a pure function of the model: two runs on an unchanged
/// graph yield identical row assignments, placements and geometries.
pub proof fn lemma_render_deterministic(g: GraphS, r1: LayoutS, r2: LayoutS)
    requires
        r1 == spec_pipeline(g),
        r2 == spec_pipeline(g),
    ensures
        r1 == r2,
{
}

/// Runs the full layout pass: breadth-first layering, box sizing, row
/// layout and edge routing, recomputed from scratch and fully determined
/// by the graph model.
pub fn render(g: &GraphModel) -> (r: LayoutResult)
    requires
        g@.wf(),
        g@.bounded(),
    ensures
        r@ == spec_pipeline(g@),
{
    let lay = layer(g);
    proof {
        lemma_layering_shape(g@);
        assert(rows_view(lay.rows@) == spec_layering(g@).rows);
        assert forall|i: int, k: int|
            0 <= i < lay.rows@.len() && 0 <= k < (#[trigger] lay.rows@[i])@.len() implies
            g@.has_node(#[trigger] lay.rows@[i]@[k]) by {
            assert(rows_view(lay.rows@)[i] == lay.rows@[i]@);
        }
        assert forall|i: int|
            0 <= i < lay.rows@.len() implies (#[trigger] lay.rows@[i])@.len()
            <= g@.nodes.len() by {
            assert(rows_view(lay.rows@)[i] == lay.rows@[i]@);
            assert(spec_layering(g@).rows[i].len() <= g@.nodes.len());
        }
    }
    let placed = place(g, &lay.rows);
    proof {
        lemma_place_rows_ids(g@, rows_view(lay.rows@), 0, 0);
        assert(rows_view(lay.rows@).skip(0) =~= rows_view(lay.rows@));
        assert(placed_ids(placed_view(placed@)) == spec_layering(g@).rows.flatten());
        assert forall|i: int|
            0 <= i < lay.edges@.len() implies placed_ids(placed_view(placed@)).contains(
            (#[trigger] lay.edges@[i]).from,
        ) && placed_ids(placed_view(placed@)).contains(lay.edges@[i].to) by {
            assert(spec_layering(g@).edges.contains(lay.edges@[i]));
        }
    }
    let geometry = route_edges(&placed, &lay.edges);
    let r = LayoutResult { rows: lay.rows, placed: placed, edges: lay.edges, geometry: geometry };
    proof {
        assert(r@ =~~= spec_pipeline(g@));
    }
    r
}

} // verus!
