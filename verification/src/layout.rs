//! Row layout: places rows top to bottom and nodes left to right within a
//! row, giving every placed node an absolute rectangle.

use vstd::prelude::*;
use vstd::math::max;
use crate::model::{id_seq, nodes_view, GraphModel, GraphS, Node, NodeS, MAX_NODES};
use crate::sizing::{box_size, spec_box, MAX_BOX_H, MAX_BOX_W};

verus! {

/// Horizontal gap between neighbouring boxes in a row.
pub const H_GAP: i64 = 5;

/// Vertical gap between neighbouring rows.
pub const V_GAP: i64 = 20;

/// Largest coordinate any placed rectangle reaches under the model bounds.
pub const MAX_COORD: i64 = 18014398509481984;

/// Mathematical value of a `Rect`.
#[verifier::ext_equal]
pub ghost struct RectS {
    pub x: int,
    pub y: int,
    pub w: int,
    pub h: int,
}

/// An axis-aligned rectangle: position of its top-left corner and size.
#[derive(Clone, Copy, Debug, PartialEq, Eq, Structural)]
pub struct Rect {
    pub x: i64,
    pub y: i64,
    pub w: i64,
    pub h: i64,
}

impl View for Rect {
    type V = RectS;

    open spec fn view(&self) -> RectS {
        RectS { x: self.x as int, y: self.y as int, w: self.w as int, h: self.h as int }
    }
}

/// Mathematical value of a `PlacedNode`.
#[verifier::ext_equal]
pub ghost struct PlacedS {
    pub id: usize,
    pub rect: RectS,
}

/// One placed node: its id and its absolute rectangle.
#[derive(Clone, Copy, Debug, PartialEq, Eq, Structural)]
pub struct PlacedNode {
    pub id: usize,
    pub rect: Rect,
}

impl View for PlacedNode {
    type V = PlacedS;

    open spec fn view(&self) -> PlacedS {
        PlacedS { id: self.id, rect: self.rect@ }
    }
}

/// The views of a placed-node sequence, element by element.
pub open spec fn placed_view(ps: Seq<PlacedNode>) -> Seq<PlacedS> {
    ps.map_values(|p: PlacedNode| p@)
}

/// The ids of a placement, in placement order.
pub open spec fn placed_ids(ps: Seq<PlacedS>) -> Seq<usize> {
    ps.map_values(|p: PlacedS| p.id)
}

/// A rectangle the router can take: within the coordinate bound on every
/// side and of positive size.
pub open spec fn rect_bounded(r: RectS) -> bool {
    &&& 0 <= r.x <= MAX_COORD
    &&& 0 <= r.y <= MAX_COORD
    &&& 0 < r.w <= MAX_COORD
    &&& 0 < r.h <= MAX_COORD
}

/// The index of the first node with the given id, or -1 when there is
/// none.
pub open spec fn find_node(nodes: Seq<NodeS>, id: usize) -> int
    decreases nodes.len(),
{
    if nodes.len() == 0 {
        -1
    } else if nodes[0].id == id {
        0
    } else {
        let r = find_node(nodes.drop_first(), id);
        if r < 0 {
            -1
        } else {
            1 + r
        }
    }
}

/// The node of `g` with the given id (meaningful when the id is present).
pub open spec fn node_of(g: GraphS, id: usize) -> NodeS {
    g.nodes[find_node(g.nodes, id)]
}

/// `find_node` finds exactly the first occurrence of an id.
pub proof fn lemma_find_node(nodes: Seq<NodeS>, id: usize)
    ensures
        id_seq(nodes).contains(id) <==> find_node(nodes, id) >= 0,
        find_node(nodes, id) < nodes.len(),
        find_node(nodes, id) >= 0 ==> nodes[find_node(nodes, id)].id == id,
        forall|k: int|
            0 <= k < nodes.len() && (k < find_node(nodes, id) || find_node(nodes, id) < 0)
                ==> (#[trigger] nodes[k]).id != id,
    decreases nodes.len(),
{
    let ids = id_seq(nodes);
    assert(forall|k: int| 0 <= k < nodes.len() ==> ids[k] == (#[trigger] nodes[k]).id);
    if nodes.len() == 0 {
    } else if nodes[0].id == id {
        assert(ids[0] == id);
        assert(ids.contains(id));
    } else {
        lemma_find_node(nodes.drop_first(), id);
        let rest = nodes.drop_first();
        assert(forall|k: int| 0 <= k < rest.len() ==> #[trigger] rest[k] == nodes[k + 1]);
        if id_seq(rest).contains(id) {
            let w = choose|w: int| 0 <= w < rest.len() && id_seq(rest)[w] == id;
            assert(ids[w + 1] == id);
            assert(ids.contains(id));
        }
        if ids.contains(id) {
            let w = choose|w: int| 0 <= w < ids.len() && ids[w] == id;
            assert(w != 0);
            assert(id_seq(rest)[w - 1] == id);
            assert(id_seq(rest).contains(id));
        }
        assert forall|k: int|
            0 <= k < nodes.len() && (k < find_node(nodes, id) || find_node(nodes, id)
                < 0) implies (#[trigger] nodes[k]).id != id by {
            if k > 0 {
                assert(rest[k - 1] == nodes[k]);
            }
        }
    }
}

/// Positions the nodes of one row from position `k` on, left to right from
/// `x`, all with top edge `y`.
pub open spec fn place_row(g: GraphS, row: Seq<usize>, k: int, x: int, y: int) -> Seq<PlacedS>
    decreases row.len() - k,
{
    if k < 0 || k >= row.len() {
        Seq::empty()
    } else {
        let b = spec_box(node_of(g, row[k]));
        seq![PlacedS { id: row[k], rect: RectS { x: x, y: y, w: b.w, h: b.h } }] + place_row(
            g,
            row,
            k + 1,
            x + b.w + (H_GAP as int),
            y,
        )
    }
}

/// The height of a row: the tallest box among its nodes from position `k`
/// on.
pub open spec fn row_height(g: GraphS, row: Seq<usize>, k: int) -> int
    decreases row.len() - k,
{
    if k < 0 || k >= row.len() {
        0
    } else {
        max(spec_box(node_of(g, row[k])).h, row_height(g, row, k + 1))
    }
}

/// Positions the rows from index `r` on, top to bottom from vertical
/// offset `y`. A row with no nodes is skipped without consuming vertical
/// space.
pub open spec fn place_rows(g: GraphS, rows: Seq<Seq<usize>>, r: int, y: int) -> Seq<PlacedS>
    decreases rows.len() - r,
{
    if r < 0 || r >= rows.len() {
        Seq::empty()
    } else if rows[r].len() == 0 {
        place_rows(g, rows, r + 1, y)
    } else {
        place_row(g, rows[r], 0, 0, y) + place_rows(
            g,
            rows,
            r + 1,
            y + row_height(g, rows[r], 0) + (V_GAP as int),
        )
    }
}

/// The placement of a whole layering: rows top to bottom from offset zero.
pub open spec fn spec_placements(g: GraphS, rows: Seq<Seq<usize>>) -> Seq<PlacedS> {
    place_rows(g, rows, 0, 0)
}

/// A row placement places exactly the row's ids, in row order.
pub proof fn lemma_place_row_ids(g: GraphS, row: Seq<usize>, k: int, x: int, y: int)
    requires
        0 <= k <= row.len(),
    ensures
        placed_ids(place_row(g, row, k, x, y)) == row.skip(k),
    decreases row.len() - k,
{
    if k >= row.len() {
        assert(row.skip(k) =~= Seq::<usize>::empty());
        assert(placed_ids(place_row(g, row, k, x, y)) =~= Seq::<usize>::empty());
    } else {
        let b = spec_box(node_of(g, row[k]));
        lemma_place_row_ids(g, row, k + 1, x + b.w + (H_GAP as int), y);
        let rest = place_row(g, row, k + 1, x + b.w + (H_GAP as int), y);
        let whole = place_row(g, row, k, x, y);
        assert(placed_ids(rest) == row.skip(k + 1));
        assert(placed_ids(rest).len() == rest.len());
        assert(whole.len() == 1 + rest.len());
        assert(placed_ids(whole).len() == row.skip(k).len());
        assert forall|i: int| 0 <= i < whole.len() implies placed_ids(whole)[i] == row.skip(
            k,
        )[i] by {
            if i > 0 {
                assert(whole[i] == rest[i - 1]);
                assert(placed_ids(rest)[i - 1] == row.skip(k + 1)[i - 1]);
                assert(row.skip(k)[i] == row.skip(k + 1)[i - 1]);
            }
        }
        assert(placed_ids(whole) =~= row.skip(k));
    }
}

/// A layout places exactly the ids standing in the rows, row by row.
pub proof fn lemma_place_rows_ids(g: GraphS, rows: Seq<Seq<usize>>, r: int, y: int)
    requires
        0 <= r <= rows.len(),
    ensures
        placed_ids(place_rows(g, rows, r, y)) == rows.skip(r).flatten(),
    decreases rows.len() - r,
{
    if r >= rows.len() {
        assert(rows.skip(r) =~= Seq::<Seq<usize>>::empty());
        assert(placed_ids(place_rows(g, rows, r, y)) =~= Seq::<usize>::empty());
    } else {
        assert(rows.skip(r)[0] == rows[r]);
        assert(rows.skip(r).drop_first() =~= rows.skip(r + 1));
        assert(rows.skip(r).flatten() == rows.skip(r).first() + rows.skip(
            r,
        ).drop_first().flatten());
        if rows[r].len() == 0 {
            lemma_place_rows_ids(g, rows, r + 1, y);
            assert(rows[r] =~= Seq::<usize>::empty());
            assert(placed_ids(place_rows(g, rows, r, y)) =~= rows.skip(r).flatten());
        } else {
            let yy = y + row_height(g, rows[r], 0) + (V_GAP as int);
            lemma_place_rows_ids(g, rows, r + 1, yy);
            lemma_place_row_ids(g, rows[r], 0, 0, y);
            assert(rows[r].skip(0) =~= rows[r]);
            assert(placed_ids(place_rows(g, rows, r, y)) =~= rows.skip(r).flatten());
        }
    }
}

/// Looks up the first node with the given id.
fn find_node_exec(nodes: &Vec<Node>, id: usize) -> (r: Option<usize>)
    ensures
        ({
            let f = find_node(nodes_view(nodes@), id);
            match r {
                Some(i) => f == i as int && i < nodes.len() && nodes@[i as int].id == id,
                None => f < 0,
            }
        }),
{
    proof {
        lemma_find_node(nodes_view(nodes@), id);
    }
    let ghost nv = nodes_view(nodes@);
    let mut i: usize = 0;
    while i < nodes.len()
        invariant
            0 <= i <= nodes.len(),
            nv == nodes_view(nodes@),
            nv.len() == nodes.len(),
            forall|k: int| 0 <= k < nodes.len() ==> (#[trigger] nv[k]).id == nodes@[k].id,
            forall|k: int| 0 <= k < i ==> (#[trigger] nv[k]).id != id,
            find_node(nv, id) < nv.len(),
            find_node(nv, id) >= 0 ==> nv[find_node(nv, id)].id == id,
            forall|k: int|
                0 <= k < nv.len() && (k < find_node(nv, id) || find_node(nv, id) < 0)
                    ==> (#[trigger] nv[k]).id != id,
        decreases nodes.len() - i,
    {
        if nodes[i].id == id {
            proof {
                assert(nv[i as int].id == id);
                assert(find_node(nv, id) >= 0);
                assert(find_node(nv, id) == i as int);
            }
            return Some(i);
        }
        i = i + 1;
    }
    proof {
        if find_node(nv, id) >= 0 {
            assert(nv[find_node(nv, id)].id != id);
        }
    }
    None
}

/// Converts rows of node ids and each node's computed box into absolute
/// rectangles: rows top to bottom, nodes left to right, one shared top
/// coordinate per row, the row as tall as its tallest box.
pub fn place(g: &GraphModel, rows: &Vec<Vec<usize>>) -> (out: Vec<PlacedNode>)
    requires
        g@.wf(),
        g@.bounded(),
        rows@.len() <= MAX_NODES,
        forall|i: int| 0 <= i < rows@.len() ==> (#[trigger] rows@[i])@.len() <= MAX_NODES,
        forall|i: int, k: int|
            0 <= i < rows@.len() && 0 <= k < (#[trigger] rows@[i])@.len() ==> g@.has_node(
                #[trigger] rows@[i]@[k],
            ),
    ensures
        placed_view(out@) == spec_placements(g@, crate::layering::rows_view(rows@)),
        forall|p: int| 0 <= p < out@.len() ==> rect_bounded((#[trigger] out@[p])@.rect),
{
    let ghost rv = crate::layering::rows_view(rows@);
    let ghost target = spec_placements(g@, rv);
    let mut out: Vec<PlacedNode> = Vec::new();
    let mut y: i64 = 0;
    let mut r: usize = 0;
    proof {
        assert(placed_view(out@) =~= Seq::<PlacedS>::empty());
        assert(placed_view(out@) + place_rows(g@, rv, 0, 0) =~= target);
    }
    while r < rows.len()
        invariant
            g@.wf(),
            g@.bounded(),
            rv == crate::layering::rows_view(rows@),
            rv.len() == rows@.len(),
            forall|i: int| 0 <= i < rv.len() ==> #[trigger] rv[i] == rows@[i]@,
            rows@.len() <= MAX_NODES,
            forall|i: int| 0 <= i < rows@.len() ==> (#[trigger] rows@[i])@.len() <= MAX_NODES,
            forall|i: int, k: int|
                0 <= i < rows@.len() && 0 <= k < (#[trigger] rows@[i])@.len() ==> g@.has_node(
                    #[trigger] rows@[i]@[k],
                ),
            0 <= r <= rows.len(),
            0 <= y,
            y as int <= (r as int) * ((MAX_BOX_H + V_GAP) as int),
            placed_view(out@) + place_rows(g@, rv, r as int, y as int) == target,
            forall|p: int| 0 <= p < out@.len() ==> rect_bounded((#[trigger] out@[p])@.rect),
        decreases rows.len() - r,
    {
        let ghost out_pre = placed_view(out@);
        let ghost y_pre = y as int;
        let row = &rows[r];
        proof {
            assert(rv[r as int] == row@);
            assert((r as int) * 536870932 <= 16777216int * 536870932) by (nonlinear_arith)
                requires
                    0 <= r as int <= 16777216,
            ;
            assert((r as int) * ((MAX_BOX_H + V_GAP) as int) == (r as int) * 536870932);
        }
        if row.len() == 0 {
            proof {
                assert(place_rows(g@, rv, r as int, y as int) == place_rows(
                    g@,
                    rv,
                    r as int + 1,
                    y as int,
                ));
            }
            r = r + 1;
        } else {
            let mut x: i64 = 0;
            let mut maxh: i64 = 0;
            let mut k: usize = 0;
            while k < row.len()
                invariant
                    g@.wf(),
                    g@.bounded(),
                    0 <= r < rows@.len(),
                    rows@.len() <= MAX_NODES,
                    rv == crate::layering::rows_view(rows@),
                    rv.len() == rows@.len(),
                    rv[r as int] == row@,
                    row@ == rows@[r as int]@,
                    row@.len() <= MAX_NODES,
                    forall|k2: int| 0 <= k2 < row@.len() ==> g@.has_node(#[trigger] row@[k2]),
                    0 <= k <= row.len(),
                    0 <= x,
                    x as int <= (k as int) * ((MAX_BOX_W + H_GAP) as int),
                    0 <= maxh <= MAX_BOX_H,
                    y as int == y_pre,
                    0 <= y_pre <= (r as int) * ((MAX_BOX_H + V_GAP) as int),
                    row_height(g@, row@, 0) == max(maxh as int, row_height(g@, row@, k as int)),
                    placed_view(out@) + place_row(g@, row@, k as int, x as int, y_pre) == out_pre
                        + place_row(g@, row@, 0, 0, y_pre),
                    forall|p: int|
                        0 <= p < out@.len() ==> rect_bounded((#[trigger] out@[p])@.rect),
                decreases row.len() - k,
            {
                let ghost x_pre = x as int;
                let ghost out_mid = placed_view(out@);
                proof {
                    assert((k as int) * 536870917 <= 16777216int * 536870917) by (nonlinear_arith)
                        requires
                            0 <= k as int <= 16777216,
                    ;
                    assert((k as int) * ((MAX_BOX_W + H_GAP) as int) == (k as int) * 536870917);
                    assert(0 <= x as int <= MAX_COORD);
                    assert((r as int) * 536870932 <= 16777216int * 536870932) by (nonlinear_arith)
                        requires
                            0 <= r as int <= 16777216,
                    ;
                    assert((r as int) * ((MAX_BOX_H + V_GAP) as int) == (r as int) * 536870932);
                    assert(0 <= y_pre <= MAX_COORD);
                    assert(g@.has_node(row@[k as int]));
                    lemma_find_node(g@.nodes, row@[k as int]);
                }
                let id = row[k];
                let gnodes = g.nodes();
                let idx = match find_node_exec(gnodes, id) {
                    Some(idx) => idx,
                    None => {
                        proof {
                            assert(false);
                        }
                        0
                    },
                };
                let node = &gnodes[idx];
                proof {
                    assert(nodes_view(gnodes@)[idx as int] == g@.nodes[idx as int]);
                    assert(node@ == node_of(g@, row@[k as int]));
                    assert(crate::model::node_bounded(node@));
                }
                let b = box_size(node);
                out.push(PlacedNode { id, rect: Rect { x, y, w: b.w, h: b.h } });
                if b.h > maxh {
                    maxh = b.h;
                }
                x = x + b.w + H_GAP;
                k = k + 1;
                proof {
                    assert(row_height(g@, row@, k as int - 1) == max(
                        spec_box(node_of(g@, row@[k as int - 1])).h,
                        row_height(g@, row@, k as int),
                    ));
                    assert(x as int <= (k as int) * 536870917) by (nonlinear_arith)
                        requires
                            x as int == x_pre + (b.w as int) + 5,
                            0 <= x_pre <= ((k as int) - 1) * 536870917,
                            0 < b.w as int <= 536870912,
                            1 <= k as int,
                    ;
                    assert((k as int) * ((MAX_BOX_W + H_GAP) as int) == (k as int) * 536870917);
                    assert(((k as int) - 1) * ((MAX_BOX_W + H_GAP) as int) == ((k as int) - 1)
                        * 536870917);
                    let placed_k = PlacedS {
                        id: row@[k as int - 1],
                        rect: RectS { x: x_pre, y: y_pre, w: b.w as int, h: b.h as int },
                    };
                    assert(place_row(g@, row@, k as int - 1, x_pre, y_pre) == seq![placed_k]
                        + place_row(g@, row@, k as int, x as int, y_pre));
                    assert(placed_view(out@) =~= out_mid.push(placed_k));
                    assert(placed_view(out@) + place_row(g@, row@, k as int, x as int, y_pre)
                        =~= out_mid + place_row(g@, row@, k as int - 1, x_pre, y_pre));
                }
            }
            proof {
                assert(place_row(g@, row@, row@.len() as int, x as int, y_pre)
                    == Seq::<PlacedS>::empty());
                assert(placed_view(out@) + Seq::<PlacedS>::empty() =~= placed_view(out@));
                assert(placed_view(out@) == out_pre + place_row(g@, row@, 0, 0, y_pre));
                assert(row_height(g@, row@, row@.len() as int) == 0);
                assert(maxh as int == row_height(g@, row@, 0));
                assert(place_rows(g@, rv, r as int, y_pre) == place_row(g@, row@, 0, 0, y_pre)
                    + place_rows(g@, rv, r as int + 1, y_pre + (maxh as int) + (V_GAP as int)));
                assert((out_pre + place_row(g@, row@, 0, 0, y_pre)) + place_rows(
                    g@,
                    rv,
                    r as int + 1,
                    y_pre + (maxh as int) + (V_GAP as int),
                ) =~= out_pre + place_rows(g@, rv, r as int, y_pre));
            }
            y = y + maxh + V_GAP;
            r = r + 1;
            proof {
                assert(y as int <= (r as int) * 536870932) by (nonlinear_arith)
                    requires
                        y as int == y_pre + (maxh as int) + 20,
                        0 <= y_pre <= ((r as int) - 1) * 536870932,
                        0 <= maxh as int <= 536870912,
                        1 <= r as int,
                ;
                assert((r as int) * ((MAX_BOX_H + V_GAP) as int) == (r as int) * 536870932);
                assert(((r as int) - 1) * ((MAX_BOX_H + V_GAP) as int) == ((r as int) - 1)
                    * 536870932);
            }
        }
    }
    proof {
        assert(place_rows(g@, rv, rv.len() as int, y as int) == Seq::<PlacedS>::empty());
        assert(placed_view(out@) + Seq::<PlacedS>::empty() =~= placed_view(out@));
    }
    out
}

/// Hands out the node with the given id, for drawing a placed box's title
/// and text: `Some` exactly when the id names a node of the graph.
pub fn node_by_id<'a>(g: &'a GraphModel, id: usize) -> (r: Option<&'a Node>)
    ensures
        match r {
            Some(n) => g@.has_node(id) && n@ == node_of(g@, id),
            None => !g@.has_node(id),
        },
{
    proof {
        lemma_find_node(g@.nodes, id);
    }
    let nodes = g.nodes();
    match find_node_exec(nodes, id) {
        Some(i) => {
            proof {
                assert(nodes_view(nodes@)[i as int] == g@.nodes[i as int]);
            }
            Some(&nodes[i])
        },
        None => None,
    }
}

} // verus!
