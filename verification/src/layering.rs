//! Breadth-first layering: assigns every node reachable from the entry to a
//! row equal to its discovery depth, and collects the full edge list of the
//! reachable subgraph, in traversal order.

use vstd::prelude::*;
use crate::model::{edges_view, id_seq, Edge, EdgeS, GraphModel, GraphS};

verus! {

/// One emitted edge: an ordered pair of node ids. Parallel edges are
/// emitted once each; self-loops keep `from == to`.
#[derive(Clone, Copy, Debug, PartialEq, Eq, Structural)]
pub struct EdgeRef {
    pub from: usize,
    pub to: usize,
}

/// What one scan pass emits: the edges recorded and the newly discovered
/// node ids, each in scan order.
#[verifier::ext_equal]
pub ghost struct ScanOut {
    pub emitted: Seq<EdgeRef>,
    pub found: Seq<usize>,
}

/// Mathematical value of a `Layering`.
#[verifier::ext_equal]
pub ghost struct LayeringS {
    pub rows: Seq<Seq<usize>>,
    pub edges: Seq<EdgeRef>,
}

/// The views of a sequence of rows, element by element.
pub open spec fn rows_view(rs: Seq<Vec<usize>>) -> Seq<Seq<usize>> {
    rs.map_values(|r: Vec<usize>| r@)
}

/// The layering result: rows of node ids, top row first, and the edge list
/// of the reachable subgraph in traversal order.
pub struct Layering {
    pub rows: Vec<Vec<usize>>,
    pub edges: Vec<EdgeRef>,
}

impl View for Layering {
    type V = LayeringS;

    open spec fn view(&self) -> LayeringS {
        LayeringS { rows: rows_view(self.rows@), edges: self.edges@ }
    }
}

/// Scans the outgoing edges of frontier node `u`, beginning at edge index
/// `j`: records every edge leaving `u` and discovers each target not yet
/// assigned, threading the assigned set through the scan.
pub open spec fn scan_node(g: GraphS, u: usize, j: int, assigned: Seq<usize>) -> ScanOut
    decreases g.edges.len() - j,
{
    if j < 0 || j >= g.edges.len() {
        ScanOut { emitted: Seq::empty(), found: Seq::empty() }
    } else {
        let e = g.edges[j];
        if e.from == u {
            let er = EdgeRef { from: e.from, to: e.to };
            if assigned.contains(e.to) {
                let rest = scan_node(g, u, j + 1, assigned);
                ScanOut { emitted: seq![er] + rest.emitted, found: rest.found }
            } else {
                let rest = scan_node(g, u, j + 1, assigned.push(e.to));
                ScanOut { emitted: seq![er] + rest.emitted, found: seq![e.to] + rest.found }
            }
        } else {
            scan_node(g, u, j + 1, assigned)
        }
    }
}

/// Scans one whole frontier, node by node from position `k`, accumulating
/// the discovered ids that form the next frontier.
pub open spec fn scan_row(g: GraphS, row: Seq<usize>, k: int, assigned: Seq<usize>) -> ScanOut
    decreases row.len() - k,
{
    if k < 0 || k >= row.len() {
        ScanOut { emitted: Seq::empty(), found: Seq::empty() }
    } else {
        let first = scan_node(g, row[k], 0, assigned);
        let rest = scan_row(g, row, k + 1, assigned + first.found);
        ScanOut { emitted: first.emitted + rest.emitted, found: first.found + rest.found }
    }
}

/// The breadth-first layering from a given frontier: each non-empty
/// frontier becomes one row, and its scan's discoveries become the next
/// frontier. `fuel` bounds the number of rows; `g.nodes.len()` is always
/// enough, since every row holds at least one never-before-assigned node.
pub open spec fn bfs_rows(g: GraphS, frontier: Seq<usize>, assigned: Seq<usize>, fuel: nat) -> LayeringS
    decreases fuel,
{
    if frontier.len() == 0 || fuel == 0 {
        LayeringS { rows: Seq::empty(), edges: Seq::empty() }
    } else {
        let sc = scan_row(g, frontier, 0, assigned);
        let rest = bfs_rows(g, sc.found, assigned + sc.found, (fuel - 1) as nat);
        LayeringS { rows: seq![frontier] + rest.rows, edges: sc.emitted + rest.edges }
    }
}

/// The layering of a whole graph: zero nodes give zero rows and zero
/// edges; otherwise breadth-first discovery starts at the entry node.
pub open spec fn spec_layering(g: GraphS) -> LayeringS {
    if g.nodes.len() == 0 {
        LayeringS { rows: Seq::empty(), edges: Seq::empty() }
    } else {
        bfs_rows(g, seq![g.entry], seq![g.entry], g.nodes.len() as nat)
    }
}

/// The ids a node scan discovers are distinct, were not assigned before,
/// and name nodes of the graph; and every target of a scanned edge leaving
/// `u` ends up assigned or discovered.
proof fn lemma_scan_node_props(g: GraphS, u: usize, j: int, assigned: Seq<usize>)
    requires
        g.wf(),
        0 <= j <= g.edges.len(),
    ensures
        ({
            let sc = scan_node(g, u, j, assigned);
            &&& sc.found.no_duplicates()
            &&& forall|x: usize|
                #[trigger] sc.found.contains(x) ==> !assigned.contains(x) && g.has_node(x)
            &&& forall|i: int|
                j <= i < g.edges.len() && (#[trigger] g.edges[i]).from == u ==> (assigned
                    + sc.found).contains(g.edges[i].to)
            &&& forall|x: usize|
                #[trigger] sc.found.contains(x) ==> exists|i: int|
                    j <= i < g.edges.len() && (#[trigger] g.edges[i]).from == u && g.edges[i].to
                        == x
        }),
    decreases g.edges.len() - j,
{
    broadcast use vstd::seq_lib::lemma_seq_contains_after_push;
    broadcast use vstd::seq_lib::lemma_seq_concat_contains_all_elements;

    if j < 0 || j >= g.edges.len() {
    } else {
        let e = g.edges[j];
        let sc = scan_node(g, u, j, assigned);
        if e.from == u {
            if assigned.contains(e.to) {
                lemma_scan_node_props(g, u, j + 1, assigned);
                let rest = scan_node(g, u, j + 1, assigned);
                assert(sc.found == rest.found);
                assert((assigned + sc.found).contains(e.to)) by {
                    let w = choose|w: int| 0 <= w < assigned.len() && assigned[w] == e.to;
                    assert((assigned + sc.found)[w] == e.to);
                }
                assert forall|x: usize| #[trigger] sc.found.contains(x) implies exists|i: int|
                    j <= i < g.edges.len() && (#[trigger] g.edges[i]).from == u && g.edges[i].to
                        == x by {
                    assert(rest.found.contains(x));
                }
            } else {
                lemma_scan_node_props(g, u, j + 1, assigned.push(e.to));
                let rest = scan_node(g, u, j + 1, assigned.push(e.to));
                assert(sc.found == seq![e.to] + rest.found);
                // e.to heads the discoveries and is fresh.
                assert(forall|x: usize| #[trigger] rest.found.contains(x) ==> x != e.to);
                assert(sc.found.no_duplicates()) by {
                    assert(forall|i: int|
                        0 <= i < rest.found.len() ==> sc.found[i + 1] == #[trigger] rest.found[i]);
                    assert(forall|i: int|
                        1 <= i < sc.found.len() ==> rest.found.contains(#[trigger] sc.found[i]));
                }
                assert(forall|x: usize|
                    #[trigger] sc.found.contains(x) ==> !assigned.contains(x) && g.has_node(x))
                    by {
                    assert forall|x: usize| #[trigger]
                        sc.found.contains(x) implies !assigned.contains(x) && g.has_node(x) by {
                        if x == e.to {
                            assert(g.has_node(e.to));
                        } else {
                            let w = choose|w: int|
                                0 <= w < sc.found.len() && sc.found[w] == x;
                            assert(rest.found[w - 1] == x);
                            assert(rest.found.contains(x));
                        }
                    }
                }
                assert forall|x: usize| #[trigger] sc.found.contains(x) implies exists|i: int|
                    j <= i < g.edges.len() && (#[trigger] g.edges[i]).from == u && g.edges[i].to
                        == x by {
                    if x == e.to {
                        assert(j <= j < g.edges.len() && g.edges[j].from == u && g.edges[j].to
                            == x);
                    } else {
                        let w = choose|w: int| 0 <= w < sc.found.len() && sc.found[w] == x;
                        assert(rest.found[w - 1] == x);
                        assert(rest.found.contains(x));
                    }
                }
                // Every later scanned target lands in assigned + found.
                assert forall|i: int|
                    j <= i < g.edges.len() && (#[trigger] g.edges[i]).from
                        == u implies (assigned + sc.found).contains(g.edges[i].to) by {
                    let t = g.edges[i].to;
                    if i == j {
                        assert(sc.found[0] == e.to);
                        assert(sc.found.contains(e.to));
                    } else {
                        assert((assigned.push(e.to) + rest.found).contains(t));
                        let w = choose|w: int|
                            0 <= w < (assigned.push(e.to) + rest.found).len() && (assigned.push(
                                e.to,
                            ) + rest.found)[w] == t;
                        if w < assigned.len() {
                            assert((assigned + sc.found)[w] == t);
                        } else if w == assigned.len() {
                            assert(t == e.to);
                            assert(sc.found.contains(t));
                        } else {
                            assert(rest.found[w - assigned.len() - 1] == t);
                            assert(sc.found.contains(t));
                        }
                    }
                }
            }
        } else {
            lemma_scan_node_props(g, u, j + 1, assigned);
            let rest = scan_node(g, u, j + 1, assigned);
            assert forall|x: usize| #[trigger] sc.found.contains(x) implies exists|i: int|
                j <= i < g.edges.len() && (#[trigger] g.edges[i]).from == u && g.edges[i].to
                    == x by {
                assert(rest.found.contains(x));
            }
        }
    }
}

/// The ids a frontier scan discovers are distinct, fresh, and name nodes;
/// and every target of an edge leaving a scanned frontier node ends up
/// assigned or discovered.
proof fn lemma_scan_row_props(g: GraphS, row: Seq<usize>, k: int, assigned: Seq<usize>)
    requires
        g.wf(),
        0 <= k <= row.len(),
    ensures
        ({
            let sc = scan_row(g, row, k, assigned);
            &&& sc.found.no_duplicates()
            &&& forall|x: usize|
                #[trigger] sc.found.contains(x) ==> !assigned.contains(x) && g.has_node(x)
            &&& forall|i: int, p: int|
                0 <= i < g.edges.len() && k <= p < row.len() && (#[trigger] g.edges[i]).from
                    == (#[trigger] row[p]) ==> (assigned + sc.found).contains(g.edges[i].to)
            &&& forall|x: usize|
                #[trigger] sc.found.contains(x) ==> exists|i: int, p: int|
                    0 <= i < g.edges.len() && k <= p < row.len() && (#[trigger] g.edges[i]).from
                        == (#[trigger] row[p]) && g.edges[i].to == x
        }),
    decreases row.len() - k,
{
    broadcast use vstd::seq_lib::lemma_seq_contains_after_push;
    broadcast use vstd::seq_lib::lemma_seq_concat_contains_all_elements;

    if k < 0 || k >= row.len() {
    } else {
        let first = scan_node(g, row[k], 0, assigned);
        let rest = scan_row(g, row, k + 1, assigned + first.found);
        let sc = scan_row(g, row, k, assigned);
        lemma_scan_node_props(g, row[k], 0, assigned);
        lemma_scan_row_props(g, row, k + 1, assigned + first.found);
        assert(sc.found == first.found + rest.found);

        // Freshness and node membership of the concatenation.
        assert forall|x: usize| #[trigger]
            sc.found.contains(x) implies !assigned.contains(x) && g.has_node(x) by {
            let w = choose|w: int| 0 <= w < sc.found.len() && sc.found[w] == x;
            if w < first.found.len() {
                assert(first.found[w] == x);
                assert(first.found.contains(x));
            } else {
                assert(rest.found[w - first.found.len()] == x);
                assert(rest.found.contains(x));
                assert(!(assigned + first.found).contains(x));
                assert(!assigned.contains(x)) by {
                    if assigned.contains(x) {
                        let v = choose|v: int| 0 <= v < assigned.len() && assigned[v] == x;
                        assert((assigned + first.found)[v] == x);
                    }
                }
            }
        }

        // Distinctness of the concatenation.
        assert(sc.found.no_duplicates()) by {
            assert forall|p: int, q: int|
                0 <= p < q < sc.found.len() implies sc.found[p] != sc.found[q] by {
                if q < first.found.len() {
                } else if p >= first.found.len() {
                    assert(rest.found[p - first.found.len()] != rest.found[q
                        - first.found.len()]);
                } else {
                    // p names a first-scan discovery, q a later one: the
                    // later one is fresh with respect to assigned + first.
                    let x = sc.found[q];
                    assert(rest.found[q - first.found.len()] == x);
                    assert(rest.found.contains(x));
                    assert(!(assigned + first.found).contains(x));
                    if sc.found[p] == x {
                        assert(first.found[p] == x);
                        assert((assigned + first.found)[assigned.len() + p] == x);
                    }
                }
            }
        }

        // Closure: every scanned frontier node's out-edges land in
        // assigned + found.
        assert forall|i: int, p: int|
            0 <= i < g.edges.len() && k <= p < row.len() && (#[trigger] g.edges[i]).from
                == (#[trigger] row[p]) implies (assigned + sc.found).contains(g.edges[i].to) by {
            let t = g.edges[i].to;
            if p == k {
                assert((assigned + first.found).contains(t));
                let w = choose|w: int|
                    0 <= w < (assigned + first.found).len() && (assigned + first.found)[w] == t;
                if w < assigned.len() {
                    assert((assigned + sc.found)[w] == t);
                } else {
                    assert(first.found[w - assigned.len()] == t);
                    assert(sc.found[w - assigned.len()] == t);
                    assert((assigned + sc.found)[assigned.len() + (w - assigned.len())] == t);
                }
            } else {
                assert(((assigned + first.found) + rest.found).contains(t));
                let w = choose|w: int|
                    0 <= w < ((assigned + first.found) + rest.found).len() && ((assigned
                        + first.found) + rest.found)[w] == t;
                if w < assigned.len() {
                    assert((assigned + sc.found)[w] == t);
                } else if w < assigned.len() + first.found.len() {
                    assert(sc.found[w - assigned.len()] == t);
                    assert((assigned + sc.found)[w] == t);
                } else {
                    assert(rest.found[w - assigned.len() - first.found.len()] == t);
                    assert(sc.found[first.found.len() + (w - assigned.len()
                        - first.found.len())] == t);
                    assert((assigned + sc.found)[w] == t);
                }
            }
        }

        // Every discovery is the target of an edge leaving a frontier node.
        assert forall|x: usize| #[trigger] sc.found.contains(x) implies exists|i: int, p: int|
            0 <= i < g.edges.len() && k <= p < row.len() && (#[trigger] g.edges[i]).from
                == (#[trigger] row[p]) && g.edges[i].to == x by {
            let w = choose|w: int| 0 <= w < sc.found.len() && sc.found[w] == x;
            if w < first.found.len() {
                assert(first.found[w] == x);
                assert(first.found.contains(x));
                let i = choose|i: int|
                    0 <= i < g.edges.len() && (#[trigger] g.edges[i]).from == row[k]
                        && g.edges[i].to == x;
                assert(0 <= i < g.edges.len() && k <= k < row.len() && g.edges[i].from == row[k]
                    && g.edges[i].to == x);
            } else {
                assert(rest.found[w - first.found.len()] == x);
                assert(rest.found.contains(x));
            }
        }
    }
}

/// Concatenating after a push is the same as concatenating a singleton.
proof fn lemma_push_concat<A>(a: Seq<A>, x: A, c: Seq<A>)
    ensures
        a.push(x) + c == a + (seq![x] + c),
{
    assert(a.push(x) + c =~= a + (seq![x] + c));
}

/// Sequence concatenation is associative.
proof fn lemma_concat_assoc<A>(a: Seq<A>, b: Seq<A>, c: Seq<A>)
    ensures
        (a + b) + c == a + (b + c),
{
    assert((a + b) + c =~= a + (b + c));
}

/// Two duplicate-free sequences with no common element concatenate to a
/// duplicate-free sequence.
proof fn lemma_no_dup_concat(a: Seq<usize>, b: Seq<usize>)
    requires
        a.no_duplicates(),
        b.no_duplicates(),
        forall|x: usize| #[trigger] b.contains(x) ==> !a.contains(x),
    ensures
        (a + b).no_duplicates(),
{
    assert forall|p: int, q: int| 0 <= p < q < (a + b).len() implies (a + b)[p] != (a + b)[q] by {
        if q >= a.len() {
            assert(b[q - a.len()] == (a + b)[q]);
            assert(b.contains((a + b)[q]));
            if p < a.len() {
                if (a + b)[p] == (a + b)[q] {
                    assert(a[p] == (a + b)[q]);
                    assert(a.contains((a + b)[q]));
                }
            }
        }
    }
}

/// A sequence of non-empty rows flattens to at least one id per row.
proof fn lemma_flatten_len_ge_count(rs: Seq<Seq<usize>>)
    requires
        forall|i: int| 0 <= i < rs.len() ==> (#[trigger] rs[i]).len() > 0,
    ensures
        rs.flatten().len() >= rs.len(),
    decreases rs.len(),
{
    if rs.len() == 0 {
    } else {
        lemma_flatten_len_ge_count(rs.drop_first());
    }
}

/// While any frontier remains, fewer rows have been formed than the graph
/// has nodes: the assigned ids are distinct ids of nodes, every finished
/// row holds at least one of them, and the frontier holds one more.
proof fn lemma_row_count_bound(
    g: GraphS,
    finished: Seq<Seq<usize>>,
    frontier: Seq<usize>,
    assigned: Seq<usize>,
)
    requires
        g.wf(),
        assigned.no_duplicates(),
        forall|x: usize| #[trigger] assigned.contains(x) ==> g.has_node(x),
        finished.flatten() + frontier == assigned,
        forall|i: int| 0 <= i < finished.len() ==> (#[trigger] finished[i]).len() > 0,
        frontier.len() > 0,
    ensures
        finished.len() < g.nodes.len(),
{
    broadcast use vstd::seq_lib::seq_to_set_is_finite;

    lemma_flatten_len_ge_count(finished);
    let ids = id_seq(g.nodes);
    assigned.unique_seq_to_set();
    ids.unique_seq_to_set();
    assert(assigned.to_set().subset_of(ids.to_set())) by {
        assert forall|x: usize| assigned.to_set().contains(x) implies ids.to_set().contains(
            x,
        ) by {
            assert(assigned.contains(x));
        }
    }
    vstd::set_lib::lemma_len_subset(assigned.to_set(), ids.to_set());
    assert(assigned.len() == finished.flatten().len() + frontier.len());
}

/// True when `v` holds `x`.
fn contains_val(v: &Vec<usize>, x: usize) -> (b: bool)
    ensures
        b == v@.contains(x),
{
    let mut i: usize = 0;
    while i < v.len()
        invariant
            0 <= i <= v.len(),
            forall|k: int| 0 <= k < i ==> v@[k] != x,
        decreases v.len() - i,
    {
        if v[i] == x {
            assert(v@[i as int] == x);
            return true;
        }
        i = i + 1;
    }
    false
}

/// Scans the outgoing edges of one frontier node, appending the recorded
/// edges to `out` and each newly discovered target to `assigned` and
/// `next`.
fn scan_node_exec(
    edges: &Vec<Edge>,
    Ghost(g): Ghost<GraphS>,
    u: usize,
    assigned: &mut Vec<usize>,
    next: &mut Vec<usize>,
    out: &mut Vec<EdgeRef>,
)
    requires
        edges_view(edges@) == g.edges,
    ensures
        ({
            let sc = scan_node(g, u, 0, old(assigned)@);
            &&& final(assigned)@ == old(assigned)@ + sc.found
            &&& final(next)@ == old(next)@ + sc.found
            &&& final(out)@ == old(out)@ + sc.emitted
        }),
{
    let ghost sc0 = scan_node(g, u, 0, old(assigned)@);
    let mut j: usize = 0;
    while j < edges.len()
        invariant
            edges_view(edges@) == g.edges,
            0 <= j <= edges.len(),
            sc0 == scan_node(g, u, 0, old(assigned)@),
            ({
                let fut = scan_node(g, u, j as int, assigned@);
                &&& assigned@ + fut.found == old(assigned)@ + sc0.found
                &&& next@ + fut.found == old(next)@ + sc0.found
                &&& out@ + fut.emitted == old(out)@ + sc0.emitted
            }),
        decreases edges.len() - j,
    {
        let ghost a_pre = assigned@;
        let ghost next_pre = next@;
        let ghost out_pre = out@;
        let ghost fut = scan_node(g, u, j as int, a_pre);
        let ghost e = g.edges[j as int];
        proof {
            assert(e == edges@[j as int]@);
        }
        if edges[j].from == u {
            let er = EdgeRef { from: edges[j].from, to: edges[j].to };
            out.push(er);
            let to = edges[j].to;
            if !contains_val(assigned, to) {
                assigned.push(to);
                next.push(to);
                proof {
                    let fut2 = scan_node(g, u, j as int + 1, a_pre.push(e.to));
                    assert(fut.emitted == seq![er] + fut2.emitted);
                    assert(fut.found == seq![e.to] + fut2.found);
                    lemma_push_concat(out_pre, er, fut2.emitted);
                    lemma_concat_assoc(out_pre, fut.emitted, Seq::empty());
                    assert(out@ + fut2.emitted == out_pre + fut.emitted);
                    lemma_push_concat(a_pre, to, fut2.found);
                    assert(assigned@ + fut2.found == a_pre + fut.found);
                    lemma_push_concat(next_pre, to, fut2.found);
                    assert(next@ + fut2.found == next_pre + fut.found);
                }
            } else {
                proof {
                    let fut2 = scan_node(g, u, j as int + 1, a_pre);
                    assert(fut.emitted == seq![er] + fut2.emitted);
                    assert(fut.found == fut2.found);
                    lemma_push_concat(out_pre, er, fut2.emitted);
                    assert(out@ + fut2.emitted == out_pre + fut.emitted);
                }
            }
        } else {
            proof {
                assert(fut == scan_node(g, u, j as int + 1, a_pre));
            }
        }
        j = j + 1;
    }
    proof {
        let fut = scan_node(g, u, edges@.len() as int, assigned@);
        assert(fut.found == Seq::<usize>::empty());
        assert(fut.emitted == Seq::<EdgeRef>::empty());
        assert(assigned@ + fut.found =~= assigned@);
        assert(next@ + fut.found =~= next@);
        assert(out@ + fut.emitted =~= out@);
    }
}

/// Scans one whole frontier: records each frontier node's outgoing edges
/// in order and returns the newly discovered ids, which form the next
/// frontier.
fn scan_row_exec(
    edges: &Vec<Edge>,
    Ghost(g): Ghost<GraphS>,
    row: &Vec<usize>,
    assigned: &mut Vec<usize>,
    out: &mut Vec<EdgeRef>,
) -> (next: Vec<usize>)
    requires
        edges_view(edges@) == g.edges,
    ensures
        ({
            let sc = scan_row(g, row@, 0, old(assigned)@);
            &&& final(assigned)@ == old(assigned)@ + sc.found
            &&& next@ == sc.found
            &&& final(out)@ == old(out)@ + sc.emitted
        }),
{
    let ghost sc0 = scan_row(g, row@, 0, old(assigned)@);
    let mut next: Vec<usize> = Vec::new();
    let mut k: usize = 0;
    while k < row.len()
        invariant
            edges_view(edges@) == g.edges,
            0 <= k <= row.len(),
            sc0 == scan_row(g, row@, 0, old(assigned)@),
            ({
                let fut = scan_row(g, row@, k as int, assigned@);
                &&& assigned@ + fut.found == old(assigned)@ + sc0.found
                &&& next@ + fut.found == sc0.found
                &&& out@ + fut.emitted == old(out)@ + sc0.emitted
            }),
        decreases row.len() - k,
    {
        let ghost a_pre = assigned@;
        let ghost next_pre = next@;
        let ghost out_pre = out@;
        let ghost fut = scan_row(g, row@, k as int, a_pre);
        let u = row[k];
        scan_node_exec(edges, Ghost(g), u, assigned, &mut next, out);
        proof {
            let first = scan_node(g, row@[k as int], 0, a_pre);
            let rest = scan_row(g, row@, k as int + 1, a_pre + first.found);
            assert(fut.emitted == first.emitted + rest.emitted);
            assert(fut.found == first.found + rest.found);
            lemma_concat_assoc(a_pre, first.found, rest.found);
            lemma_concat_assoc(next_pre, first.found, rest.found);
            lemma_concat_assoc(out_pre, first.emitted, rest.emitted);
        }
        k = k + 1;
    }
    proof {
        let fut = scan_row(g, row@, row@.len() as int, assigned@);
        assert(fut.found == Seq::<usize>::empty());
        assert(fut.emitted == Seq::<EdgeRef>::empty());
        assert(assigned@ + fut.found =~= assigned@);
        assert(next@ + fut.found =~= next@);
        assert(out@ + fut.emitted =~= out@);
    }
    next
}

/// Computes the breadth-first layering of `g`: every node reachable from
/// the entry lands in the row of its discovery depth, in first-discovery
/// order, and the edge list of the reachable subgraph is collected in
/// traversal order. Zero nodes give zero rows and zero edges.
pub fn layer(g: &GraphModel) -> (r: Layering)
    requires
        g@.wf(),
    ensures
        r@ == spec_layering(g@),
{
    broadcast use vstd::seq_lib::lemma_seq_concat_contains_all_elements;

    let nodes = g.nodes();
    let edges = g.edges();
    if nodes.len() == 0 {
        let r = Layering { rows: Vec::new(), edges: Vec::new() };
        proof {
            assert(rows_view(r.rows@) =~= Seq::<Seq<usize>>::empty());
            assert(r@ =~~= spec_layering(g@));
        }
        return r;
    }
    let entry = g.entry();
    let mut frontier: Vec<usize> = Vec::new();
    frontier.push(entry);
    let mut assigned: Vec<usize> = Vec::new();
    assigned.push(entry);
    let mut rows: Vec<Vec<usize>> = Vec::new();
    let mut out: Vec<EdgeRef> = Vec::new();
    let ghost target = spec_layering(g@);
    let ghost n = g@.nodes.len() as nat;
    proof {
        assert(frontier@ =~= seq![g@.entry]);
        assert(assigned@ =~= seq![g@.entry]);
        assert(g@.has_node(g@.entry));
        assert(rows_view(rows@) =~= Seq::<Seq<usize>>::empty());
        assert(rows_view(rows@).flatten() + frontier@ =~= assigned@);
        let fut = bfs_rows(g@, frontier@, assigned@, n);
        assert(fut == target);
        assert(rows_view(rows@) + fut.rows =~= target.rows);
        assert(out@ + fut.edges =~= target.edges);
    }
    while frontier.len() > 0
        invariant
            g@.wf(),
            edges_view(edges@) == g@.edges,
            n == g@.nodes.len(),
            rows@.len() <= n,
            assigned@.no_duplicates(),
            forall|x: usize| #[trigger] assigned@.contains(x) ==> g@.has_node(x),
            rows_view(rows@).flatten() + frontier@ == assigned@,
            forall|i: int| 0 <= i < rows@.len() ==> (#[trigger] rows_view(rows@)[i]).len() > 0,
            ({
                let fut = bfs_rows(g@, frontier@, assigned@, (n - rows@.len()) as nat);
                &&& rows_view(rows@) + fut.rows == target.rows
                &&& out@ + fut.edges == target.edges
            }),
        decreases n - rows@.len(),
    {
        let ghost a_pre = assigned@;
        let ghost out_pre = out@;
        let ghost rows_pre = rows@;
        let ghost front_pre = frontier@;
        proof {
            lemma_row_count_bound(g@, rows_view(rows_pre), front_pre, a_pre);
        }
        let next = scan_row_exec(edges, Ghost(g@), &frontier, &mut assigned, &mut out);
        rows.push(frontier);
        frontier = next;
        proof {
            let sc = scan_row(g@, front_pre, 0, a_pre);
            lemma_scan_row_props(g@, front_pre, 0, a_pre);
            lemma_no_dup_concat(a_pre, sc.found);
            assert forall|x: usize| #[trigger] assigned@.contains(x) implies g@.has_node(x) by {
                let w = choose|w: int| 0 <= w < assigned@.len() && assigned@[w] == x;
                if w < a_pre.len() {
                    assert(a_pre[w] == x);
                    assert(a_pre.contains(x));
                } else {
                    assert(sc.found[w - a_pre.len()] == x);
                    assert(sc.found.contains(x));
                }
            }
            // The finished rows gain the scanned frontier.
            assert(rows_view(rows@) =~= rows_view(rows_pre).push(front_pre));
            Seq::lemma_flatten_push(rows_view(rows_pre), front_pre);
            assert(rows_view(rows@).flatten() == rows_view(rows_pre).flatten() + front_pre);
            lemma_concat_assoc(rows_view(rows_pre).flatten(), front_pre, sc.found);
            assert(rows_view(rows@).flatten() + frontier@ == assigned@);
            // The layering invariant steps by one unfolding.
            let fuel = (n - rows_pre.len()) as nat;
            let fut = bfs_rows(g@, front_pre, a_pre, fuel);
            assert(fut.rows == seq![front_pre] + bfs_rows(
                g@,
                sc.found,
                a_pre + sc.found,
                (fuel - 1) as nat,
            ).rows);
            let fut2 = bfs_rows(g@, frontier@, assigned@, (n - rows@.len()) as nat);
            assert(fut2 == bfs_rows(g@, sc.found, a_pre + sc.found, (fuel - 1) as nat));
            lemma_push_concat(rows_view(rows_pre), front_pre, fut2.rows);
            assert(rows_view(rows@) + fut2.rows == rows_view(rows_pre) + fut.rows);
            lemma_concat_assoc(out_pre, sc.emitted, fut2.edges);
            assert(out@ + fut2.edges == out_pre + fut.edges);
        }
    }
    let r = Layering { rows, edges: out };
    proof {
        let fut = bfs_rows(g@, frontier@, assigned@, (n - rows@.len()) as nat);
        assert(fut.rows == Seq::<Seq<usize>>::empty());
        assert(fut.edges == Seq::<EdgeRef>::empty());
        assert(rows_view(rows@) + fut.rows =~= rows_view(rows@));
        assert(out@ + fut.edges =~= out@);
        assert(r@ =~~= target);
    }
    r
}


/// Membership in a concatenation is membership in either part.
broadcast proof fn lemma_concat_contains<A>(a: Seq<A>, b: Seq<A>, x: A)
    ensures
        #[trigger] (a + b).contains(x) <==> a.contains(x) || b.contains(x),
{
    if (a + b).contains(x) {
        let w = choose|w: int| 0 <= w < (a + b).len() && (a + b)[w] == x;
        if w < a.len() {
            assert(a[w] == x);
        } else {
            assert(b[w - a.len()] == x);
        }
    }
    if a.contains(x) {
        let w = choose|w: int| 0 <= w < a.len() && a[w] == x;
        assert((a + b)[w] == x);
    }
    if b.contains(x) {
        let w = choose|w: int| 0 <= w < b.len() && b[w] == x;
        assert((a + b)[a.len() + w] == x);
    }
}

/// Distinct ids of nodes of `g` are no more numerous than its nodes.
proof fn lemma_assigned_card(g: GraphS, assigned: Seq<usize>)
    requires
        g.wf(),
        assigned.no_duplicates(),
        forall|x: usize| #[trigger] assigned.contains(x) ==> g.has_node(x),
    ensures
        assigned.len() <= g.nodes.len(),
{
    broadcast use vstd::seq_lib::seq_to_set_is_finite;

    let ids = id_seq(g.nodes);
    assigned.unique_seq_to_set();
    ids.unique_seq_to_set();
    assert(assigned.to_set().subset_of(ids.to_set())) by {
        assert forall|x: usize| assigned.to_set().contains(x) implies ids.to_set().contains(
            x,
        ) by {
            assert(assigned.contains(x));
        }
    }
    vstd::set_lib::lemma_len_subset(assigned.to_set(), ids.to_set());
}

/// `x` can be reached from the entry along at most `k` edges.
pub open spec fn reach_within(g: GraphS, x: usize, k: nat) -> bool
    decreases k,
{
    if x == g.entry {
        true
    } else if k == 0 {
        false
    } else {
        exists|i: int|
            0 <= i < g.edges.len() && (#[trigger] g.edges[i]).to == x && reach_within(
                g,
                g.edges[i].from,
                (k - 1) as nat,
            )
    }
}

/// `x` can be reached from the entry node along the graph's edges.
pub open spec fn reachable(g: GraphS, x: usize) -> bool {
    exists|k: nat| reach_within(g, x, k)
}

/// An edge's target is reachable whenever its source is.
pub proof fn lemma_reachable_step(g: GraphS, i: int)
    requires
        0 <= i < g.edges.len(),
        reachable(g, g.edges[i].from),
    ensures
        reachable(g, g.edges[i].to),
{
    let k = choose|k: nat| reach_within(g, g.edges[i].from, k);
    assert(reach_within(g, g.edges[i].to, k + 1));
}

/// With enough fuel, the rows of the breadth-first recursion flatten to a
/// duplicate-free sequence of node ids that contains the frontier, adds
/// only never-before-assigned ids, and is closed under outgoing edges up
/// to the previously assigned ids.
proof fn lemma_bfs_props(g: GraphS, frontier: Seq<usize>, assigned: Seq<usize>, fuel: nat)
    requires
        g.wf(),
        assigned.no_duplicates(),
        frontier.no_duplicates(),
        forall|x: usize| #[trigger] frontier.contains(x) ==> assigned.contains(x),
        forall|x: usize| #[trigger] assigned.contains(x) ==> g.has_node(x),
        fuel + assigned.len() > g.nodes.len(),
    ensures
        ({
            let fl = bfs_rows(g, frontier, assigned, fuel).rows.flatten();
            &&& fl.no_duplicates()
            &&& forall|x: usize|
                #[trigger] fl.contains(x) ==> frontier.contains(x) || !assigned.contains(x)
            &&& forall|x: usize| #[trigger] fl.contains(x) ==> g.has_node(x)
            &&& forall|x: usize| #[trigger] frontier.contains(x) ==> fl.contains(x)
            &&& forall|i: int|
                0 <= i < g.edges.len() && fl.contains((#[trigger] g.edges[i]).from)
                    ==> assigned.contains(g.edges[i].to) || fl.contains(g.edges[i].to)
        }),
    decreases fuel,
{
    broadcast use lemma_concat_contains;

    if frontier.len() == 0 || fuel == 0 {
        if frontier.len() > 0 {
            lemma_assigned_card(g, assigned);
            assert(false);
        }
        assert(bfs_rows(g, frontier, assigned, fuel).rows.flatten() =~= Seq::<usize>::empty());
    } else {
        let sc = scan_row(g, frontier, 0, assigned);
        lemma_scan_row_props(g, frontier, 0, assigned);
        let rest = bfs_rows(g, sc.found, assigned + sc.found, (fuel - 1) as nat);
        let rows = bfs_rows(g, frontier, assigned, fuel).rows;
        assert(rows == seq![frontier] + rest.rows);
        let fl = rows.flatten();
        let flr = rest.rows.flatten();
        assert(fl == frontier + flr) by {
            assert(rows.len() > 0);
            assert(rows.first() == frontier);
            assert(rows.drop_first() =~= rest.rows);
            assert(rows.flatten() == rows.first() + rows.drop_first().flatten());
        }

        if sc.found.len() == 0 {
            assert(rest.rows == Seq::<Seq<usize>>::empty());
            assert(flr =~= Seq::<usize>::empty());
            assert(fl =~= frontier);
            assert forall|i: int|
                0 <= i < g.edges.len() && fl.contains(
                    (#[trigger] g.edges[i]).from,
                ) implies assigned.contains(g.edges[i].to) || fl.contains(g.edges[i].to) by {
                let p = choose|p: int| 0 <= p < frontier.len() && frontier[p] == g.edges[i].from;
                assert((assigned + sc.found).contains(g.edges[i].to));
            }
        } else {
            lemma_no_dup_concat(assigned, sc.found);
            lemma_bfs_props(g, sc.found, assigned + sc.found, (fuel - 1) as nat);

            // The deeper rows are disjoint from this frontier.
            assert forall|x: usize| #[trigger] flr.contains(x) implies !frontier.contains(x) by {
                if frontier.contains(x) {
                    assert(assigned.contains(x));
                    assert((assigned + sc.found).contains(x));
                    assert(!sc.found.contains(x));
                }
            }
            lemma_no_dup_concat(frontier, flr);

            // Closure under outgoing edges.
            assert forall|i: int|
                0 <= i < g.edges.len() && fl.contains(
                    (#[trigger] g.edges[i]).from,
                ) implies assigned.contains(g.edges[i].to) || fl.contains(g.edges[i].to) by {
                let t = g.edges[i].to;
                if frontier.contains(g.edges[i].from) {
                    let p = choose|p: int|
                        0 <= p < frontier.len() && frontier[p] == g.edges[i].from;
                    assert((assigned + sc.found).contains(t));
                    if sc.found.contains(t) {
                        assert(flr.contains(t));
                    }
                } else {
                    assert(flr.contains(g.edges[i].from));
                    if (assigned + sc.found).contains(t) {
                        if sc.found.contains(t) {
                            assert(flr.contains(t));
                        }
                    } else {
                        assert(flr.contains(t));
                    }
                }
            }
        }
    }
}

/// Every id the breadth-first recursion places in a row is reachable,
/// provided every already-assigned id is.
proof fn lemma_bfs_sound(g: GraphS, frontier: Seq<usize>, assigned: Seq<usize>, fuel: nat)
    requires
        g.wf(),
        forall|x: usize| #[trigger] frontier.contains(x) ==> assigned.contains(x),
        forall|x: usize| #[trigger] assigned.contains(x) ==> reachable(g, x),
    ensures
        forall|x: usize|
            #[trigger] bfs_rows(g, frontier, assigned, fuel).rows.flatten().contains(x)
                ==> reachable(g, x),
    decreases fuel,
{
    broadcast use lemma_concat_contains;

    if frontier.len() == 0 || fuel == 0 {
        assert(bfs_rows(g, frontier, assigned, fuel).rows.flatten() =~= Seq::<usize>::empty());
    } else {
        let sc = scan_row(g, frontier, 0, assigned);
        lemma_scan_row_props(g, frontier, 0, assigned);
        assert forall|x: usize| #[trigger] sc.found.contains(x) implies reachable(g, x) by {
            let (i, p): (int, int) = choose|i: int, p: int|
                0 <= i < g.edges.len() && 0 <= p < frontier.len() && (#[trigger] g.edges[i]).from
                    == (#[trigger] frontier[p]) && g.edges[i].to == x;
            assert(frontier.contains(frontier[p]));
            lemma_reachable_step(g, i);
        }
        lemma_bfs_sound(g, sc.found, assigned + sc.found, (fuel - 1) as nat);
        let rest = bfs_rows(g, sc.found, assigned + sc.found, (fuel - 1) as nat);
        let rows = bfs_rows(g, frontier, assigned, fuel).rows;
        assert(rows == seq![frontier] + rest.rows);
        assert(rows.flatten() == frontier + rest.rows.flatten()) by {
            assert(rows.first() == frontier);
            assert(rows.drop_first() =~= rest.rows);
            assert(rows.flatten() == rows.first() + rows.drop_first().flatten());
        }
    }
}

/// Whatever is reachable within `k` steps lands in a row of the layering.
proof fn lemma_reach_within_in_rows(g: GraphS, x: usize, k: nat)
    requires
        g.wf(),
        g.nodes.len() > 0,
        reach_within(g, x, k),
    ensures
        spec_layering(g).rows.flatten().contains(x),
    decreases k,
{
    lemma_bfs_props(g, seq![g.entry], seq![g.entry], g.nodes.len() as nat);
    let fl = spec_layering(g).rows.flatten();
    if x == g.entry {
        assert(seq![g.entry].contains(g.entry));
    } else {
        let i = choose|i: int|
            0 <= i < g.edges.len() && (#[trigger] g.edges[i]).to == x && reach_within(
                g,
                g.edges[i].from,
                (k - 1) as nat,
            );
        lemma_reach_within_in_rows(g, g.edges[i].from, (k - 1) as nat);
        assert(fl.contains(g.edges[i].from));
        if seq![g.entry].contains(x) {
            assert(x == g.entry);
        }
    }
}

/// Every node reachable from the entry appears in exactly one row and at
/// one position, and unreachable nodes appear in none: the rows flatten to
/// a duplicate-free sequence whose members are exactly the reachable node
/// ids. An empty graph has no rows at all.
pub proof fn lemma_rows_partition_reachable(g: GraphS)
    requires
        g.wf(),
    ensures
        spec_layering(g).rows.flatten().no_duplicates(),
        forall|x: usize|
            #[trigger] spec_layering(g).rows.flatten().contains(x) <==> (g.nodes.len() > 0
                && reachable(g, x)),
        forall|x: usize| #[trigger] spec_layering(g).rows.flatten().contains(x) ==> g.has_node(x),
{
    let fl = spec_layering(g).rows.flatten();
    if g.nodes.len() == 0 {
        assert(fl =~= Seq::<usize>::empty());
    } else {
        lemma_bfs_props(g, seq![g.entry], seq![g.entry], g.nodes.len() as nat);
        assert(reach_within(g, g.entry, 0));
        assert forall|x: usize| #[trigger] seq![g.entry].contains(x) implies reachable(g, x) by {
            assert(x == g.entry);
        }
        lemma_bfs_sound(g, seq![g.entry], seq![g.entry], g.nodes.len() as nat);
        assert forall|x: usize| g.nodes.len() > 0 && reachable(g, x) implies fl.contains(x) by {
            let k = choose|k: nat| reach_within(g, x, k);
            lemma_reach_within_in_rows(g, x, k);
        }
    }
}

/// How many edges of `es` leave node `u`.
pub open spec fn count_from(es: Seq<EdgeS>, u: usize) -> int
    decreases es.len(),
{
    if es.len() == 0 {
        0
    } else {
        (if es[0].from == u {
            1int
        } else {
            0int
        }) + count_from(es.drop_first(), u)
    }
}

/// How many edges of `es` leave any node of `srcs`.
pub open spec fn count_edges_from(es: Seq<EdgeS>, srcs: Seq<usize>) -> int
    decreases es.len(),
{
    if es.len() == 0 {
        0
    } else {
        (if srcs.contains(es[0].from) {
            1int
        } else {
            0int
        }) + count_edges_from(es.drop_first(), srcs)
    }
}

/// The sum, over the ids in `ids`, of how many edges of `es` leave each.
pub open spec fn sum_out(es: Seq<EdgeS>, ids: Seq<usize>) -> int
    decreases ids.len(),
{
    if ids.len() == 0 {
        0
    } else {
        count_from(es, ids[0]) + sum_out(es, ids.drop_first())
    }
}

/// How many ids of `ids` equal `c`.
spec fn indicator_count(c: usize, ids: Seq<usize>) -> int
    decreases ids.len(),
{
    if ids.len() == 0 {
        0
    } else {
        (if ids[0] == c {
            1int
        } else {
            0int
        }) + indicator_count(c, ids.drop_first())
    }
}

/// A node scan emits one edge for each remaining edge leaving `u`,
/// whatever has been assigned.
proof fn lemma_scan_node_count(g: GraphS, u: usize, j: int, assigned: Seq<usize>)
    requires
        0 <= j <= g.edges.len(),
    ensures
        scan_node(g, u, j, assigned).emitted.len() == count_from(g.edges.skip(j), u),
    decreases g.edges.len() - j,
{
    if j >= g.edges.len() {
        assert(g.edges.skip(j) =~= Seq::<EdgeS>::empty());
    } else {
        let e = g.edges[j];
        assert(g.edges.skip(j)[0] == e);
        assert(g.edges.skip(j).drop_first() =~= g.edges.skip(j + 1));
        if e.from == u {
            if assigned.contains(e.to) {
                lemma_scan_node_count(g, u, j + 1, assigned);
            } else {
                lemma_scan_node_count(g, u, j + 1, assigned.push(e.to));
            }
        } else {
            lemma_scan_node_count(g, u, j + 1, assigned);
        }
    }
}

/// A frontier scan emits, in total, one edge per out-edge of each frontier
/// node from position `k` on.
proof fn lemma_scan_row_count(g: GraphS, row: Seq<usize>, k: int, assigned: Seq<usize>)
    requires
        0 <= k <= row.len(),
    ensures
        scan_row(g, row, k, assigned).emitted.len() == sum_out(g.edges, row.skip(k)),
    decreases row.len() - k,
{
    if k >= row.len() {
        assert(row.skip(k) =~= Seq::<usize>::empty());
    } else {
        let first = scan_node(g, row[k], 0, assigned);
        lemma_scan_node_count(g, row[k], 0, assigned);
        assert(g.edges.skip(0) =~= g.edges);
        lemma_scan_row_count(g, row, k + 1, assigned + first.found);
        assert(row.skip(k)[0] == row[k]);
        assert(row.skip(k).drop_first() =~= row.skip(k + 1));
    }
}

/// `sum_out` distributes over concatenation of the id sequence.
proof fn lemma_sum_out_concat(es: Seq<EdgeS>, a: Seq<usize>, b: Seq<usize>)
    ensures
        sum_out(es, a + b) == sum_out(es, a) + sum_out(es, b),
    decreases a.len(),
{
    if a.len() == 0 {
        assert(a + b =~= b);
    } else {
        assert((a + b)[0] == a[0]);
        assert((a + b).drop_first() =~= a.drop_first() + b);
        lemma_sum_out_concat(es, a.drop_first(), b);
    }
}

/// With enough fuel, the recursion emits one edge per out-edge of each id
/// it places in a row.
proof fn lemma_bfs_count(g: GraphS, frontier: Seq<usize>, assigned: Seq<usize>, fuel: nat)
    requires
        g.wf(),
        assigned.no_duplicates(),
        frontier.no_duplicates(),
        forall|x: usize| #[trigger] frontier.contains(x) ==> assigned.contains(x),
        forall|x: usize| #[trigger] assigned.contains(x) ==> g.has_node(x),
        fuel + assigned.len() > g.nodes.len(),
    ensures
        ({
            let lay = bfs_rows(g, frontier, assigned, fuel);
            lay.edges.len() == sum_out(g.edges, lay.rows.flatten())
        }),
    decreases fuel,
{
    broadcast use lemma_concat_contains;

    if frontier.len() == 0 || fuel == 0 {
        if frontier.len() > 0 {
            lemma_assigned_card(g, assigned);
            assert(false);
        }
        assert(bfs_rows(g, frontier, assigned, fuel).rows.flatten() =~= Seq::<usize>::empty());
    } else {
        let sc = scan_row(g, frontier, 0, assigned);
        lemma_scan_row_props(g, frontier, 0, assigned);
        lemma_scan_row_count(g, frontier, 0, assigned);
        assert(frontier.skip(0) =~= frontier);
        let rest = bfs_rows(g, sc.found, assigned + sc.found, (fuel - 1) as nat);
        let rows = bfs_rows(g, frontier, assigned, fuel).rows;
        assert(rows == seq![frontier] + rest.rows);
        let flr = rest.rows.flatten();
        assert(rows.flatten() == frontier + flr) by {
            assert(rows.first() == frontier);
            assert(rows.drop_first() =~= rest.rows);
            assert(rows.flatten() == rows.first() + rows.drop_first().flatten());
        }
        if sc.found.len() == 0 {
            assert(rest.rows == Seq::<Seq<usize>>::empty());
            assert(flr =~= Seq::<usize>::empty());
            assert(rest.edges == Seq::<EdgeRef>::empty());
            lemma_sum_out_concat(g.edges, frontier, flr);
        } else {
            lemma_no_dup_concat(assigned, sc.found);
            lemma_bfs_count(g, sc.found, assigned + sc.found, (fuel - 1) as nat);
            lemma_sum_out_concat(g.edges, frontier, flr);
        }
    }
}

/// Ids absent from `ids` are never counted.
proof fn lemma_indicator_absent(c: usize, ids: Seq<usize>)
    requires
        !ids.contains(c),
    ensures
        indicator_count(c, ids) == 0,
    decreases ids.len(),
{
    if ids.len() == 0 {
    } else {
        assert(ids[0] != c);
        assert forall|x: usize| #[trigger] ids.drop_first().contains(x) implies ids.contains(
            x,
        ) by {
            let w = choose|w: int| 0 <= w < ids.drop_first().len() && ids.drop_first()[w] == x;
            assert(ids[w + 1] == x);
        }
        lemma_indicator_absent(c, ids.drop_first());
    }
}

/// A duplicate-free id sequence counts any id at most once.
proof fn lemma_indicator_distinct(c: usize, ids: Seq<usize>)
    requires
        ids.no_duplicates(),
    ensures
        indicator_count(c, ids) == if ids.contains(c) {
            1int
        } else {
            0int
        },
    decreases ids.len(),
{
    if ids.len() == 0 {
    } else {
        let rest = ids.drop_first();
        assert(forall|w: int| 0 <= w < rest.len() ==> rest[w] == ids[w + 1]);
        if ids[0] == c {
            assert(!rest.contains(c)) by {
                if rest.contains(c) {
                    let w = choose|w: int| 0 <= w < rest.len() && rest[w] == c;
                    assert(ids[w + 1] == ids[0]);
                }
            }
            lemma_indicator_absent(c, rest);
        } else {
            lemma_indicator_distinct(c, rest);
            if ids.contains(c) {
                let w = choose|w: int| 0 <= w < ids.len() && ids[w] == c;
                assert(rest[w - 1] == c);
                assert(rest.contains(c));
            }
            if rest.contains(c) {
                assert(ids.contains(c));
            }
        }
    }
}

/// Summing per-node out-degrees over the distinct ids of `ids` counts each
/// edge with a source in `ids` exactly once.
proof fn lemma_sum_partition(es: Seq<EdgeS>, ids: Seq<usize>)
    requires
        ids.no_duplicates(),
    ensures
        sum_out(es, ids) == count_edges_from(es, ids),
    decreases es.len(), ids.len(),
{
    if es.len() == 0 {
        assert(es =~= Seq::<EdgeS>::empty());
        assert(sum_out(es, ids) == 0) by {
            lemma_sum_out_empty_edges(ids);
        }
    } else {
        let e0 = es[0];
        let est = es.drop_first();
        lemma_sum_out_step(es, ids);
        lemma_indicator_distinct(e0.from, ids);
        lemma_sum_partition(est, ids);
    }
}

/// With no edges at all, every out-degree sum is zero.
proof fn lemma_sum_out_empty_edges(ids: Seq<usize>)
    ensures
        sum_out(Seq::<EdgeS>::empty(), ids) == 0,
    decreases ids.len(),
{
    if ids.len() == 0 {
    } else {
        lemma_sum_out_empty_edges(ids.drop_first());
    }
}

/// Splitting off the first edge splits the out-degree sum into that edge's
/// contribution and the rest.
proof fn lemma_sum_out_step(es: Seq<EdgeS>, ids: Seq<usize>)
    requires
        es.len() > 0,
    ensures
        sum_out(es, ids) == indicator_count(es[0].from, ids) + sum_out(es.drop_first(), ids),
    decreases ids.len(),
{
    if ids.len() == 0 {
    } else {
        lemma_sum_out_step(es, ids.drop_first());
    }
}

/// The layering emits exactly the edges of the input graph whose source
/// node stands in a row, one record each: none is duplicated, none is
/// dropped. With `lemma_rows_partition_reachable`, the sources standing in
/// rows are exactly the reachable nodes.
pub proof fn lemma_edge_count(g: GraphS)
    requires
        g.wf(),
    ensures
        spec_layering(g).edges.len() == count_edges_from(
            g.edges,
            spec_layering(g).rows.flatten(),
        ),
{
    if g.nodes.len() == 0 {
        assert(g.edges.len() == 0) by {
            if g.edges.len() > 0 {
                assert(g.has_node(g.edges[0].from));
            }
        }
        assert(g.edges =~= Seq::<EdgeS>::empty());
    } else {
        assert(reach_within(g, g.entry, 0));
        lemma_bfs_count(g, seq![g.entry], seq![g.entry], g.nodes.len() as nat);
        lemma_rows_partition_reachable(g);
        lemma_sum_partition(g.edges, spec_layering(g).rows.flatten());
    }
}

/// Every edge a node scan emits leaves `u`, and its target is assigned or
/// discovered by the scan's end.
proof fn lemma_scan_node_emitted(g: GraphS, u: usize, j: int, assigned: Seq<usize>)
    requires
        0 <= j <= g.edges.len(),
    ensures
        ({
            let sc = scan_node(g, u, j, assigned);
            forall|x: EdgeRef|
                #[trigger] sc.emitted.contains(x) ==> x.from == u && (assigned
                    + sc.found).contains(x.to)
        }),
    decreases g.edges.len() - j,
{
    broadcast use lemma_concat_contains;

    if j >= g.edges.len() {
        let sc = scan_node(g, u, j, assigned);
        assert(sc.emitted == Seq::<EdgeRef>::empty());
    } else {
        let e = g.edges[j];
        let sc = scan_node(g, u, j, assigned);
        if e.from == u {
            let er = EdgeRef { from: e.from, to: e.to };
            if assigned.contains(e.to) {
                lemma_scan_node_emitted(g, u, j + 1, assigned);
                let rest = scan_node(g, u, j + 1, assigned);
                assert forall|x: EdgeRef| #[trigger] sc.emitted.contains(x) implies x.from == u
                    && (assigned + sc.found).contains(x.to) by {
                    if x == er {
                        assert(assigned.contains(er.to));
                        assert((assigned + sc.found).contains(er.to));
                    } else {
                        assert((seq![er] + rest.emitted).contains(x));
                        assert(rest.emitted.contains(x));
                    }
                }
            } else {
                lemma_scan_node_emitted(g, u, j + 1, assigned.push(e.to));
                let rest = scan_node(g, u, j + 1, assigned.push(e.to));
                assert(assigned.push(e.to) + rest.found =~= assigned + (seq![e.to] + rest.found));
                assert forall|x: EdgeRef| #[trigger] sc.emitted.contains(x) implies x.from == u
                    && (assigned + sc.found).contains(x.to) by {
                    if x == er {
                        assert(sc.found[0] == e.to);
                        assert(sc.found.contains(e.to));
                    } else {
                        assert((seq![er] + rest.emitted).contains(x));
                        assert(rest.emitted.contains(x));
                        assert((assigned.push(e.to) + rest.found).contains(x.to));
                    }
                }
            }
        } else {
            lemma_scan_node_emitted(g, u, j + 1, assigned);
            let rest = scan_node(g, u, j + 1, assigned);
            assert(sc == rest);
        }
    }
}

/// Every edge a frontier scan emits leaves a frontier node at or after
/// position `k`, and its target is assigned or discovered by the scan's
/// end.
proof fn lemma_scan_row_emitted(g: GraphS, row: Seq<usize>, k: int, assigned: Seq<usize>)
    requires
        0 <= k <= row.len(),
    ensures
        ({
            let sc = scan_row(g, row, k, assigned);
            forall|x: EdgeRef|
                #[trigger] sc.emitted.contains(x) ==> row.contains(x.from) && (assigned
                    + sc.found).contains(x.to)
        }),
    decreases row.len() - k,
{
    broadcast use lemma_concat_contains;

    if k >= row.len() {
    } else {
        let first = scan_node(g, row[k], 0, assigned);
        let rest = scan_row(g, row, k + 1, assigned + first.found);
        let sc = scan_row(g, row, k, assigned);
        lemma_scan_node_emitted(g, row[k], 0, assigned);
        lemma_scan_row_emitted(g, row, k + 1, assigned + first.found);
        assert((assigned + first.found) + rest.found =~= assigned + (first.found + rest.found));
        assert forall|x: EdgeRef| #[trigger] sc.emitted.contains(x) implies row.contains(x.from)
            && (assigned + sc.found).contains(x.to) by {
            assert((first.emitted + rest.emitted).contains(x));
            if first.emitted.contains(x) {
                assert(row.contains(row[k]));
                assert((assigned + first.found).contains(x.to));
                assert(((assigned + first.found) + rest.found).contains(x.to));
            } else {
                assert(rest.emitted.contains(x));
            }
        }
    }
}

/// Every row of the recursion is non-empty: each is a frontier that was
/// scanned only because it held at least one id.
proof fn lemma_bfs_rows_nonempty(g: GraphS, frontier: Seq<usize>, assigned: Seq<usize>, fuel: nat)
    ensures
        ({
            let rows = bfs_rows(g, frontier, assigned, fuel).rows;
            forall|i: int| 0 <= i < rows.len() ==> (#[trigger] rows[i]).len() > 0
        }),
    decreases fuel,
{
    if frontier.len() == 0 || fuel == 0 {
    } else {
        let sc = scan_row(g, frontier, 0, assigned);
        lemma_bfs_rows_nonempty(g, sc.found, assigned + sc.found, (fuel - 1) as nat);
        let rest = bfs_rows(g, sc.found, assigned + sc.found, (fuel - 1) as nat);
        let rows = bfs_rows(g, frontier, assigned, fuel).rows;
        assert(rows == seq![frontier] + rest.rows);
        assert forall|i: int| 0 <= i < rows.len() implies (#[trigger] rows[i]).len() > 0 by {
            if i > 0 {
                assert(rows[i] == rest.rows[i - 1]);
            }
        }
    }
}

/// With enough fuel, every emitted edge's source stands in a row, and its
/// target is previously assigned or stands in a row too.
proof fn lemma_bfs_endpoints(g: GraphS, frontier: Seq<usize>, assigned: Seq<usize>, fuel: nat)
    requires
        g.wf(),
        assigned.no_duplicates(),
        frontier.no_duplicates(),
        forall|x: usize| #[trigger] frontier.contains(x) ==> assigned.contains(x),
        forall|x: usize| #[trigger] assigned.contains(x) ==> g.has_node(x),
        fuel + assigned.len() > g.nodes.len(),
    ensures
        ({
            let lay = bfs_rows(g, frontier, assigned, fuel);
            forall|x: EdgeRef|
                #[trigger] lay.edges.contains(x) ==> lay.rows.flatten().contains(x.from)
                    && (assigned + lay.rows.flatten()).contains(x.to)
        }),
    decreases fuel,
{
    broadcast use lemma_concat_contains;

    if frontier.len() == 0 || fuel == 0 {
        if frontier.len() > 0 {
            lemma_assigned_card(g, assigned);
            assert(false);
        }
    } else {
        let sc = scan_row(g, frontier, 0, assigned);
        lemma_scan_row_props(g, frontier, 0, assigned);
        lemma_scan_row_emitted(g, frontier, 0, assigned);
        let rest = bfs_rows(g, sc.found, assigned + sc.found, (fuel - 1) as nat);
        let lay = bfs_rows(g, frontier, assigned, fuel);
        assert(lay.rows == seq![frontier] + rest.rows);
        assert(lay.edges == sc.emitted + rest.edges);
        let fl = lay.rows.flatten();
        let flr = rest.rows.flatten();
        assert(fl == frontier + flr) by {
            assert(lay.rows.first() == frontier);
            assert(lay.rows.drop_first() =~= rest.rows);
            assert(lay.rows.flatten() == lay.rows.first() + lay.rows.drop_first().flatten());
        }
        if sc.found.len() == 0 {
            assert(rest.edges == Seq::<EdgeRef>::empty());
            assert(sc.found =~= Seq::<usize>::empty());
            assert forall|x: EdgeRef| #[trigger] lay.edges.contains(x) implies fl.contains(x.from)
                && (assigned + fl).contains(x.to) by {
                assert(sc.emitted.contains(x));
                assert((assigned + sc.found).contains(x.to));
                assert(frontier.contains(x.from));
            }
        } else {
            lemma_no_dup_concat(assigned, sc.found);
            lemma_bfs_props(g, sc.found, assigned + sc.found, (fuel - 1) as nat);
            lemma_bfs_endpoints(g, sc.found, assigned + sc.found, (fuel - 1) as nat);
            assert forall|x: EdgeRef| #[trigger] lay.edges.contains(x) implies fl.contains(x.from)
                && (assigned + fl).contains(x.to) by {
                if sc.emitted.contains(x) {
                    assert(frontier.contains(x.from));
                    assert((assigned + sc.found).contains(x.to));
                    if sc.found.contains(x.to) {
                        assert(flr.contains(x.to));
                    }
                } else {
                    assert(rest.edges.contains(x));
                    assert(flr.contains(x.from));
                    assert(((assigned + sc.found) + flr).contains(x.to));
                    if sc.found.contains(x.to) {
                        assert(flr.contains(x.to));
                    }
                }
            }
        }
    }
}

/// Shape facts of the layering that downstream layout relies on: there are
/// no more rows than nodes, every row is non-empty, short enough, and
/// duplicate-free, every id standing in a row names a node of the graph,
/// and both endpoints of every emitted edge stand in rows.
pub proof fn lemma_layering_shape(g: GraphS)
    requires
        g.wf(),
    ensures
        ({
            let lay = spec_layering(g);
            let fl = lay.rows.flatten();
            &&& lay.rows.len() <= g.nodes.len()
            &&& forall|i: int|
                0 <= i < lay.rows.len() ==> 0 < (#[trigger] lay.rows[i]).len() <= g.nodes.len()
            &&& forall|i: int, k: int|
                0 <= i < lay.rows.len() && 0 <= k < (#[trigger] lay.rows[i]).len() ==> g.has_node(
                    #[trigger] lay.rows[i][k],
                )
            &&& forall|x: EdgeRef|
                #[trigger] lay.edges.contains(x) ==> fl.contains(x.from) && fl.contains(x.to)
        }),
{
    broadcast use lemma_concat_contains;

    let lay = spec_layering(g);
    let fl = lay.rows.flatten();
    lemma_rows_partition_reachable(g);
    if g.nodes.len() == 0 {
    } else {
        lemma_bfs_rows_nonempty(g, seq![g.entry], seq![g.entry], g.nodes.len() as nat);
        assert(reach_within(g, g.entry, 0));
        lemma_bfs_endpoints(g, seq![g.entry], seq![g.entry], g.nodes.len() as nat);
        assert forall|i: int, k: int|
            0 <= i < lay.rows.len() && 0 <= k < (#[trigger] lay.rows[i]).len() implies g.has_node(
            #[trigger] lay.rows[i][k],
        ) by {
            lemma_flatten_member(lay.rows, i, lay.rows[i][k]);
        }
        assert forall|i: int|
            0 <= i < lay.rows.len() implies 0 < (#[trigger] lay.rows[i]).len()
            <= g.nodes.len() by {
            lay.rows.lemma_flatten_length_ge_single_element_length(i);
            lay.rows.lemma_flatten_and_flatten_alt_are_equivalent();
            lemma_assigned_card(g, fl);
        }
        assert(lay.rows.len() <= g.nodes.len()) by {
            lemma_flatten_len_ge_count(lay.rows);
            lemma_assigned_card(g, fl);
        }
        assert forall|x: EdgeRef| #[trigger] lay.edges.contains(x) implies fl.contains(x.from)
            && fl.contains(x.to) by {
            assert((seq![g.entry] + fl).contains(x.to));
            if seq![g.entry].contains(x.to) {
                assert(x.to == g.entry);
                assert(seq![g.entry].contains(g.entry));
                assert(reachable(g, g.entry));
            }
        }
    }
}

/// A member of any row is a member of the flattened rows.
proof fn lemma_flatten_member(rs: Seq<Seq<usize>>, i: int, x: usize)
    requires
        0 <= i < rs.len(),
        rs[i].contains(x),
    ensures
        rs.flatten().contains(x),
    decreases i,
{
    broadcast use lemma_concat_contains;

    assert(rs.flatten() == rs.first() + rs.drop_first().flatten());
    if i == 0 {
        assert(rs.first().contains(x));
    } else {
        assert(rs.drop_first()[i - 1] == rs[i]);
        lemma_flatten_member(rs.drop_first(), i - 1, x);
    }
}

/// How many edges of `es` have both endpoints reachable from the entry.
pub open spec fn count_reachable_edges(g: GraphS, es: Seq<EdgeS>) -> int
    decreases es.len(),
{
    if es.len() == 0 {
        0
    } else {
        (if reachable(g, es[0].from) && reachable(g, es[0].to) {
            1int
        } else {
            0int
        }) + count_reachable_edges(g, es.drop_first())
    }
}

/// From edge index `j` on, counting edges whose source stands in a row is
/// counting edges with reachable endpoints: the rows hold exactly the
/// reachable ids, and an edge from a reachable source has a reachable
/// target.
proof fn lemma_count_equiv(g: GraphS, j: int)
    requires
        g.wf(),
        g.nodes.len() > 0,
        0 <= j <= g.edges.len(),
    ensures
        count_edges_from(g.edges.skip(j), spec_layering(g).rows.flatten())
            == count_reachable_edges(g, g.edges.skip(j)),
    decreases g.edges.len() - j,
{
    if j >= g.edges.len() {
        assert(g.edges.skip(j) =~= Seq::<EdgeS>::empty());
    } else {
        let fl = spec_layering(g).rows.flatten();
        let e = g.edges[j];
        assert(g.edges.skip(j)[0] == e);
        assert(g.edges.skip(j).drop_first() =~= g.edges.skip(j + 1));
        lemma_count_equiv(g, j + 1);
        lemma_rows_partition_reachable(g);
        if reachable(g, e.from) {
            lemma_reachable_step(g, j);
        }
        assert(fl.contains(e.from) <==> reachable(g, e.from) && reachable(g, e.to));
    }
}

/// The layering emits exactly as many edge records as the input graph has
/// edges with reachable endpoints: the edge list of the reachable
/// subgraph, with nothing duplicated and nothing dropped.
pub proof fn lemma_edge_count_reachable(g: GraphS)
    requires
        g.wf(),
    ensures
        spec_layering(g).edges.len() == count_reachable_edges(g, g.edges),
{
    lemma_edge_count(g);
    if g.nodes.len() == 0 {
        assert(g.edges.len() == 0) by {
            if g.edges.len() > 0 {
                assert(g.has_node(g.edges[0].from));
            }
        }
    } else {
        lemma_count_equiv(g, 0);
        assert(g.edges.skip(0) =~= g.edges);
    }
}

} // verus!
