//! The immutable graph model: nodes, edges, entry node, and its invariant.

use vstd::prelude::*;

verus! {

/// Largest number of nodes a model may hold; keeps every computed
/// coordinate well inside `i64`.
pub const MAX_NODES: usize = 16777216;

/// Largest title length, line length, and line count of one node, in
/// characters; keeps every computed box dimension well inside `i64`.
pub const MAX_TEXT: usize = 16777216;

/// One node of the diagram: a stable id, a display title, and the node's
/// text lines (already filtered by the caller).
pub struct Node {
    pub id: usize,
    pub title: String,
    pub lines: Vec<String>,
}

/// Mathematical value of a `Node`.
#[verifier::ext_equal]
pub ghost struct NodeS {
    pub id: usize,
    pub title: Seq<char>,
    pub lines: Seq<Seq<char>>,
}

impl View for Node {
    type V = NodeS;

    open spec fn view(&self) -> NodeS {
        NodeS {
            id: self.id,
            title: self.title@,
            lines: self.lines@.map_values(|s: String| s@),
        }
    }
}

/// One directed edge between two node ids, with an optional text label.
/// Parallel edges and self-loops are allowed.
pub struct Edge {
    pub from: usize,
    pub to: usize,
    pub label: Option<String>,
}

/// Mathematical value of an `Edge`.
#[verifier::ext_equal]
pub ghost struct EdgeS {
    pub from: usize,
    pub to: usize,
    pub label: Option<Seq<char>>,
}

impl View for Edge {
    type V = EdgeS;

    open spec fn view(&self) -> EdgeS {
        EdgeS {
            from: self.from,
            to: self.to,
            label: match self.label {
                Some(ref s) => Some(s@),
                None => None,
            },
        }
    }
}

/// The views of a node sequence, element by element.
pub open spec fn nodes_view(ns: Seq<Node>) -> Seq<NodeS> {
    ns.map_values(|n: Node| n@)
}

/// The views of an edge sequence, element by element.
pub open spec fn edges_view(es: Seq<Edge>) -> Seq<EdgeS> {
    es.map_values(|e: Edge| e@)
}

/// Mathematical value of a `GraphModel`.
#[verifier::ext_equal]
pub ghost struct GraphS {
    pub nodes: Seq<NodeS>,
    pub edges: Seq<EdgeS>,
    pub entry: usize,
}

/// The ids of a node sequence, in order.
pub open spec fn id_seq(nodes: Seq<NodeS>) -> Seq<usize> {
    nodes.map_values(|n: NodeS| n.id)
}

/// Bounds on one node's text, forced by the machine word: they keep every
/// computed box dimension inside `i64`.
pub open spec fn node_bounded(n: NodeS) -> bool {
    &&& n.title.len() <= MAX_TEXT
    &&& n.lines.len() <= MAX_TEXT
    &&& forall|i: int| 0 <= i < n.lines.len() ==> #[trigger] n.lines[i].len() <= MAX_TEXT
}

impl GraphS {
    /// The node set holds `id`.
    pub open spec fn has_node(self, id: usize) -> bool {
        id_seq(self.nodes).contains(id)
    }

    /// The model's invariant: unique node ids, every edge endpoint present,
    /// and the entry present whenever there is any node at all.
    pub open spec fn wf(self) -> bool {
        &&& id_seq(self.nodes).no_duplicates()
        &&& forall|i: int|
            0 <= i < self.edges.len() ==> self.has_node((#[trigger] self.edges[i]).from)
                && self.has_node(self.edges[i].to)
        &&& self.nodes.len() > 0 ==> self.has_node(self.entry)
    }

    /// Machine-word bounds on the model's size, under which the whole
    /// layout provably fits in `i64` coordinates.
    pub open spec fn bounded(self) -> bool {
        &&& self.nodes.len() <= MAX_NODES
        &&& forall|i: int| 0 <= i < self.nodes.len() ==> node_bounded(#[trigger] self.nodes[i])
    }
}

/// The error of `GraphModel::new`: a duplicate node id, an entry id absent
/// from a non-empty node set, or an edge endpoint absent from the node set.
#[derive(Clone, Copy, Debug, PartialEq, Eq, Structural)]
pub enum GraphError {
    InvalidGraph,
}

/// An immutable directed graph: a set of nodes with unique ids, a sequence
/// of edges, and one designated entry node id. Built once per render
/// request and read-only afterward.
pub struct GraphModel {
    nodes: Vec<Node>,
    edges: Vec<Edge>,
    entry: usize,
}

impl View for GraphModel {
    type V = GraphS;

    closed spec fn view(&self) -> GraphS {
        GraphS { nodes: nodes_view(self.nodes@), edges: edges_view(self.edges@), entry: self.entry }
    }
}

/// True when `nodes` holds a node with the given id.
fn contains_id(nodes: &Vec<Node>, id: usize) -> (b: bool)
    ensures
        b == id_seq(nodes_view(nodes@)).contains(id),
{
    let ghost ids = id_seq(nodes_view(nodes@));
    assert(forall|k: int| 0 <= k < nodes.len() ==> ids[k] == nodes@[k].id);
    let mut i: usize = 0;
    while i < nodes.len()
        invariant
            0 <= i <= nodes.len(),
            ids == id_seq(nodes_view(nodes@)),
            ids.len() == nodes.len(),
            forall|k: int| 0 <= k < nodes.len() ==> ids[k] == nodes@[k].id,
            forall|k: int| 0 <= k < i ==> ids[k] != id,
        decreases nodes.len() - i,
    {
        if nodes[i].id == id {
            assert(ids[i as int] == id);
            return true;
        }
        i = i + 1;
    }
    false
}

impl GraphModel {
    /// Builds the model, validating its invariant: fails with
    /// `InvalidGraph` exactly when a node id repeats, the entry id is
    /// absent from a non-empty node set, or an edge endpoint is absent.
    /// A graph with zero nodes and zero edges is valid (not an error).
    pub fn new(nodes: Vec<Node>, edges: Vec<Edge>, entry: usize) -> (r: Result<
        GraphModel,
        GraphError,
    >)
        ensures
            ({
                let g = GraphS { nodes: nodes_view(nodes@), edges: edges_view(edges@), entry: entry };
                match r {
                    Ok(m) => m@ == g && g.wf(),
                    Err(e) => !g.wf() && e == GraphError::InvalidGraph,
                }
            }),
    {
        let ghost g = GraphS { nodes: nodes_view(nodes@), edges: edges_view(edges@), entry: entry };
        let ghost ids = id_seq(g.nodes);
        assert(forall|k: int| 0 <= k < nodes.len() ==> ids[k] == nodes@[k].id);

        // Unique node ids.
        let mut i: usize = 0;
        while i < nodes.len()
            invariant
                0 <= i <= nodes.len(),
                ids == id_seq(nodes_view(nodes@)),
                ids.len() == nodes.len(),
                forall|k: int| 0 <= k < nodes.len() ==> ids[k] == nodes@[k].id,
                forall|p: int, q: int| 0 <= p < q < i ==> ids[p] != ids[q],
            decreases nodes.len() - i,
        {
            let mut j: usize = 0;
            while j < i
                invariant
                    0 <= j <= i < nodes.len(),
                    ids == id_seq(nodes_view(nodes@)),
                    ids.len() == nodes.len(),
                    forall|k: int| 0 <= k < nodes.len() ==> ids[k] == nodes@[k].id,
                    forall|p: int| 0 <= p < j ==> ids[p] != ids[i as int],
                decreases i - j,
            {
                if nodes[j].id == nodes[i].id {
                    assert(ids[j as int] == ids[i as int]);
                    assert(!ids.no_duplicates());
                    return Err(GraphError::InvalidGraph);
                }
                j = j + 1;
            }
            i = i + 1;
        }
        assert(ids.no_duplicates());

        // The entry node must exist whenever there is any node.
        if nodes.len() > 0 && !contains_id(&nodes, entry) {
            return Err(GraphError::InvalidGraph);
        }

        // Every edge endpoint must exist.
        let mut k: usize = 0;
        while k < edges.len()
            invariant
                0 <= k <= edges.len(),
                g == (GraphS { nodes: nodes_view(nodes@), edges: edges_view(edges@), entry: entry }),
                g.edges.len() == edges.len(),
                forall|p: int|
                    0 <= p < k ==> g.has_node((#[trigger] g.edges[p]).from) && g.has_node(
                        g.edges[p].to,
                    ),
            decreases edges.len() - k,
        {
            assert(g.edges[k as int] == edges@[k as int]@);
            if !contains_id(&nodes, edges[k].from) || !contains_id(&nodes, edges[k].to) {
                assert(!(g.has_node(g.edges[k as int].from) && g.has_node(g.edges[k as int].to)));
                assert(!g.wf()) by {
                    if g.wf() {
                        assert(g.has_node(g.edges[k as int].from) && g.has_node(
                            g.edges[k as int].to,
                        ));
                    }
                }
                return Err(GraphError::InvalidGraph);
            }
            k = k + 1;
        }

        assert(g.wf());
        Ok(GraphModel { nodes, edges, entry })
    }

    /// The designated entry node id.
    pub fn entry(&self) -> (r: usize)
        ensures
            r == self@.entry,
    {
        self.entry
    }

    /// Read-only access to the node set.
    pub fn nodes(&self) -> (r: &Vec<Node>)
        ensures
            nodes_view(r@) == self@.nodes,
    {
        &self.nodes
    }

    /// Read-only access to the edge list.
    pub fn edges(&self) -> (r: &Vec<Edge>)
        ensures
            edges_view(r@) == self@.edges,
    {
        &self.edges
    }
}

} // verus!
