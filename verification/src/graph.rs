//! Indexed graph storage: append-only arenas for node and edge payloads,
//! plus an adjacency index mapping each node to its outgoing
//! (edge, neighbor) pairs.

use vstd::prelude::*;

verus! {

/// Stable, sequentially assigned identifier of a node payload.
#[derive(Clone, Copy, PartialEq, Eq, Hash, Debug, Structural)]
pub struct NodeIndex(pub usize);

/// Stable, sequentially assigned identifier of an edge payload,
/// in a numbering space independent of `NodeIndex`.
#[derive(Clone, Copy, PartialEq, Eq, Hash, Debug, Structural)]
pub struct EdgeIndex(pub usize);

/// One adjacency entry: this edge leads to this node from the source node
/// whose set it is stored in.
pub type EdgePair = (EdgeIndex, NodeIndex);

/// Capability of an edge payload: a non-negative integer traversal cost.
pub trait Edge {
    /// The cost as seen by specifications.
    spec fn spec_cost(&self) -> u32;

    /// The cost as computed at run time; zero for unweighted edge types.
    fn cost(&self) -> (c: u32)
        ensures
            c == self.spec_cost(),
    ;
}

/// Edge payload for unweighted graphs: every edge costs zero.
#[derive(Clone, Copy, Debug)]
pub struct EmptyEdge;

impl Edge for EmptyEdge {
    open spec fn spec_cost(&self) -> u32 {
        0
    }

    fn cost(&self) -> (c: u32) {
        0
    }
}

/// Edge payload carrying an explicit weight.
#[derive(Clone, Copy, Debug)]
pub struct WeightedEdge(pub u32);

impl Edge for WeightedEdge {
    open spec fn spec_cost(&self) -> u32 {
        self.0
    }

    fn cost(&self) -> (c: u32) {
        self.0
    }
}

/// Tagged edge payload for graphs that mix weighted and unweighted edges.
#[derive(Clone, Copy, Debug)]
pub enum MixedEdge {
    Unweighted,
    Weighted(u32),
}

impl Edge for MixedEdge {
    open spec fn spec_cost(&self) -> u32 {
        match self {
            MixedEdge::Unweighted => 0,
            MixedEdge::Weighted(w) => *w,
        }
    }

    fn cost(&self) -> (c: u32) {
        match self {
            MixedEdge::Unweighted => 0,
            MixedEdge::Weighted(w) => *w,
        }
    }
}

/// A graph over node payloads `T` and edge payloads `E`.
///
/// Nodes and edges live in append-only arenas and are addressed by the
/// identifiers returned at insertion; the adjacency index stores, for the
/// node `i`, the outgoing `(edge, neighbor)` pairs in insertion order.
pub struct Graph<T, E: Edge> {
    nodes: Vec<T>,
    edges: Vec<E>,
    connections: Vec<Vec<EdgePair>>,
}

impl<T, E: Edge> Graph<T, E> {
    /// The node payloads, in insertion order; node `i` is `nodes_seq()[i]`.
    pub closed spec fn nodes_seq(&self) -> Seq<T> {
        self.nodes@
    }

    /// The edge payloads, in insertion order; edge `i` is `edges_seq()[i]`.
    pub closed spec fn edges_seq(&self) -> Seq<E> {
        self.edges@
    }

    /// The adjacency index: `adj()[i]` is the sequence of outgoing
    /// `(edge, neighbor)` pairs of node `i`, in insertion order.
    pub closed spec fn adj(&self) -> Seq<Seq<EdgePair>> {
        self.connections@.map_values(|row: Vec<EdgePair>| row@)
    }

    /// Well-formedness: there is one adjacency set per node, and every
    /// adjacency entry references an edge and a node that exist in their
    /// respective stores.
    pub open spec fn wf(&self) -> bool {
        &&& self.adj().len() == self.nodes_seq().len()
        &&& forall|i: int, j: int|
            0 <= i < self.adj().len() && 0 <= j < self.adj()[i].len() ==> {
                &&& (#[trigger] self.adj()[i][j]).0.0 < self.edges_seq().len()
                &&& self.adj()[i][j].1.0 < self.nodes_seq().len()
            }
    }

    /// What `get_node` returns: absent exactly when the identifier is out of
    /// the currently allocated range.
    pub open spec fn spec_get_node(&self, node: NodeIndex) -> Option<T> {
        if node.0 < self.nodes_seq().len() {
            Some(self.nodes_seq()[node.0 as int])
        } else {
            None
        }
    }

    /// What `get_edge` returns.
    pub open spec fn spec_get_edge(&self, edge: EdgeIndex) -> Option<E> {
        if edge.0 < self.edges_seq().len() {
            Some(self.edges_seq()[edge.0 as int])
        } else {
            None
        }
    }

    /// What `get_connections` returns: the node's adjacency entries, empty
    /// when the node has none or does not exist.
    pub open spec fn spec_connections(&self, node: NodeIndex) -> Seq<EdgePair> {
        if node.0 < self.adj().len() {
            self.adj()[node.0 as int]
        } else {
            Seq::empty()
        }
    }

    /// Some edge leads from `u` directly to `v`.
    pub open spec fn step(&self, u: NodeIndex, v: NodeIndex) -> bool {
        exists|e: EdgeIndex| self.spec_connections(u).contains((e, v))
    }

    /// `p` is a walk through the graph from `from` to `to`, inclusive of
    /// both endpoints.
    pub open spec fn is_path(&self, p: Seq<NodeIndex>, from: NodeIndex, to: NodeIndex) -> bool {
        &&& p.len() >= 1
        &&& p[0] == from
        &&& p[p.len() - 1] == to
        &&& forall|i: int| 0 <= i < p.len() - 1 ==> self.step(#[trigger] p[i], p[i + 1])
    }

    /// Some walk connects `from` to `to`; `from` is always reachable from
    /// itself by the one-element walk.
    pub open spec fn reachable(&self, from: NodeIndex, to: NodeIndex) -> bool {
        exists|p: Seq<NodeIndex>| self.is_path(p, from, to)
    }

    /// The adjacency index after inserting one undirected edge `e` between
    /// `a` and `b`: one entry in each endpoint's set, pointing to the other
    /// endpoint, collapsing to a single entry when `a == b`.
    pub open spec fn undirected_adj(
        adj0: Seq<Seq<EdgePair>>,
        e: EdgeIndex,
        a: NodeIndex,
        b: NodeIndex,
    ) -> Seq<Seq<EdgePair>> {
        if a == b {
            adj0.update(a.0 as int, adj0[a.0 as int].push((e, b)))
        } else {
            adj0.update(a.0 as int, adj0[a.0 as int].push((e, b))).update(
                b.0 as int,
                adj0[b.0 as int].push((e, a)),
            )
        }
    }

    /// Constructs the empty graph.
    pub fn new() -> (g: Graph<T, E>)
        ensures
            g.wf(),
            g.nodes_seq() == Seq::<T>::empty(),
            g.edges_seq() == Seq::<E>::empty(),
            g.adj() == Seq::<Seq<EdgePair>>::empty(),
    {
        let g = Graph { nodes: Vec::new(), edges: Vec::new(), connections: Vec::new() };
        proof {
            assert(g.adj() =~~= Seq::<Seq<EdgePair>>::empty());
        }
        g
    }

    /// The number of nodes inserted so far; identifiers `0 .. node_count()`
    /// are exactly the allocated ones.
    pub fn node_count(&self) -> (n: usize)
        ensures
            n == self.nodes_seq().len(),
    {
        self.nodes.len()
    }

    /// Appends a node payload and returns its new, never reused identifier.
    pub fn insert_node(&mut self, node: T) -> (r: NodeIndex)
        requires
            old(self).wf(),
        ensures
            final(self).wf(),
            r.0 == old(self).nodes_seq().len(),
            final(self).nodes_seq() == old(self).nodes_seq().push(node),
            final(self).edges_seq() == old(self).edges_seq(),
            final(self).adj() == old(self).adj().push(Seq::<EdgePair>::empty()),
    {
        let index = self.nodes.len();
        self.nodes.push(node);
        self.connections.push(Vec::new());
        proof {
            assert(self.adj() =~~= old(self).adj().push(Seq::<EdgePair>::empty()));
        }
        NodeIndex(index)
    }

    /// Looks a node payload up; absent (not an error) when the identifier is
    /// out of the allocated range.
    pub fn get_node(&self, node: NodeIndex) -> (r: Option<&T>)
        ensures
            match r {
                Some(p) => self.spec_get_node(node) == Some(*p),
                None => self.spec_get_node(node) is None,
            },
    {
        if node.0 < self.nodes.len() {
            Some(&self.nodes[node.0])
        } else {
            None
        }
    }

    /// Looks an edge payload up; absent (not an error) when the identifier
    /// is out of the allocated range.
    pub fn get_edge(&self, edge: EdgeIndex) -> (r: Option<&E>)
        ensures
            match r {
                Some(p) => self.spec_get_edge(edge) == Some(*p),
                None => self.spec_get_edge(edge) is None,
            },
    {
        if edge.0 < self.edges.len() {
            Some(&self.edges[edge.0])
        } else {
            None
        }
    }

    /// Inserts a directed edge: stores the payload and adds `(edge, conn_b)`
    /// to `conn_a`'s adjacency set only.
    pub fn insert_edge(&mut self, edge: E, conn_a: NodeIndex, conn_b: NodeIndex) -> (r: EdgeIndex)
        requires
            old(self).wf(),
            conn_a.0 < old(self).nodes_seq().len(),
            conn_b.0 < old(self).nodes_seq().len(),
        ensures
            final(self).wf(),
            r.0 == old(self).edges_seq().len(),
            final(self).nodes_seq() == old(self).nodes_seq(),
            final(self).edges_seq() == old(self).edges_seq().push(edge),
            final(self).adj() == old(self).adj().update(
                conn_a.0 as int,
                old(self).adj()[conn_a.0 as int].push((r, conn_b)),
            ),
    {
        let index = self.edges.len();
        self.edges.push(edge);
        let row = &mut self.connections[conn_a.0];
        row.push((EdgeIndex(index), conn_b));
        proof {
            assert(self.adj() =~~= old(self).adj().update(
                conn_a.0 as int,
                old(self).adj()[conn_a.0 as int].push((EdgeIndex(index as usize), conn_b)),
            ));
        }
        EdgeIndex(index)
    }

    /// Inserts an undirected edge: stores one payload and adds one adjacency
    /// entry in each endpoint's set, pointing to the other endpoint.
    pub fn insert_edge_undirected(
        &mut self,
        edge: E,
        conn_a: NodeIndex,
        conn_b: NodeIndex,
    ) -> (r: EdgeIndex)
        requires
            old(self).wf(),
            conn_a.0 < old(self).nodes_seq().len(),
            conn_b.0 < old(self).nodes_seq().len(),
        ensures
            final(self).wf(),
            r.0 == old(self).edges_seq().len(),
            final(self).nodes_seq() == old(self).nodes_seq(),
            final(self).edges_seq() == old(self).edges_seq().push(edge),
            final(self).adj() == Graph::<T, E>::undirected_adj(old(self).adj(), r, conn_a, conn_b),
    {
        let index = self.edges.len();
        self.edges.push(edge);
        let row_a = &mut self.connections[conn_a.0];
        row_a.push((EdgeIndex(index), conn_b));
        if conn_a.0 != conn_b.0 {
            let row_b = &mut self.connections[conn_b.0];
            row_b.push((EdgeIndex(index), conn_a));
        }
        proof {
            assert(self.adj() =~~= Graph::<T, E>::undirected_adj(
                old(self).adj(),
                EdgeIndex(index as usize),
                conn_a,
                conn_b,
            ));
        }
        EdgeIndex(index)
    }

    /// Returns the node's adjacency entries in insertion order; empty (not
    /// an error) when the node has no outgoing edges or does not exist.
    pub fn get_connections(&self, node: NodeIndex) -> (r: Vec<EdgePair>)
        ensures
            r@ == self.spec_connections(node),
    {
        let mut out: Vec<EdgePair> = Vec::new();
        if node.0 < self.connections.len() {
            let row_len = self.connections[node.0].len();
            let mut j: usize = 0;
            while j < row_len
                invariant
                    node.0 < self.connections@.len(),
                    row_len == self.connections@[node.0 as int]@.len(),
                    j <= row_len,
                    out@ == self.connections@[node.0 as int]@.subrange(0, j as int),
                decreases row_len - j,
            {
                let p = self.connections[node.0][j];
                out.push(p);
                j += 1;
            }
            proof {
                assert(out@ =~= self.spec_connections(node));
            }
        } else {
            proof {
                assert(out@ =~= self.spec_connections(node));
            }
        }
        out
    }
}

/// Round-trip law for nodes: after an insertion, which appends the payload
/// and returns the next identifier, fetching that identifier yields exactly
/// the inserted payload.
pub proof fn lemma_node_round_trip<T, E: Edge>(
    g0: Graph<T, E>,
    g1: Graph<T, E>,
    payload: T,
    id: NodeIndex,
)
    requires
        g1.nodes_seq() == g0.nodes_seq().push(payload),
        id.0 == g0.nodes_seq().len(),
    ensures
        g1.spec_get_node(id) == Some(payload),
{
}

/// Round-trip law for edges: after an insertion, which appends the payload
/// and returns the next identifier, fetching that identifier yields exactly
/// the inserted payload.
pub proof fn lemma_edge_round_trip<T, E: Edge>(
    g0: Graph<T, E>,
    g1: Graph<T, E>,
    payload: E,
    id: EdgeIndex,
)
    requires
        g1.edges_seq() == g0.edges_seq().push(payload),
        id.0 == g0.edges_seq().len(),
    ensures
        g1.spec_get_edge(id) == Some(payload),
{
}

/// Undirected-edge symmetry law: after one undirected insertion of `e`
/// between `a` and `b`, `a`'s adjacency set contains `(e, b)` and `b`'s
/// adjacency set contains `(e, a)`.
pub proof fn lemma_undirected_symmetry<T, E: Edge>(
    g0: Graph<T, E>,
    g1: Graph<T, E>,
    e: EdgeIndex,
    a: NodeIndex,
    b: NodeIndex,
)
    requires
        a.0 < g0.adj().len(),
        b.0 < g0.adj().len(),
        g1.adj() == Graph::<T, E>::undirected_adj(g0.adj(), e, a, b),
    ensures
        g1.spec_connections(a).contains((e, b)),
        g1.spec_connections(b).contains((e, a)),
{
    if a == b {
        let row = g0.adj()[a.0 as int].push((e, b));
        assert(row[row.len() - 1] == (e, b));
    } else {
        let row_a = g0.adj()[a.0 as int].push((e, b));
        assert(row_a[row_a.len() - 1] == (e, b));
        let row_b = g0.adj()[b.0 as int].push((e, a));
        assert(row_b[row_b.len() - 1] == (e, a));
    }
}

} // verus!
