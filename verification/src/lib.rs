//! Directed graphs behind one contract, stored as a dense byte matrix, a
//! bit-packed matrix or an open-addressing hash table, with breadth-first,
//! depth-first and A* search on top.
use vstd::prelude::*;

pub mod baseline;
pub mod bit;
pub mod hash;
pub mod model;
pub mod search;
pub mod tally;

pub use baseline::AdjGraph;
pub use bit::BitGraph;
pub use model::GraphModel;

verus! {

/// Why a graph refused an operation.
#[derive(Clone, Copy, Debug, PartialEq, Eq, Structural)]
pub enum GraphError {
    /// An index does not name a node of the graph.
    IndexOutOfRange,
    /// The backend does not offer the operation.
    UnsupportedOperation,
    /// The backend has no room for what was to be added.
    CapacityExceeded,
}

/// An edge as queries report it.
#[derive(Clone, Copy, Debug, PartialEq, Eq)]
pub struct EdgeMeta<W> {
    pub source: usize,
    pub destination: usize,
    pub weight: W,
}

impl vstd::std_specs::convert::FromSpecImpl<(usize, usize, usize)> for EdgeMeta<usize> {
    open spec fn obeys_from_spec() -> bool {
        true
    }

    open spec fn from_spec(t: (usize, usize, usize)) -> Self {
        EdgeMeta { source: t.0, destination: t.1, weight: t.2 }
    }
}

impl From<(usize, usize, usize)> for EdgeMeta<usize> {
    /// Reads a triple as source, destination and weight.
    fn from(t: (usize, usize, usize)) -> (edge: Self) {
        EdgeMeta { source: t.0, destination: t.1, weight: t.2 }
    }
}

impl EdgeMeta<usize> {
    /// The pair that identifies the edge.
    #[inline]
    pub fn key_pair(&self) -> (pair: (usize, usize))
        ensures
            pair == (self.source, self.destination),
    {
        (self.source, self.destination)
    }
}

/// The node operations that a backend may decline to offer.
pub enum NodeOp {
    /// `set_node`
    SetNode,
    /// `get_node`
    GetNode,
    /// `remove_node`
    RemoveNode,
}

/// What every storage backend offers. `T` is the type of a node's value, `W`
/// that of an edge's weight.
///
/// Each operation is described by what it does to the backend's
/// [`GraphModel`]. Indices are checked against the node count: an operation
/// that is handed an index outside `0..node_count()` fails with
/// `IndexOutOfRange` and changes nothing.
pub trait Graph<T, W> {
    /// The graph that is stored.
    spec fn view(&self) -> GraphModel<T, W>;

    /// The representation is consistent; constructors establish this and every
    /// operation preserves it.
    spec fn wf(&self) -> bool;

    /// The largest node count that the backend can hold.
    spec fn node_limit(&self) -> nat;

    /// The backend can take an edge in its present state. The matrix backends
    /// always can.
    spec fn edge_room(&self) -> bool;

    /// The weight that `add_edge` gives an edge.
    spec fn default_weight() -> W;

    /// Storing `weight` makes an edge. A weight for which this is false stands
    /// for "no edge": to set it is to clear the edge.
    spec fn makes_edge(weight: W) -> bool;

    /// Whether the backend offers a node operation.
    spec fn offers(op: NodeOp) -> bool;

    /// The value that `remove_node` leaves behind in the node's place.
    spec fn vacant() -> T;

    /// What well-formedness promises of the model.
    proof fn lemma_wf(&self)
        requires
            self.wf(),
        ensures
            self@.count <= self.node_limit() <= usize::MAX,
            self@.nodes.len() <= usize::MAX,
            Self::makes_edge(Self::default_weight()),
            forall|pair: (usize, usize)|
                self@.edges.contains_key(pair) ==> Self::makes_edge(#[trigger] self@.edges[pair]),
    ;

    /// Adds the edge `(from, to)` with the default weight, or overwrites it.
    /// Returns whether the edge existed before.
    fn add_edge(&mut self, from: usize, to: usize) -> (r: Result<bool, GraphError>)
        requires
            old(self).wf(),
        ensures
            final(self).wf(),
            final(self).node_limit() == old(self).node_limit(),
            r is Ok <==> old(self)@.in_range(from, to) && old(self).edge_room(),
            r matches Ok(existed) ==> existed == old(self)@.has_edge(from, to) && final(self)@
                == old(self)@.with_edge(from, to, Self::default_weight()),
            r matches Err(e) ==> final(self)@ == old(self)@ && e == (if old(self)@.in_range(
                from,
                to,
            ) {
                GraphError::CapacityExceeded
            } else {
                GraphError::IndexOutOfRange
            }),
    ;

    /// Sets the edge `from_to` to `weight`, or clears it where `weight` stands
    /// for "no edge". Returns whether the edge existed before.
    fn set_edge(&mut self, from_to: (usize, usize), weight: W) -> (r: Result<bool, GraphError>)
        requires
            old(self).wf(),
        ensures
            final(self).wf(),
            final(self).node_limit() == old(self).node_limit(),
            r is Ok <==> old(self)@.in_range(from_to.0, from_to.1) && old(self).edge_room(),
            r matches Ok(existed) ==> existed == old(self)@.has_edge(from_to.0, from_to.1)
                && final(self)@ == (if Self::makes_edge(weight) {
                old(self)@.with_edge(from_to.0, from_to.1, weight)
            } else {
                old(self)@.without_edge(from_to.0, from_to.1)
            }),
            r matches Err(e) ==> final(self)@ == old(self)@ && e == (if old(self)@.in_range(
                from_to.0,
                from_to.1,
            ) {
                GraphError::CapacityExceeded
            } else {
                GraphError::IndexOutOfRange
            }),
    ;

    /// Clears the edge `(from, to)`. Returns whether the edge existed before.
    fn remove_edge(&mut self, from: usize, to: usize) -> (r: Result<bool, GraphError>)
        requires
            old(self).wf(),
        ensures
            final(self).wf(),
            final(self).node_limit() == old(self).node_limit(),
            final(self).edge_room() == old(self).edge_room(),
            r is Ok <==> old(self)@.in_range(from, to),
            r matches Ok(existed) ==> existed == old(self)@.has_edge(from, to) && final(self)@
                == old(self)@.without_edge(from, to),
            r matches Err(e) ==> final(self)@ == old(self)@ && e == GraphError::IndexOutOfRange,
    ;

    /// Whether the edge `(from, to)` exists.
    fn has_edge(&self, from: usize, to: usize) -> (r: Result<bool, GraphError>)
        requires
            self.wf(),
        ensures
            r == (if self@.in_range(from, to) {
                Ok::<bool, GraphError>(self@.has_edge(from, to))
            } else {
                Err(GraphError::IndexOutOfRange)
            }),
    ;

    /// The edge `(from, to)` with its weight, if it exists.
    fn get_edge(&self, from: usize, to: usize) -> (r: Result<Option<EdgeMeta<W>>, GraphError>)
        requires
            self.wf(),
        ensures
            r == (if !self@.in_range(from, to) {
                Err::<Option<EdgeMeta<W>>, GraphError>(GraphError::IndexOutOfRange)
            } else if self@.has_edge(from, to) {
                Ok(
                    Some(
                        EdgeMeta {
                            source: from,
                            destination: to,
                            weight: self@.edges[(from, to)],
                        },
                    ),
                )
            } else {
                Ok(None)
            }),
    ;

    /// The nodes that `node_index` points to, in ascending order.
    fn outgoing_edges_of(&self, node_index: usize) -> (r: Result<Vec<usize>, GraphError>)
        requires
            self.wf(),
        ensures
            r is Ok <==> node_index < self@.count,
            r matches Ok(neighbours) ==> neighbours@ == self@.outgoing(node_index),
            r matches Err(e) ==> e == GraphError::IndexOutOfRange,
    ;

    /// The nodes that point to `node_index`, in ascending order.
    fn incoming_edges_of(&self, node_index: usize) -> (r: Result<Vec<usize>, GraphError>)
        requires
            self.wf(),
        ensures
            r is Ok <==> node_index < self@.count,
            r matches Ok(neighbours) ==> neighbours@ == self@.incoming(node_index),
            r matches Err(e) ==> e == GraphError::IndexOutOfRange,
    ;

    /// Every edge as a pair, ordered by source and then by destination.
    fn all_edge_pairs(&self) -> (pairs: Vec<(usize, usize)>)
        requires
            self.wf(),
        ensures
            pairs@ == self@.all_pairs(),
    {
        let mut out: Vec<(usize, usize)> = Vec::new();
        let count = self.node_count();
        let mut index: usize = 0;
        while index < count
            invariant
                self.wf(),
                count == self@.count,
                index <= count,
                out@ == self@.pairs_below(index as nat),
            decreases count - index,
        {
            let neighbours = match self.outgoing_edges_of(index) {
                Ok(neighbours) => neighbours,
                Err(_) => Vec::new(),
            };
            let ghost before = out@;
            let mut k: usize = 0;
            while k < neighbours.len()
                invariant
                    k <= neighbours.len(),
                    out@ == before + neighbours@.take(k as int).map_values(
                        |to: usize| (index, to),
                    ),
                decreases neighbours.len() - k,
            {
                out.push((index, neighbours[k]));
                proof {
                    let pair_up = |to: usize| (index, to);
                    assert(neighbours@.take(k + 1).map_values(pair_up) =~= neighbours@.take(
                        k as int,
                    ).map_values(pair_up).push((index, neighbours@[k as int])));
                }
                k = k + 1;
            }
            proof {
                assert(neighbours@.take(k as int) =~= neighbours@);
            }
            index = index + 1;
        }
        out
    }

    /// Appends a node holding `value` and returns the index it was given.
    fn push_node(&mut self, value: T) -> (r: Result<usize, GraphError>)
        requires
            old(self).wf(),
        ensures
            final(self).wf(),
            final(self).node_limit() == old(self).node_limit(),
            final(self).edge_room() == old(self).edge_room(),
            r is Ok <==> old(self)@.count < old(self).node_limit(),
            r matches Ok(index) ==> index == old(self)@.nodes.len() && final(self)@
                == old(self)@.with_node(value),
            r matches Err(e) ==> final(self)@ == old(self)@ && e == GraphError::CapacityExceeded,
    ;

    /// Replaces the value of a node, where the backend offers it.
    fn set_node(&mut self, node_index: usize, value: T) -> (r: Result<(), GraphError>)
        requires
            old(self).wf(),
        ensures
            final(self).wf(),
            final(self).node_limit() == old(self).node_limit(),
            final(self).edge_room() == old(self).edge_room(),
            r is Ok <==> Self::offers(NodeOp::SetNode) && old(self)@.holds_node(node_index),
            r is Ok ==> final(self)@ == old(self)@.with_node_value(node_index, value),
            r matches Err(e) ==> final(self)@ == old(self)@ && e == (if Self::offers(NodeOp::SetNode) {
                GraphError::IndexOutOfRange
            } else {
                GraphError::UnsupportedOperation
            }),
    ;

    /// The value of a node, where the backend offers it.
    fn get_node(&self, node_index: usize) -> (r: Result<&T, GraphError>)
        requires
            self.wf(),
        ensures
            r is Ok <==> Self::offers(NodeOp::GetNode) && self@.holds_node(node_index),
            r matches Ok(value) ==> *value == self@.nodes[node_index as int],
            r matches Err(e) ==> e == (if Self::offers(NodeOp::GetNode) {
                GraphError::IndexOutOfRange
            } else {
                GraphError::UnsupportedOperation
            }),
    ;

    /// Clears every edge that touches a node, puts the vacant value in the
    /// node's place and returns the value it held, where the backend offers
    /// it. The node keeps its index and the node count stays as it was.
    fn remove_node(&mut self, node_index: usize) -> (r: Result<T, GraphError>)
        requires
            old(self).wf(),
        ensures
            final(self).wf(),
            final(self).node_limit() == old(self).node_limit(),
            final(self).edge_room() == old(self).edge_room(),
            r is Ok <==> Self::offers(NodeOp::RemoveNode) && old(self)@.holds_node(node_index),
            r matches Ok(value) ==> value == old(self)@.nodes[node_index as int] && final(self)@
                == old(self)@.without_edges_of(node_index).with_node_value(
                node_index,
                Self::vacant(),
            ),
            r matches Err(e) ==> final(self)@ == old(self)@ && e == (if Self::offers(
                NodeOp::RemoveNode,
            ) {
                GraphError::IndexOutOfRange
            } else {
                GraphError::UnsupportedOperation
            }),
    ;

    /// The number of nodes.
    fn node_count(&self) -> (count: usize)
        requires
            self.wf(),
        ensures
            count == self@.count,
    ;

    /// Forces the node count to `count`, for a caller that rebuilds a graph in
    /// bulk. Edges and node values stay as they are.
    fn set_count(&mut self, count: usize) -> (r: Result<(), GraphError>)
        requires
            old(self).wf(),
        ensures
            final(self).wf(),
            final(self).node_limit() == old(self).node_limit(),
            final(self).edge_room() == old(self).edge_room(),
            r is Ok <==> count <= old(self).node_limit(),
            r is Ok ==> final(self)@ == old(self)@.with_count(count as nat),
            r matches Err(e) ==> final(self)@ == old(self)@ && e == GraphError::CapacityExceeded,
    ;
}

} // verus!
