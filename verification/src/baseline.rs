//! The dense adjacency matrix: one byte for every ordered pair of nodes, row
//! after row, with a second matrix that holds the transpose. This is the
//! plain backend against which the others are measured.
//!
//! A row is given its bytes when an edge is first written into it; until then
//! it stands for a row of zeros. A matrix of large capacity thus costs the
//! memory of the rows that hold an edge.
use crate::model::{ascending_where, lemma_ascending_where_agree, GraphModel};
use crate::{EdgeMeta, Graph, GraphError, NodeOp};
use vstd::prelude::*;

verus! {

/// The capacity of a graph made by `new`.
const DEFAULT_CAPACITY: usize = 16;

/// The byte in row `row` and column `column` of a matrix. A row without bytes
/// reads as zeros.
pub open spec fn byte_in(matrix: Seq<Vec<u8>>, row: usize, column: usize) -> u8 {
    if matrix[row as int]@.len() == 0 {
        0
    } else {
        matrix[row as int]@[column as int]
    }
}

/// A matrix of side `capacity`: every row is without bytes or has one for
/// every column.
pub open spec fn square(matrix: Seq<Vec<u8>>, capacity: usize) -> bool {
    &&& matrix.len() == capacity
    &&& forall|row: int|
        0 <= row < capacity ==> (#[trigger] matrix[row])@.len() == 0 || matrix[row]@.len()
            == capacity
}

/// A matrix of side `capacity` without bytes.
fn blank(capacity: usize) -> (matrix: Vec<Vec<u8>>)
    ensures
        square(matrix@, capacity),
        forall|row: usize, column: usize| row < capacity ==> byte_in(matrix@, row, column) == 0,
{
    let mut matrix: Vec<Vec<u8>> = Vec::new();
    let mut row: usize = 0;
    while row < capacity
        invariant
            row <= capacity,
            matrix@.len() == row,
            forall|i: int| 0 <= i < row ==> (#[trigger] matrix@[i])@.len() == 0,
        decreases capacity - row,
    {
        matrix.push(Vec::new());
        row = row + 1;
    }
    matrix
}

/// Writes `val` into the byte in row `row` and column `column`. A row without
/// bytes gets them before anything but a zero is written into it.
fn write(matrix: &mut Vec<Vec<u8>>, capacity: usize, row: usize, column: usize, val: u8)
    requires
        square(old(matrix)@, capacity),
        row < capacity,
        column < capacity,
    ensures
        square(final(matrix)@, capacity),
        byte_in(final(matrix)@, row, column) == val,
        forall|r: usize, c: usize|
            r < capacity && c < capacity && (r, c) != (row, column) ==> byte_in(
                final(matrix)@,
                r,
                c,
            ) == byte_in(old(matrix)@, r, c),
{
    if matrix[row].len() == 0 {
        if val == 0 {
            return ;
        }
        matrix[row] = vec![0; capacity];
    }
    matrix[row][column] = val;
}

/// The indices below `count` at which row `row` of `matrix` holds a byte that
/// is not 0.
fn row_of(matrix: &Vec<Vec<u8>>, capacity: usize, row: usize, count: usize) -> (out: Vec<usize>)
    requires
        square(matrix@, capacity),
        row < capacity,
        count <= capacity,
    ensures
        out@ == ascending_where(count as nat, |i: usize| byte_in(matrix@, row, i) > 0),
{
    let mut out: Vec<usize> = Vec::new();
    let ghost keep = |i: usize| byte_in(matrix@, row, i) > 0;
    let bytes = &matrix[row];
    let stored = bytes.len() > 0;
    let mut i: usize = 0;
    while i < count
        invariant
            i <= count <= capacity,
            row < capacity,
            square(matrix@, capacity),
            bytes == matrix@[row as int],
            stored == (bytes@.len() > 0),
            keep == |i: usize| byte_in(matrix@, row, i) > 0,
            out@ == ascending_where(i as nat, keep),
        decreases count - i,
    {
        if stored && bytes[i] > 0 {
            out.push(i);
        }
        i = i + 1;
    }
    out
}

/// A directed graph stored as a byte matrix of fixed capacity. The byte of a
/// pair is the weight of its edge; 0 stands for "no edge".
pub struct AdjGraph {
    count: usize,
    capacity: usize,
    nodes: Vec<u64>,
    edges: Vec<Vec<u8>>,
    edges_transpose: Vec<Vec<u8>>,
}

impl AdjGraph {
    /// The number of nodes that the graph was made for.
    pub closed spec fn capacity(&self) -> nat {
        self.capacity as nat
    }

    /// The byte of the pair `(from, to)`, 0 outside the matrix.
    pub closed spec fn byte(&self, from: usize, to: usize) -> u8 {
        if from < self.capacity && to < self.capacity {
            byte_in(self.edges@, from, to)
        } else {
            0
        }
    }

    /// The two matrices have the side `capacity` and mirror each other, and no
    /// more nodes are counted than there is room for.
    pub closed spec fn inv(&self) -> bool {
        &&& self.count <= self.capacity
        &&& square(self.edges@, self.capacity)
        &&& square(self.edges_transpose@, self.capacity)
        &&& forall|from: usize, to: usize|
            from < self.capacity && to < self.capacity ==> #[trigger] byte_in(
                self.edges@,
                from,
                to,
            ) == byte_in(self.edges_transpose@, to, from)
    }

    /// A graph with room for 16 nodes.
    pub fn new() -> (graph: Self)
        ensures
            graph.wf(),
            graph.capacity() == 16,
            graph.node_limit() == 16,
            graph@ == GraphModel::<u64, u8>::empty(),
    {
        Self::with_capacity(DEFAULT_CAPACITY)
    }

    /// A graph with room for `size` nodes, without nodes and edges.
    pub fn with_capacity(size: usize) -> (graph: Self)
        ensures
            graph.wf(),
            graph.capacity() == size,
            graph.node_limit() == size,
            graph@ == GraphModel::<u64, u8>::empty(),
    {
        let graph = AdjGraph {
            count: 0,
            capacity: size,
            nodes: Vec::with_capacity(size),
            edges: blank(size),
            edges_transpose: blank(size),
        };
        proof {
            assert(graph@.edges =~= Map::<(usize, usize), u8>::empty());
            assert(graph.nodes@ =~= Seq::<u64>::empty());
        }
        graph
    }

    /// Writes `val` into the byte of the pair `(from, to)` in both matrices
    /// and returns the byte that was there.
    fn set_edge_of_both(&mut self, from: usize, to: usize, val: u8) -> (prev: u8)
        requires
            old(self).inv(),
            from < old(self).capacity,
            to < old(self).capacity,
        ensures
            final(self).inv(),
            final(self).capacity == old(self).capacity,
            final(self).count == old(self).count,
            final(self).nodes == old(self).nodes,
            prev == old(self).byte(from, to),
            final(self).byte(from, to) == val,
            forall|a: usize, b: usize|
                (a, b) != (from, to) ==> final(self).byte(a, b) == old(self).byte(a, b),
    {
        let prev = if self.edges[from].len() == 0 {
            0
        } else {
            self.edges[from][to]
        };

        write(&mut self.edges, self.capacity, from, to, val);

        self.set_edge_of_transpose(to, from, val);

        proof {
            assert forall|a: usize, b: usize|
                a < self.capacity && b < self.capacity implies #[trigger] byte_in(
                self.edges@,
                a,
                b,
            ) == byte_in(self.edges_transpose@, b, a) by {
                assert(byte_in(old(self).edges@, a, b) == byte_in(
                    old(self).edges_transpose@,
                    b,
                    a,
                ));
            }
        }
        prev
    }

    /// Writes `val` into the byte of the pair `(from, to)` in the transposed
    /// matrix.
    fn set_edge_of_transpose(&mut self, from: usize, to: usize, val: u8)
        requires
            square(old(self).edges_transpose@, old(self).capacity),
            from < old(self).capacity,
            to < old(self).capacity,
        ensures
            square(final(self).edges_transpose@, final(self).capacity),
            byte_in(final(self).edges_transpose@, from, to) == val,
            forall|r: usize, c: usize|
                r < old(self).capacity && c < old(self).capacity && (r, c) != (from, to)
                    ==> byte_in(final(self).edges_transpose@, r, c) == byte_in(
                    old(self).edges_transpose@,
                    r,
                    c,
                ),
            final(self).edges == old(self).edges,
            final(self).capacity == old(self).capacity,
            final(self).count == old(self).count,
            final(self).nodes == old(self).nodes,
    {
        write(&mut self.edges_transpose, self.capacity, from, to, val);
    }
}

/// Edges carry a byte as their weight, where 0 stands for "no edge";
/// `add_edge` gives the weight 1. No more nodes fit than the capacity, and
/// none of the node operations is offered.
impl Graph<u64, u8> for AdjGraph {
    closed spec fn view(&self) -> GraphModel<u64, u8> {
        GraphModel {
            count: self.count as nat,
            nodes: self.nodes@,
            edges: Map::new(
                |pair: (usize, usize)| self.byte(pair.0, pair.1) > 0,
                |pair: (usize, usize)| self.byte(pair.0, pair.1),
            ),
        }
    }

    closed spec fn wf(&self) -> bool {
        self.inv()
    }

    closed spec fn node_limit(&self) -> nat {
        self.capacity as nat
    }

    open spec fn edge_room(&self) -> bool {
        true
    }

    open spec fn default_weight() -> u8 {
        1
    }

    open spec fn makes_edge(weight: u8) -> bool {
        weight > 0
    }

    open spec fn offers(op: NodeOp) -> bool {
        false
    }

    open spec fn vacant() -> u64 {
        0
    }

    proof fn lemma_wf(&self) {
        vstd::std_specs::vec::axiom_spec_len(&self.nodes);
    }

    fn add_edge(&mut self, from: usize, to: usize) -> (r: Result<bool, GraphError>) {
        if from >= self.count || to >= self.count {
            return Err(GraphError::IndexOutOfRange);
        }
        let was = self.set_edge_of_both(from, to, 1) > 0;
        proof {
            assert(self@.edges =~= old(self)@.edges.insert((from, to), 1));
        }
        Ok(was)
    }

    fn remove_edge(&mut self, from: usize, to: usize) -> (r: Result<bool, GraphError>) {
        if from >= self.count || to >= self.count {
            return Err(GraphError::IndexOutOfRange);
        }
        let was = self.set_edge_of_both(from, to, 0) > 0;
        proof {
            assert(self@.edges =~= old(self)@.edges.remove((from, to)));
        }
        Ok(was)
    }

    fn get_edge(&self, from: usize, to: usize) -> (r: Result<Option<EdgeMeta<u8>>, GraphError>) {
        if from >= self.count || to >= self.count {
            return Err(GraphError::IndexOutOfRange);
        }
        let weight = if self.edges[from].len() == 0 {
            0
        } else {
            self.edges[from][to]
        };
        if weight > 0 {
            Ok(Some(EdgeMeta { source: from, destination: to, weight }))
        } else {
            Ok(None)
        }
    }

    fn outgoing_edges_of(&self, node_index: usize) -> (r: Result<Vec<usize>, GraphError>) {
        if node_index >= self.count {
            return Err(GraphError::IndexOutOfRange);
        }
        let out = row_of(&self.edges, self.capacity, node_index, self.count);
        proof {
            lemma_ascending_where_agree(
                self.count as nat,
                |i: usize| byte_in(self.edges@, node_index, i) > 0,
                |to: usize| self@.edges.contains_key((node_index, to)),
            );
        }
        Ok(out)
    }

    fn incoming_edges_of(&self, node_index: usize) -> (r: Result<Vec<usize>, GraphError>) {
        if node_index >= self.count {
            return Err(GraphError::IndexOutOfRange);
        }
        let out = row_of(&self.edges_transpose, self.capacity, node_index, self.count);
        proof {
            assert forall|from: usize| from < self.count implies (byte_in(
                self.edges_transpose@,
                node_index,
                from,
            ) > 0) == self@.edges.contains_key((from, node_index)) by {
                assert(byte_in(self.edges@, from, node_index) == byte_in(
                    self.edges_transpose@,
                    node_index,
                    from,
                ));
            }
            lemma_ascending_where_agree(
                self.count as nat,
                |i: usize| byte_in(self.edges_transpose@, node_index, i) > 0,
                |from: usize| self@.edges.contains_key((from, node_index)),
            );
        }
        Ok(out)
    }

    fn push_node(&mut self, value: u64) -> (r: Result<usize, GraphError>) {
        if self.count >= self.capacity {
            return Err(GraphError::CapacityExceeded);
        }
        self.count += 1;
        self.nodes.push(value);
        proof {
            assert(self@.edges =~= old(self)@.edges);
        }
        Ok(self.nodes.len() - 1)
    }

    fn has_edge(&self, from: usize, to: usize) -> (r: Result<bool, GraphError>) {
        if from >= self.count || to >= self.count {
            return Err(GraphError::IndexOutOfRange);
        }
        if self.edges[from].len() == 0 {
            Ok(false)
        } else {
            Ok(self.edges[from][to] > 0)
        }
    }

    fn set_node(&mut self, _node_index: usize, _value: u64) -> (r: Result<(), GraphError>) {
        Err(GraphError::UnsupportedOperation)
    }

    fn get_node(&self, _node_index: usize) -> (r: Result<&u64, GraphError>) {
        Err(GraphError::UnsupportedOperation)
    }

    fn remove_node(&mut self, _node_index: usize) -> (r: Result<u64, GraphError>) {
        Err(GraphError::UnsupportedOperation)
    }

    #[inline]
    fn node_count(&self) -> (count: usize) {
        self.count
    }

    fn set_edge(&mut self, from_to: (usize, usize), weight: u8) -> (r: Result<bool, GraphError>) {
        if from_to.0 >= self.count || from_to.1 >= self.count {
            return Err(GraphError::IndexOutOfRange);
        }
        let was = self.set_edge_of_both(from_to.0, from_to.1, weight) > 0;
        proof {
            if weight > 0 {
                assert(self@.edges =~= old(self)@.edges.insert(from_to, weight));
            } else {
                assert(self@.edges =~= old(self)@.edges.remove(from_to));
            }
        }
        Ok(was)
    }

    fn set_count(&mut self, count: usize) -> (r: Result<(), GraphError>) {
        if count > self.capacity {
            return Err(GraphError::CapacityExceeded);
        }
        self.count = count;
        proof {
            assert(self@.edges =~= old(self)@.edges);
        }
        Ok(())
    }
}

} // verus!
