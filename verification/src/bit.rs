//! The bit-packed adjacency matrix: one bit for every ordered pair of nodes,
//! stored least significant bit first in an array of machine words, with a
//! second array that holds the transposed matrix.
//!
//! The bit of the pair `(from, to)` has the address `capacity * from + to`, so
//! the bits of one row lie side by side and a row begins and ends wherever its
//! addresses fall, mostly in the middle of a word.
use crate::model::{
    ascending_where, lemma_ascending_unique, lemma_ascending_where_agree, strictly_ascending,
    GraphModel,
};
use crate::{EdgeMeta, Graph, GraphError, NodeOp};
use layout::{cell, lemma_cell_bound, lemma_cell_unique};
use vstd::prelude::*;
use word::{bit_at, lemma_bit_logic, lemma_lowest_set_bit, lemma_position_unique};
use word::{lemma_word_position, lemma_zero_word, lowest_set_bit};

pub mod layout;
pub mod word;

pub use word::{
    bool_to_mask, clear_lowest_set_bit, get_bit, mask_n_bits, set_bit, single_bit_mask,
    toggle_bit, unset_bit, WORD_BITS,
};

verus! {

/// The capacity of a graph made by `new`.
const DEFAULT_CAPACITY: usize = 16;

/// The bit at address `addr` of an array of words.
pub open spec fn bit_of(words: Seq<usize>, addr: usize) -> bool {
    bit_at(words[(addr / WORD_BITS) as int], addr % WORD_BITS)
}

/// The bits behind the last cell of a matrix of side `capacity` are clear.
pub open spec fn padding_clear(words: Seq<usize>, capacity: usize) -> bool {
    forall|addr: usize|
        capacity * capacity <= addr && addr / WORD_BITS < words.len() ==> !#[trigger] bit_of(
            words,
            addr,
        )
}

/// What can be done to one bit.
#[derive(Clone, Copy)]
pub enum BitOp {
    SetBit,
    UnsetBit,
    ToggleBit,
}

impl BitOp {
    /// The value of a bit after the operation, from its value before.
    pub open spec fn outcome(self, bit: bool) -> bool {
        match self {
            BitOp::SetBit => true,
            BitOp::UnsetBit => false,
            BitOp::ToggleBit => !bit,
        }
    }

    /// `word` with the operation applied to bit `offset`.
    pub fn apply(self, word: usize, offset: usize) -> (changed: usize)
        requires
            offset < WORD_BITS,
        ensures
            forall|j: usize|
                j < WORD_BITS ==> #[trigger] bit_at(changed, j) == (if j == offset {
                    self.outcome(bit_at(word, j))
                } else {
                    bit_at(word, j)
                }),
    {
        match self {
            BitOp::SetBit => set_bit(word, offset),
            BitOp::UnsetBit => unset_bit(word, offset),
            BitOp::ToggleBit => toggle_bit(word, offset),
        }
    }
}

/// The set bits among the `width` bits that begin at address `first`, as their
/// distances from `first`, ascending.
///
/// The row begins in the middle of its first word and ends in the middle of
/// its last: the bits outside it are masked off. In what is left of a word the
/// lowest set bit is found by counting trailing zeros and then cleared, so no
/// clear bit is looked at by itself.
pub fn scan_row(words: &Vec<usize>, first: usize, width: usize) -> (out: Vec<usize>)
    requires
        first + width <= usize::MAX,
        (first + width) / (WORD_BITS as int) < words.len(),
    ensures
        out@ == ascending_where(width as nat, |j: usize| bit_of(words@, (first + j) as usize)),
{
    let start = first / WORD_BITS;
    let start_offset = first % WORD_BITS;
    let end = (first + width) / WORD_BITS;
    let end_offset = (first + width) % WORD_BITS;
    let ghost last = (first + width) as usize;
    let ghost keep = |j: usize| bit_of(words@, (first + j) as usize);

    proof {
        lemma_word_position(first);
        lemma_word_position(last);
        vstd::arithmetic::div_mod::lemma_div_is_ordered(
            first as int,
            last as int,
            WORD_BITS as int,
        );
    }

    let mut index = start;

    // The first word of the row loses its bits below the start offset, and,
    // where the row is one word wide, those from the end offset on as well.
    let head = mask_n_bits(start_offset);
    let tail = mask_n_bits(end_offset);
    let inner = bool_to_mask(index != end);
    let mut word = words[index] & (head & (!tail | inner));

    let mut out: Vec<usize> = Vec::new();
    let ghost mut low: int = 0;
    proof {
        assert forall|b: usize| b < WORD_BITS implies #[trigger] bit_at(word, b) == (first
            <= WORD_BITS * index + b < last && bit_at(words@[index as int], b)) by {
            lemma_bit_logic(tail, 0, b);
            lemma_bit_logic(!tail, inner, b);
            lemma_bit_logic(head, !tail | inner, b);
            lemma_bit_logic(words@[index as int], head & (!tail | inner), b);
            if index != end {
                assert(WORD_BITS * index + WORD_BITS <= WORD_BITS * end) by (nonlinear_arith)
                    requires
                        index < end,
                ;
            }
        }
    }
    loop
        invariant
            first + width == last <= usize::MAX,
            start == first / WORD_BITS,
            start_offset == first % WORD_BITS,
            end == last / WORD_BITS,
            end_offset == last % WORD_BITS,
            first == WORD_BITS * start + start_offset,
            last == WORD_BITS * end + end_offset,
            start_offset < WORD_BITS,
            end_offset < WORD_BITS,
            start <= index <= end < words.len(),
            0 <= low <= WORD_BITS,
            forall|b: usize| b < WORD_BITS ==> #[trigger] bit_at(tail, b) == (b >= end_offset),
            keep == |j: usize| bit_of(words@, (first + j) as usize),
            forall|b: usize|
                b < WORD_BITS ==> #[trigger] bit_at(word, b) == (b >= low && first <= WORD_BITS
                    * index + b < last && bit_at(words@[index as int], b)),
            strictly_ascending(out@),
            forall|i: int|
                0 <= i < out@.len() ==> (#[trigger] out@[i]) < width && keep(out@[i]) && first
                    + out@[i] < WORD_BITS * index + low,
            forall|j: usize|
                j < width && keep(j) && first + j < WORD_BITS * index + low ==> out@.contains(j),
        ensures
            word == 0,
            index == end,
        decreases end - index, WORD_BITS - low,
    {
        // If the word is empty, check for completion and get the next word.
        if word == 0x0 {
            proof {
                lemma_zero_word(word);
                assert forall|j: usize|
                    j < width && keep(j) && first + j < WORD_BITS * index
                        + WORD_BITS implies out@.contains(j) by {
                    let addr = (first + j) as usize;
                    if addr >= WORD_BITS * index + low {
                        lemma_word_position(addr);
                        let b = (addr - WORD_BITS * index) as usize;
                        lemma_position_unique(index as int, b as int);
                        assert(!bit_at(word, b));
                    }
                }
            }
            if index == end {
                break ;
            }
            index = index + 1;
            // The last word of the row loses its bits from the end offset on.
            let inner = bool_to_mask(index != end);
            word = words[index] & (!tail | inner);
            proof {
                low = 0;
                assert(WORD_BITS * index == WORD_BITS * (index - 1) + WORD_BITS) by (nonlinear_arith);
                assert(WORD_BITS * start + WORD_BITS <= WORD_BITS * index) by (nonlinear_arith)
                    requires
                        start < index,
                ;
                assert forall|b: usize| b < WORD_BITS implies #[trigger] bit_at(word, b) == (b
                    >= low && first <= WORD_BITS * index + b < last && bit_at(
                    words@[index as int],
                    b,
                )) by {
                    lemma_bit_logic(tail, 0, b);
                    lemma_bit_logic(!tail, inner, b);
                    lemma_bit_logic(words@[index as int], !tail | inner, b);
                    if index != end {
                        assert(WORD_BITS * index + WORD_BITS <= WORD_BITS * end)
                            by (nonlinear_arith)
                            requires
                                index < end,
                        ;
                    }
                }
            }
        } else {
            // The trailing zeros of the word give the place of the next edge.
            let trailing_zeros: usize = (word as u64).trailing_zeros() as usize;
            proof {
                lemma_lowest_set_bit(word);
                assert(trailing_zeros == lowest_set_bit(word));
                assert(bit_at(word, trailing_zeros));
                assert(WORD_BITS * (index - start) == WORD_BITS * index - WORD_BITS * start)
                    by (nonlinear_arith);
                assert(0 <= WORD_BITS * (index - start)) by (nonlinear_arith)
                    requires
                        start <= index,
                ;
            }
            // The destination counts from the start of the row, which lies
            // `start_offset` bits into the word `start`.
            let to = trailing_zeros + WORD_BITS * (index - start) - start_offset;
            let ghost shown = out@;
            out.push(to);
            let ghost old_word = word;
            // Clear the lowest set bit of the word.
            word = clear_lowest_set_bit(word);
            proof {
                let addr = (first + to) as usize;
                assert(addr == WORD_BITS * index + trailing_zeros);
                lemma_position_unique(index as int, trailing_zeros as int);
                assert(keep(to));
                assert forall|i: int, j: int| 0 <= i < j < out@.len() implies out@[i] < out@[j] by {
                    if j == shown.len() {
                        assert(first + shown[i] < WORD_BITS * index + low);
                    }
                }
                assert forall|j: usize|
                    j < width && keep(j) && first + j < WORD_BITS * index + trailing_zeros
                        + 1 implies out@.contains(j) by {
                    let a = (first + j) as usize;
                    if a == addr {
                        assert(out@[shown.len() as int] == j);
                    } else if a >= WORD_BITS * index + low {
                        lemma_word_position(a);
                        let b = (a - WORD_BITS * index) as usize;
                        lemma_position_unique(index as int, b as int);
                        assert(!bit_at(old_word, b));
                    } else {
                        assert(shown.contains(j));
                        let i = choose|i: int| 0 <= i < shown.len() && shown[i] == j;
                        assert(out@[i] == j);
                    }
                }
                low = trailing_zeros + 1;
            }
        }
    }
    proof {
        lemma_zero_word(word);
        assert forall|j: usize| j < width && keep(j) implies out@.contains(j) by {
            let a = (first + j) as usize;
            if a >= WORD_BITS * index + low {
                lemma_word_position(a);
                vstd::arithmetic::div_mod::lemma_div_is_ordered(
                    a as int,
                    last as int,
                    WORD_BITS as int,
                );
                assert(WORD_BITS * index <= a);
                let b = (a - WORD_BITS * index) as usize;
                assert(b < WORD_BITS) by {
                    assert(a < WORD_BITS * end + end_offset);
                }
                lemma_position_unique(index as int, b as int);
                assert(!bit_at(word, b));
            }
        }
        lemma_ascending_unique(out@, width as nat, keep);
    }
    out
}

/// The word that holds the bit of the pair `(from, to)` in a matrix of side
/// `capacity`, and the bit's offset in that word.
///
/// The row begins `capacity * from` bits into the array and the column lies
/// `to` bits into the row. Both are split into words and offsets, and where
/// the two offsets together fill a word, the bit lies one word further.
fn place_of(capacity: usize, from: usize, to: usize) -> (place: (usize, usize))
    requires
        capacity * capacity <= usize::MAX,
        from < capacity,
        to < capacity,
    ensures
        place.0 == (cell(capacity, from, to) as usize) / WORD_BITS,
        place.1 == (cell(capacity, from, to) as usize) % WORD_BITS,
        place.0 <= (capacity * capacity) / (WORD_BITS as int),
        place.1 < WORD_BITS,
{
    proof {
        lemma_cell_bound(capacity, from, to);
    }
    // Get the proper word.
    let row = (capacity * from) / WORD_BITS;
    let mut column = to / WORD_BITS;
    let mut offset = to % WORD_BITS + ((capacity * from) % WORD_BITS);

    if offset >= WORD_BITS {
        column += 1;
        offset -= WORD_BITS;
    }
    proof {
        let base = (capacity * from) as usize;
        lemma_word_position(base);
        lemma_word_position(to);
        vstd::arithmetic::mul::lemma_mul_is_distributive_add(
            WORD_BITS as int,
            (base / WORD_BITS) as int,
            (to / WORD_BITS) as int,
        );
        vstd::arithmetic::mul::lemma_mul_is_distributive_add(
            WORD_BITS as int,
            (base / WORD_BITS + to / WORD_BITS) as int,
            1,
        );
        lemma_position_unique(row + column, offset as int);
        vstd::arithmetic::div_mod::lemma_div_is_ordered(
            cell(capacity, from, to),
            capacity * capacity,
            WORD_BITS as int,
        );
    }
    (row + column, offset)
}

/// A directed graph stored as a bit matrix of fixed capacity. An edge is
/// present or absent: it carries no weight of its own, so its weight reads
/// `true`.
pub struct BitGraph {
    count: usize,
    capacity: usize,
    nodes: Vec<u64>,
    /// The adjacency matrix: rows are the nodes that edges leave, columns the
    /// nodes that they reach, one bit for each pair, `1` for an edge.
    edges: Vec<usize>,
    /// The same matrix with rows and columns exchanged.
    edges_transpose: Vec<usize>,
}

impl BitGraph {
    /// The number of nodes that the graph was made for.
    pub closed spec fn capacity(&self) -> nat {
        self.capacity as nat
    }

    /// The words of the adjacency matrix, row after row, as they are stored.
    pub closed spec fn words(&self) -> Seq<usize> {
        self.edges@
    }

    /// The bit of the pair `(from, to)` is set in the adjacency matrix.
    pub closed spec fn linked(&self, from: usize, to: usize) -> bool {
        from < self.capacity && to < self.capacity && bit_of(
            self.edges@,
            cell(self.capacity, from, to) as usize,
        )
    }

    /// The two matrices have room for `capacity * capacity` bits and mirror
    /// each other, and no more nodes are counted than there is room for.
    pub closed spec fn inv(&self) -> bool {
        &&& self.capacity * self.capacity <= usize::MAX
        &&& self.count <= self.capacity
        &&& self.edges@.len() == (self.capacity * self.capacity) / (WORD_BITS as int) + 1
        &&& self.edges_transpose@.len() == self.edges@.len()
        &&& padding_clear(self.edges@, self.capacity)
        &&& padding_clear(self.edges_transpose@, self.capacity)
        &&& forall|from: usize, to: usize|
            from < self.capacity && to < self.capacity ==> bit_of(
                self.edges@,
                #[trigger] cell(self.capacity, from, to) as usize,
            ) == bit_of(self.edges_transpose@, cell(self.capacity, to, from) as usize)
    }

    /// The stored words hold the edge of the pair `(from, to)` in the bit with
    /// the address `capacity * from + to`.
    pub proof fn lemma_layout(&self, from: usize, to: usize)
        requires
            self.wf(),
            from < self.capacity(),
            to < self.capacity(),
        ensures
            self.capacity() * from + to <= usize::MAX,
            (self.capacity() * from + to) / (WORD_BITS as int) < self.words().len(),
            self@.edges.contains_key((from, to)) == bit_of(
                self.words(),
                (self.capacity() * from + to) as usize,
            ),
    {
        self.lemma_cell(from, to);
    }

    /// There are just enough words for the `capacity * capacity` bits of the
    /// matrix and one more, and the bits behind the matrix are clear.
    pub proof fn lemma_padding(&self)
        requires
            self.wf(),
        ensures
            self.words().len() == (self.capacity() * self.capacity()) as int / (WORD_BITS as int) + 1,
            padding_clear(self.words(), self.capacity() as usize),
    {
    }

    /// The words of the adjacency matrix as they are stored, for a caller that
    /// shares the raw bits.
    pub fn as_words(&self) -> (words: &Vec<usize>)
        ensures
            words@ == self.words(),
    {
        &self.edges
    }

    /// A graph with room for 16 nodes.
    pub fn new() -> (graph: BitGraph)
        ensures
            graph.wf(),
            graph.capacity() == 16,
            graph.node_limit() == 16,
            graph@ == GraphModel::<u64, bool>::empty(),
    {
        Self::with_capacity(DEFAULT_CAPACITY)
    }

    /// A graph with room for `size` nodes, without nodes and edges.
    pub fn with_capacity(size: usize) -> (graph: BitGraph)
        requires
            size * size <= usize::MAX,
        ensures
            graph.wf(),
            graph.capacity() == size,
            graph.node_limit() == size,
            graph@ == GraphModel::<u64, bool>::empty(),
    {
        let graph = BitGraph {
            count: 0,
            capacity: size,
            nodes: Vec::with_capacity(size),
            edges: vec![0; (size * size) / WORD_BITS + 1],
            edges_transpose: vec![0; (size * size) / WORD_BITS + 1],
        };
        proof {
            assert forall|from: usize, to: usize| from < size && to < size implies !bit_of(
                graph.edges@,
                #[trigger] cell(size, from, to) as usize,
            ) && !bit_of(graph.edges_transpose@, cell(size, to, from) as usize) by {
                graph.lemma_cell_in_words(from, to);
                graph.lemma_cell_in_words(to, from);
                lemma_zero_word(0);
                lemma_word_position(cell(size, from, to) as usize);
                lemma_word_position(cell(size, to, from) as usize);
            }
            assert forall|addr: usize| addr / WORD_BITS < graph.edges@.len() implies !bit_of(
                graph.edges@,
                addr,
            ) && !bit_of(graph.edges_transpose@, addr) by {
                lemma_zero_word(0);
                lemma_word_position(addr);
            }
            assert(graph@.edges =~= Map::<(usize, usize), bool>::empty()) by {
                assert forall|pair: (usize, usize)| !graph@.edges.contains_key(pair) by {
                    if pair.0 < size && pair.1 < size {
                        assert(!bit_of(graph.edges@, cell(size, pair.0, pair.1) as usize));
                    }
                }
            }
            assert(graph.nodes@ =~= Seq::<u64>::empty());
        }
        graph
    }

    /// The address of a cell fits a machine word and lies in a stored word.
    proof fn lemma_cell_in_words(&self, from: usize, to: usize)
        requires
            self.capacity * self.capacity <= usize::MAX,
            self.edges@.len() == (self.capacity * self.capacity) / (WORD_BITS as int) + 1,
            from < self.capacity,
            to < self.capacity,
        ensures
            0 <= self.capacity * from,
            self.capacity * from + self.capacity <= self.capacity * self.capacity,
            0 <= cell(self.capacity, from, to) < self.capacity * self.capacity,
            0 <= cell(self.capacity, from, to) / (WORD_BITS as int) < self.edges@.len(),
    {
        lemma_cell_bound(self.capacity, from, to);
        let addr = cell(self.capacity, from, to);
        vstd::arithmetic::div_mod::lemma_div_is_ordered(
            addr,
            self.capacity * self.capacity,
            WORD_BITS as int,
        );
        lemma_word_position(addr as usize);
    }

    /// What the invariant says of one cell.
    proof fn lemma_cell(&self, from: usize, to: usize)
        requires
            self.inv(),
            from < self.capacity,
            to < self.capacity,
        ensures
            0 <= self.capacity * from,
            self.capacity * from + self.capacity <= self.capacity * self.capacity,
            0 <= cell(self.capacity, from, to) < self.capacity * self.capacity <= usize::MAX,
            0 <= cell(self.capacity, from, to) / (WORD_BITS as int) < self.edges@.len(),
            self.edges_transpose@.len() == self.edges@.len(),
            self@.edges.contains_key((from, to)) == bit_of(
                self.edges@,
                cell(self.capacity, from, to) as usize,
            ),
            bit_of(self.edges@, cell(self.capacity, from, to) as usize) == bit_of(
                self.edges_transpose@,
                cell(self.capacity, to, from) as usize,
            ),
    {
        self.lemma_cell_in_words(from, to);
    }

    /// The word that holds the bit of the pair `(from, to)`, and the bit's
    /// offset in that word.
    fn locate(&self, from: usize, to: usize) -> (place: (usize, usize))
        requires
            self.inv(),
            from < self.capacity,
            to < self.capacity,
        ensures
            place.0 == (cell(self.capacity, from, to) as usize) / WORD_BITS,
            place.1 == (cell(self.capacity, from, to) as usize) % WORD_BITS,
            place.0 < self.edges@.len(),
            place.1 < WORD_BITS,
            self.linked(from, to) == bit_at(self.edges@[place.0 as int], place.1),
    {
        proof {
            self.lemma_cell(from, to);
        }
        place_of(self.capacity, from, to)
    }

    /// Applies `op` to the bit of the pair `(from, to)` in both matrices and
    /// returns whether the bit was set before.
    fn set_edge_of_both(&mut self, from: usize, to: usize, op: BitOp) -> (was: bool)
        requires
            old(self).inv(),
            from < old(self).capacity,
            to < old(self).capacity,
        ensures
            final(self).inv(),
            final(self).capacity == old(self).capacity,
            final(self).count == old(self).count,
            final(self).nodes == old(self).nodes,
            was == old(self).linked(from, to),
            final(self).linked(from, to) == op.outcome(was),
            forall|a: usize, b: usize|
                (a, b) != (from, to) ==> final(self).linked(a, b) == old(self).linked(a, b),
    {
        let (at, offset) = self.locate(from, to);
        let word = self.edges[at];
        let new_word = op.apply(word, offset);
        self.edges[at] = new_word;
        proof {
            self.lemma_edges_changed(*old(self), from, to, at as int, new_word);
        }
        self.set_edge_of_transpose(to, from, op, Ghost(*old(self)));
        get_bit(word, offset)
    }

    /// After the word that holds the bit of `(from, to)` was replaced by one
    /// that differs in that bit at most, the other bits of the matrix are as
    /// they were.
    proof fn lemma_edges_changed(&self, before: Self, from: usize, to: usize, at: int, word: usize)
        requires
            before.inv(),
            from < before.capacity,
            to < before.capacity,
            at == (cell(before.capacity, from, to) as usize) / WORD_BITS,
            self.edges@ == before.edges@.update(at, word),
            self.capacity == before.capacity,
            forall|j: usize|
                j < WORD_BITS && j != (cell(before.capacity, from, to) as usize) % WORD_BITS
                    ==> #[trigger] bit_at(word, j) == bit_at(before.edges@[at], j),
        ensures
            forall|a: usize, b: usize|
                a < self.capacity && b < self.capacity && (a, b) != (from, to) ==> bit_of(
                    self.edges@,
                    #[trigger] cell(self.capacity, a, b) as usize,
                ) == bit_of(before.edges@, cell(self.capacity, a, b) as usize),
            bit_of(self.edges@, cell(self.capacity, from, to) as usize) == bit_at(
                word,
                (cell(self.capacity, from, to) as usize) % WORD_BITS,
            ),
            padding_clear(self.edges@, self.capacity),
    {
        let target = cell(before.capacity, from, to) as usize;
        before.lemma_cell(from, to);
        lemma_word_position(target);
        assert forall|addr: usize|
            self.capacity * self.capacity <= addr && addr / WORD_BITS
                < self.edges@.len() implies !#[trigger] bit_of(self.edges@, addr) by {
            lemma_word_position(addr);
            assert(!bit_of(before.edges@, addr));
        }
        assert forall|a: usize, b: usize|
            a < self.capacity && b < self.capacity && (a, b) != (from, to) implies bit_of(
            self.edges@,
            #[trigger] cell(self.capacity, a, b) as usize,
        ) == bit_of(before.edges@, cell(self.capacity, a, b) as usize) by {
            let addr = cell(self.capacity, a, b) as usize;
            before.lemma_cell(a, b);
            lemma_word_position(addr);
            if addr / WORD_BITS == at {
                if addr % WORD_BITS == target % WORD_BITS {
                    assert(addr == target);
                    lemma_cell_unique(self.capacity, a, b, from, to);
                }
            }
        }
    }

    /// Applies `op` to the bit of the pair `(from, to)` in the transposed
    /// matrix, after the bit of `(to, from)` in the adjacency matrix was
    /// changed in the same way. `before` is the graph before either change.
    fn set_edge_of_transpose(&mut self, from: usize, to: usize, op: BitOp, Ghost(before): Ghost<Self>)
        requires
            before.inv(),
            from < before.capacity,
            to < before.capacity,
            old(self).capacity == before.capacity,
            old(self).count == before.count,
            old(self).nodes == before.nodes,
            old(self).edges_transpose == before.edges_transpose,
            old(self).edges@.len() == before.edges@.len(),
            padding_clear(old(self).edges@, before.capacity),
            forall|a: usize, b: usize|
                a < before.capacity && b < before.capacity && (a, b) != (to, from) ==> bit_of(
                    old(self).edges@,
                    #[trigger] cell(before.capacity, a, b) as usize,
                ) == bit_of(before.edges@, cell(before.capacity, a, b) as usize),
            bit_of(old(self).edges@, cell(before.capacity, to, from) as usize) == op.outcome(
                bit_of(before.edges@, cell(before.capacity, to, from) as usize),
            ),
        ensures
            final(self).inv(),
            final(self).capacity == before.capacity,
            final(self).count == before.count,
            final(self).nodes == before.nodes,
            final(self).edges == old(self).edges,
    {
        proof {
            before.lemma_cell(from, to);
            before.lemma_cell(to, from);
        }
        let (at, offset) = place_of(self.capacity, from, to);

        let word = self.edges_transpose[at];

        let new_word = op.apply(word, offset);

        self.edges_transpose[at] = new_word;

        proof {
            let target = cell(before.capacity, from, to) as usize;
            lemma_word_position(target);
            assert forall|addr: usize|
                self.capacity * self.capacity <= addr && addr / WORD_BITS
                    < self.edges_transpose@.len() implies !#[trigger] bit_of(
                self.edges_transpose@,
                addr,
            ) by {
                lemma_word_position(addr);
                assert(!bit_of(before.edges_transpose@, addr));
            }
            assert forall|a: usize, b: usize|
                a < self.capacity && b < self.capacity implies bit_of(
                self.edges@,
                #[trigger] cell(self.capacity, a, b) as usize,
            ) == bit_of(self.edges_transpose@, cell(self.capacity, b, a) as usize) by {
                let addr = cell(self.capacity, b, a) as usize;
                before.lemma_cell(a, b);
                before.lemma_cell(b, a);
                lemma_word_position(addr);
                if addr / WORD_BITS == at && addr % WORD_BITS == offset {
                    assert(addr == target);
                    lemma_cell_unique(self.capacity, b, a, from, to);
                }
            }
        }
    }
}

/// An edge is there or not: the weight `false` stands for "no edge". No more
/// nodes fit than the capacity, and none of the node operations is offered.
impl Graph<u64, bool> for BitGraph {
    closed spec fn view(&self) -> GraphModel<u64, bool> {
        GraphModel {
            count: self.count as nat,
            nodes: self.nodes@,
            edges: Map::new(|pair: (usize, usize)| self.linked(pair.0, pair.1), |pair| true),
        }
    }

    closed spec fn wf(&self) -> bool {
        self.inv()
    }

    closed spec fn node_limit(&self) -> nat {
        self.capacity as nat
    }

    open spec fn edge_room(&self) -> bool {
        true
    }

    open spec fn default_weight() -> bool {
        true
    }

    open spec fn makes_edge(weight: bool) -> bool {
        weight
    }

    open spec fn offers(op: NodeOp) -> bool {
        false
    }

    open spec fn vacant() -> u64 {
        0
    }

    proof fn lemma_wf(&self) {
        vstd::std_specs::vec::axiom_spec_len(&self.nodes);
    }

    fn add_edge(&mut self, from: usize, to: usize) -> (r: Result<bool, GraphError>) {
        if from >= self.count || to >= self.count {
            return Err(GraphError::IndexOutOfRange);
        }
        let was = self.set_edge_of_both(from, to, BitOp::SetBit);
        proof {
            assert(self@.edges =~= old(self)@.edges.insert((from, to), true));
        }
        Ok(was)
    }

    fn remove_edge(&mut self, from: usize, to: usize) -> (r: Result<bool, GraphError>) {
        if from >= self.count || to >= self.count {
            return Err(GraphError::IndexOutOfRange);
        }
        let was = self.set_edge_of_both(from, to, BitOp::UnsetBit);
        proof {
            assert(self@.edges =~= old(self)@.edges.remove((from, to)));
        }
        Ok(was)
    }

    fn has_edge(&self, from: usize, to: usize) -> (r: Result<bool, GraphError>) {
        if from >= self.count || to >= self.count {
            return Err(GraphError::IndexOutOfRange);
        }
        let (at, offset) = self.locate(from, to);

        let word = self.edges[at];

        Ok(get_bit(word, offset))
    }

    fn outgoing_edges_of(&self, node_index: usize) -> (r: Result<Vec<usize>, GraphError>) {
        if node_index >= self.count {
            return Err(GraphError::IndexOutOfRange);
        }
        proof {
            self.lemma_row(node_index);
        }
        let out = scan_row(&self.edges, self.capacity * node_index, self.count);
        proof {
            let first = (self.capacity * node_index) as usize;
            lemma_ascending_where_agree(
                self.count as nat,
                |j: usize| bit_of(self.edges@, (first + j) as usize),
                |to: usize| self@.edges.contains_key((node_index, to)),
            );
        }
        Ok(out)
    }

    fn incoming_edges_of(&self, node_index: usize) -> (r: Result<Vec<usize>, GraphError>) {
        if node_index >= self.count {
            return Err(GraphError::IndexOutOfRange);
        }
        proof {
            self.lemma_row(node_index);
        }
        let out = scan_row(&self.edges_transpose, self.capacity * node_index, self.count);
        proof {
            let first = (self.capacity * node_index) as usize;
            assert forall|from: usize| from < self.count implies bit_of(
                self.edges_transpose@,
                (first + from) as usize,
            ) == self@.edges.contains_key((from, node_index)) by {
                self.lemma_cell(from, node_index);
                assert(cell(self.capacity, node_index, from) == first + from);
            }
            lemma_ascending_where_agree(
                self.count as nat,
                |j: usize| bit_of(self.edges_transpose@, (first + j) as usize),
                |from: usize| self@.edges.contains_key((from, node_index)),
            );
        }
        Ok(out)
    }

    fn push_node(&mut self, value: u64) -> (r: Result<usize, GraphError>) {
        if self.count >= self.capacity {
            return Err(GraphError::CapacityExceeded);
        }
        self.count += 1;
        self.nodes.push(value);
        proof {
            assert(self@.edges =~= old(self)@.edges);
        }
        Ok(self.nodes.len() - 1)
    }

    fn set_node(&mut self, _node_index: usize, _value: u64) -> (r: Result<(), GraphError>) {
        Err(GraphError::UnsupportedOperation)
    }

    fn get_node(&self, _node_index: usize) -> (r: Result<&u64, GraphError>) {
        Err(GraphError::UnsupportedOperation)
    }

    fn remove_node(&mut self, _node_index: usize) -> (r: Result<u64, GraphError>) {
        Err(GraphError::UnsupportedOperation)
    }

    fn get_edge(&self, from: usize, to: usize) -> (r: Result<Option<EdgeMeta<bool>>, GraphError>) {
        if from >= self.count || to >= self.count {
            return Err(GraphError::IndexOutOfRange);
        }
        let (at, offset) = self.locate(from, to);

        let word = self.edges[at];

        if get_bit(word, offset) {
            Ok(Some(EdgeMeta { source: from, destination: to, weight: true }))
        } else {
            Ok(None)
        }
    }

    #[inline]
    fn node_count(&self) -> (count: usize) {
        self.count
    }

    fn set_count(&mut self, count: usize) -> (r: Result<(), GraphError>) {
        if count > self.capacity {
            return Err(GraphError::CapacityExceeded);
        }
        self.count = count;
        proof {
            assert(self@.edges =~= old(self)@.edges);
        }
        Ok(())
    }

    fn set_edge(&mut self, from_to: (usize, usize), weight: bool) -> (r: Result<
        bool,
        GraphError,
    >) {
        if weight {
            self.add_edge(from_to.0, from_to.1)
        } else {
            self.remove_edge(from_to.0, from_to.1)
        }
    }
}

impl BitGraph {
    /// The row of a node lies within the stored words, and its bits are the
    /// edges that leave the node.
    proof fn lemma_row(&self, node_index: usize)
        requires
            self.inv(),
            node_index < self.count,
        ensures
            0 <= self.capacity * node_index,
            self.capacity * node_index + self.count <= usize::MAX,
            (self.capacity * node_index + self.count) / (WORD_BITS as int) < self.edges@.len(),
            self.edges_transpose@.len() == self.edges@.len(),
            forall|to: usize|
                to < self.count ==> bit_of(
                    self.edges@,
                    (self.capacity * node_index + to) as usize,
                ) == self@.edges.contains_key((node_index, to)),
    {
        lemma_cell_bound(self.capacity, node_index, 0);
        let end = self.capacity * node_index + self.count;
        vstd::arithmetic::div_mod::lemma_div_is_ordered(
            end,
            self.capacity * self.capacity,
            WORD_BITS as int,
        );
        assert forall|to: usize| to < self.count implies bit_of(
            self.edges@,
            (self.capacity * node_index + to) as usize,
        ) == self@.edges.contains_key((node_index, to)) by {
            self.lemma_cell(node_index, to);
        }
    }
}

} // verus!
