use bit_graph::bit::{
    bool_to_mask, clear_lowest_set_bit, get_bit, mask_n_bits, scan_row, set_bit, single_bit_mask,
    toggle_bit, unset_bit, BitOp, WORD_BITS,
};
use bit_graph::BitGraph;
use bit_graph::{Graph, GraphError};

fn filled(capacity: Option<usize>, values: std::ops::Range<u64>) -> BitGraph {
    let mut graph = match capacity {
        Some(capacity) => BitGraph::with_capacity(capacity),
        None => BitGraph::new(),
    };
    for i in values {
        graph.push_node(i).unwrap();
    }
    graph
}

#[test]
fn mod_it_works() {
    let mut graph = filled(None, 1..16);

    graph.add_edge(0, 1).unwrap();

    graph.add_edge(2, 0).unwrap();

    assert!(graph.has_edge(2, 0).unwrap());
    assert!(!graph.has_edge(4, 3).unwrap());
}

#[test]
fn mod_outgoing_edges_test() {
    let mut graph = filled(None, 1..16);

    graph.add_edge(0, 1).unwrap();

    graph.add_edge(2, 0).unwrap();

    assert!(graph.outgoing_edges_of(0).unwrap().len() == 1);
    assert!(graph.outgoing_edges_of(4).unwrap().len() == 0);

    graph.add_edge(10, 2).unwrap();
    graph.add_edge(10, 3).unwrap();
    graph.add_edge(10, 4).unwrap();
    graph.add_edge(10, 5).unwrap();
    graph.add_edge(10, 6).unwrap();
    graph.add_edge(10, 7).unwrap();
    graph.add_edge(10, 8).unwrap();
    graph.add_edge(10, 9).unwrap();

    assert!(graph.outgoing_edges_of(10).unwrap().len() == 8);
    assert_eq!(graph.outgoing_edges_of(10).unwrap(), vec![2, 3, 4, 5, 6, 7, 8, 9]);

    graph.add_edge(10, 5).unwrap();
    graph.add_edge(10, 5).unwrap();
    graph.add_edge(10, 5).unwrap();
    assert!(graph.outgoing_edges_of(10).unwrap().len() == 8);
    assert_eq!(graph.outgoing_edges_of(10).unwrap(), vec![2, 3, 4, 5, 6, 7, 8, 9]);
}

#[test]
fn mod_strange_outgoing_edges_test() {
    let mut graph = filled(Some(521), 1..510);

    graph.add_edge(500, 402).unwrap();

    graph.add_edge(2, 0).unwrap();

    assert!(graph.outgoing_edges_of(500).unwrap().len() == 1);
    assert!(graph.outgoing_edges_of(4).unwrap().len() == 0);

    graph.add_edge(10, 2).unwrap();
    graph.add_edge(10, 3).unwrap();
    graph.add_edge(10, 4).unwrap();
    graph.add_edge(10, 5).unwrap();
    graph.add_edge(10, 6).unwrap();
    graph.add_edge(10, 7).unwrap();
    graph.add_edge(10, 8).unwrap();
    graph.add_edge(10, 9).unwrap();

    assert!(graph.outgoing_edges_of(10).unwrap().len() == 8);
    assert_eq!(graph.outgoing_edges_of(10).unwrap(), vec![2, 3, 4, 5, 6, 7, 8, 9]);

    graph.add_edge(10, 5).unwrap();
    graph.add_edge(10, 5).unwrap();
    graph.add_edge(10, 5).unwrap();
    assert!(graph.outgoing_edges_of(10).unwrap().len() == 8);
    assert_eq!(graph.outgoing_edges_of(10).unwrap(), vec![2, 3, 4, 5, 6, 7, 8, 9]);
}

#[test]
fn mod_large_outgoing_edges_test() {
    let mut graph = filled(Some(100_000), 0..100_000);

    graph.add_edge(500, 402).unwrap();

    graph.add_edge(2, 0).unwrap();

    assert!(graph.outgoing_edges_of(500).unwrap().len() == 1);
    assert!(graph.outgoing_edges_of(4).unwrap().len() == 0);

    graph.add_edge(10, 2).unwrap();
    graph.add_edge(10, 3).unwrap();
    graph.add_edge(10, 4).unwrap();
    graph.add_edge(10, 5).unwrap();
    graph.add_edge(10, 6).unwrap();
    graph.add_edge(10, 7).unwrap();
    graph.add_edge(10, 8).unwrap();
    graph.add_edge(10, 9).unwrap();

    assert!(graph.outgoing_edges_of(10).unwrap().len() == 8);
    assert_eq!(graph.outgoing_edges_of(10).unwrap(), vec![2, 3, 4, 5, 6, 7, 8, 9]);

    graph.add_edge(10, 5).unwrap();
    graph.add_edge(10, 5).unwrap();
    graph.add_edge(10, 5).unwrap();
    assert!(graph.outgoing_edges_of(10).unwrap().len() == 8);
    assert_eq!(graph.outgoing_edges_of(10).unwrap(), vec![2, 3, 4, 5, 6, 7, 8, 9]);

    graph.add_edge(0, 200).unwrap();
    assert!(graph.outgoing_edges_of(0).unwrap().len() == 1);
}

#[test]
fn mod_large_incoming_edges_test() {
    let mut graph = filled(Some(100_000), 0..100_000);

    graph.add_edge(0, 1).unwrap();

    graph.add_edge(2, 0).unwrap();

    assert!(graph.incoming_edges_of(1).unwrap().len() == 1);
    assert!(graph.incoming_edges_of(4).unwrap().len() == 0);

    graph.add_edge(2, 1).unwrap();
    graph.add_edge(3, 1).unwrap();
    graph.add_edge(4, 1).unwrap();
    graph.add_edge(5, 1).unwrap();
    graph.add_edge(7, 1).unwrap();

    assert!(graph.incoming_edges_of(1).unwrap().len() == 6);
    assert_eq!(graph.incoming_edges_of(1).unwrap(), vec![0, 2, 3, 4, 5, 7]);
}

#[test]
fn mod_incoming_edges_test() {
    let mut graph = filled(None, 1..16);

    graph.add_edge(0, 1).unwrap();

    graph.add_edge(2, 0).unwrap();

    assert!(graph.incoming_edges_of(1).unwrap().len() == 1);
    assert!(graph.incoming_edges_of(4).unwrap().len() == 0);

    graph.add_edge(2, 1).unwrap();
    graph.add_edge(3, 1).unwrap();
    graph.add_edge(4, 1).unwrap();
    graph.add_edge(5, 1).unwrap();
    graph.add_edge(7, 1).unwrap();

    assert!(graph.incoming_edges_of(1).unwrap().len() == 6);
    assert_eq!(graph.incoming_edges_of(1).unwrap(), vec![0, 2, 3, 4, 5, 7]);
}

#[test]
fn all_edges_test() {
    let mut graph = filled(None, 1..16);

    graph.add_edge(0, 1).unwrap();

    graph.add_edge(2, 0).unwrap();

    assert!(graph.incoming_edges_of(1).unwrap().len() == 1);
    assert!(graph.incoming_edges_of(4).unwrap().len() == 0);

    graph.add_edge(2, 1).unwrap();
    graph.add_edge(3, 1).unwrap();
    graph.add_edge(4, 1).unwrap();
    graph.add_edge(5, 1).unwrap();
    graph.add_edge(7, 1).unwrap();

    assert!(graph.incoming_edges_of(1).unwrap().len() == 6);
    assert_eq!(graph.incoming_edges_of(1).unwrap(), vec![0, 2, 3, 4, 5, 7]);

    println!("{:#?}", graph.all_edge_pairs());
    assert!(graph.all_edge_pairs().len() == 7);
    assert_eq!(
        graph.all_edge_pairs(),
        vec![(0, 1), (2, 0), (2, 1), (3, 1), (4, 1), (5, 1), (7, 1)]
    );
}

#[test]
fn demo_sequence_counts_degrees() {
    let mut graph = filled(Some(16), 0..15);

    graph.add_edge(0, 1).unwrap();
    graph.add_edge(2, 0).unwrap();

    assert!(graph.outgoing_edges_of(0).unwrap().len() == 1);
    assert!(graph.outgoing_edges_of(4).unwrap().len() == 0);

    for to in 2..10 {
        graph.add_edge(10, to).unwrap();
    }
    assert!(graph.outgoing_edges_of(10).unwrap().len() == 8);

    graph.add_edge(10, 5).unwrap();
    graph.add_edge(10, 5).unwrap();
    graph.add_edge(10, 5).unwrap();
    assert!(graph.outgoing_edges_of(10).unwrap().len() == 8);
}

#[test]
fn word_has_the_width_of_a_pointer() {
    assert_eq!(WORD_BITS, usize::BITS as usize);
    assert_eq!(WORD_BITS, std::mem::size_of::<usize>() * 8);
}

#[test]
fn single_bits_are_set_cleared_and_toggled() {
    assert_eq!(single_bit_mask(0), 1);
    assert_eq!(single_bit_mask(5), 32);
    assert_eq!(single_bit_mask(WORD_BITS - 1), 1usize << (WORD_BITS - 1));

    assert_eq!(set_bit(0, 3), 8);
    assert_eq!(set_bit(8, 3), 8);
    assert_eq!(set_bit(0b0101, 1), 0b0111);
    assert_eq!(unset_bit(0b0111, 1), 0b0101);
    assert_eq!(unset_bit(0b0101, 1), 0b0101);
    assert_eq!(toggle_bit(0b0101, 1), 0b0111);
    assert_eq!(toggle_bit(0b0111, 1), 0b0101);
    assert_eq!(set_bit(0, WORD_BITS - 1), 1usize << (WORD_BITS - 1));

    assert!(get_bit(0b0100, 2));
    assert!(!get_bit(0b0100, 1));
    assert!(get_bit(usize::MAX, WORD_BITS - 1));
    assert!(!get_bit(0, 0));
}

#[test]
fn masks_cut_a_word_at_an_offset() {
    assert_eq!(mask_n_bits(0), usize::MAX);
    assert_eq!(mask_n_bits(4), usize::MAX - 0b1111);
    assert_eq!(mask_n_bits(WORD_BITS - 1), 1usize << (WORD_BITS - 1));
    assert_eq!(bool_to_mask(true), usize::MAX);
    assert_eq!(bool_to_mask(false), 0);
}

#[test]
fn lowest_set_bit_is_cleared() {
    assert_eq!(clear_lowest_set_bit(0b1011_0100), 0b1011_0000);
    assert_eq!(clear_lowest_set_bit(1), 0);
    assert_eq!(clear_lowest_set_bit(usize::MAX), usize::MAX - 1);
    assert_eq!(clear_lowest_set_bit(1usize << (WORD_BITS - 1)), 0);
    assert_eq!(clear_lowest_set_bit(0), 0);
}

#[test]
fn bit_operations_apply_to_one_bit() {
    assert_eq!(BitOp::SetBit.apply(0b1000, 1), 0b1010);
    assert_eq!(BitOp::UnsetBit.apply(0b1010, 3), 0b0010);
    assert_eq!(BitOp::ToggleBit.apply(0b1010, 3), 0b0010);
    assert_eq!(BitOp::ToggleBit.apply(0b0010, 3), 0b1010);
}

#[test]
fn rows_are_scanned_across_word_boundaries() {
    // Three words with bits set at the addresses 1, WORD_BITS - 1, WORD_BITS,
    // WORD_BITS + 7 and 2 * WORD_BITS + 3.
    let words = vec![
        (1usize << 1) | (1usize << (WORD_BITS - 1)),
        1usize | (1usize << 7),
        1usize << 3,
        0,
    ];
    assert_eq!(
        scan_row(&words, 0, 3 * WORD_BITS),
        vec![1, WORD_BITS - 1, WORD_BITS, WORD_BITS + 7, 2 * WORD_BITS + 3]
    );
    // A row that begins and ends in the middle of a word.
    assert_eq!(scan_row(&words, 2, WORD_BITS + 5), vec![WORD_BITS - 3, WORD_BITS - 2]);
    assert_eq!(scan_row(&words, 2, WORD_BITS + 6), vec![WORD_BITS - 3, WORD_BITS - 2, WORD_BITS + 5]);
    // A row inside one word, and rows that end where a word ends.
    assert_eq!(scan_row(&words, 1, 1), vec![0]);
    assert_eq!(scan_row(&words, 2, 5), Vec::<usize>::new());
    assert_eq!(scan_row(&words, WORD_BITS - 1, 1), vec![0]);
    assert_eq!(scan_row(&words, WORD_BITS - 1, 2), vec![0, 1]);
    assert_eq!(scan_row(&words, 0, WORD_BITS), vec![1, WORD_BITS - 1]);
    assert_eq!(scan_row(&words, 0, 0), Vec::<usize>::new());
    assert_eq!(scan_row(&words, 3 * WORD_BITS, 0), Vec::<usize>::new());
}

#[test]
fn rows_of_a_graph_do_not_run_into_each_other() {
    // With 67 nodes no row begins at a word boundary but the first.
    let mut graph = filled(Some(67), 0..67);
    for node in 0..67 {
        graph.add_edge(node, 66 - node).unwrap();
        graph.add_edge(node, 0).unwrap();
        graph.add_edge(node, 66).unwrap();
    }
    for node in 0..67usize {
        let mut expected = vec![0, 66 - node, 66];
        expected.sort();
        expected.dedup();
        assert_eq!(graph.outgoing_edges_of(node).unwrap(), expected);
    }
    assert_eq!(graph.incoming_edges_of(0).unwrap(), (0..67).collect::<Vec<usize>>());
    assert_eq!(graph.incoming_edges_of(66).unwrap(), (0..67).collect::<Vec<usize>>());
    assert_eq!(graph.incoming_edges_of(30).unwrap(), vec![36]);
    assert_eq!(graph.incoming_edges_of(33).unwrap(), vec![33]);
}

#[test]
fn mod_edges_are_present_or_absent() {
    let mut graph = filled(None, 0..4);
    assert_eq!(graph.set_edge((1, 2), true), Ok(false));
    assert_eq!(graph.set_edge((1, 2), true), Ok(true));
    let edge = graph.get_edge(1, 2).unwrap().unwrap();
    assert_eq!((edge.source, edge.destination, edge.weight), (1, 2, true));
    assert_eq!(graph.get_edge(2, 1), Ok(None));
    assert_eq!(graph.set_edge((1, 2), false), Ok(true));
    assert_eq!(graph.set_edge((1, 2), false), Ok(false));
    assert_eq!(graph.has_edge(1, 2), Ok(false));
    assert_eq!(graph.incoming_edges_of(2).unwrap(), Vec::<usize>::new());
}

#[test]
fn mod_add_reports_the_edge_that_was_there() {
    let mut graph = filled(None, 0..4);
    assert_eq!(graph.add_edge(3, 0), Ok(false));
    assert_eq!(graph.add_edge(3, 0), Ok(true));
    assert_eq!(graph.remove_edge(3, 0), Ok(true));
    assert_eq!(graph.remove_edge(3, 0), Ok(false));
    assert_eq!(graph.has_edge(3, 0), Ok(false));
}

#[test]
fn mod_refuses_what_it_cannot_do() {
    let mut graph = filled(Some(3), 0..3);
    assert_eq!(graph.node_count(), 3);
    assert_eq!(graph.push_node(9), Err(GraphError::CapacityExceeded));
    assert_eq!(graph.node_count(), 3);
    assert_eq!(graph.add_edge(0, 3), Err(GraphError::IndexOutOfRange));
    assert_eq!(graph.add_edge(3, 0), Err(GraphError::IndexOutOfRange));
    assert_eq!(graph.set_edge((0, 3), true), Err(GraphError::IndexOutOfRange));
    assert_eq!(graph.remove_edge(7, 0), Err(GraphError::IndexOutOfRange));
    assert_eq!(graph.has_edge(0, 3), Err(GraphError::IndexOutOfRange));
    assert_eq!(graph.get_edge(3, 3), Err(GraphError::IndexOutOfRange));
    assert_eq!(graph.outgoing_edges_of(3), Err(GraphError::IndexOutOfRange));
    assert_eq!(graph.incoming_edges_of(3), Err(GraphError::IndexOutOfRange));
    assert_eq!(graph.set_node(0, 5), Err(GraphError::UnsupportedOperation));
    assert_eq!(graph.get_node(0), Err(GraphError::UnsupportedOperation));
    assert_eq!(graph.remove_node(0), Err(GraphError::UnsupportedOperation));
    assert_eq!(graph.set_count(4), Err(GraphError::CapacityExceeded));
}

#[test]
fn mod_set_count_hides_and_shows_nodes() {
    let mut graph = filled(Some(8), 0..6);
    graph.add_edge(0, 5).unwrap();
    graph.add_edge(0, 2).unwrap();
    graph.add_edge(5, 2).unwrap();
    assert_eq!(graph.set_count(4), Ok(()));
    assert_eq!(graph.node_count(), 4);
    assert_eq!(graph.outgoing_edges_of(0).unwrap(), vec![2]);
    assert_eq!(graph.incoming_edges_of(2).unwrap(), vec![0]);
    assert_eq!(graph.has_edge(0, 5), Err(GraphError::IndexOutOfRange));
    assert_eq!(graph.set_count(8), Ok(()));
    assert_eq!(graph.outgoing_edges_of(0).unwrap(), vec![2, 5]);
    assert_eq!(graph.incoming_edges_of(2).unwrap(), vec![0, 5]);
}

#[test]
fn mod_empty_graph_has_nothing_to_list() {
    let graph = BitGraph::with_capacity(0);
    assert_eq!(graph.node_count(), 0);
    assert_eq!(graph.all_edge_pairs(), Vec::<(usize, usize)>::new());
    assert_eq!(graph.outgoing_edges_of(0), Err(GraphError::IndexOutOfRange));
    let mut graph = BitGraph::with_capacity(0);
    assert_eq!(graph.push_node(1), Err(GraphError::CapacityExceeded));
}

#[test]
fn edges_lie_at_their_addresses() {
    // With a capacity of 67 the bit of the pair (from, to) has the address
    // 67 * from + to, counted from the least significant bit of the first word.
    let mut graph = filled(Some(67), 0..67);
    assert_eq!(graph.as_words().len(), 67 * 67 / WORD_BITS + 1);
    assert!(graph.as_words().iter().all(|word| *word == 0));
    graph.add_edge(0, 0).unwrap();
    graph.add_edge(0, 66).unwrap();
    graph.add_edge(1, 0).unwrap();
    graph.add_edge(40, 13).unwrap();
    for (from, to) in [(0usize, 0usize), (0, 66), (1, 0), (40, 13)] {
        let address = 67 * from + to;
        assert!(get_bit(graph.as_words()[address / WORD_BITS], address % WORD_BITS));
    }
    let set: u32 = graph.as_words().iter().map(|word| word.count_ones()).sum();
    assert_eq!(set, 4);
    graph.remove_edge(0, 66).unwrap();
    assert!(!get_bit(graph.as_words()[66 / WORD_BITS], 66 % WORD_BITS));
    let set: u32 = graph.as_words().iter().map(|word| word.count_ones()).sum();
    assert_eq!(set, 3);
}
