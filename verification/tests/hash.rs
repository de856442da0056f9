use bit_graph::hash::{hash_usize, HashGraph, PairHashTable};
use bit_graph::EdgeMeta;
use bit_graph::{Graph, GraphError};

fn filled(capacity: Option<usize>, values: std::ops::Range<u64>) -> HashGraph {
    let mut graph = match capacity {
        Some(capacity) => HashGraph::with_capacity(capacity),
        None => HashGraph::new(),
    };
    for i in values {
        graph.push_node(i).unwrap();
    }
    graph
}

#[test]
fn hash_graph_it_works() {
    let mut graph = filled(None, 1..16);

    graph.add_edge(0, 1).unwrap();

    graph.add_edge(2, 0).unwrap();

    assert!(graph.has_edge(2, 0).unwrap());
    assert!(!graph.has_edge(4, 3).unwrap());
}

#[test]
fn outgoing_edges_test() {
    let mut graph = filled(None, 1..16);

    graph.add_edge(0, 1).unwrap();

    graph.add_edge(2, 0).unwrap();

    assert!(graph.outgoing_edges_of(0).unwrap().len() == 1);
    assert!(graph.outgoing_edges_of(4).unwrap().len() == 0);

    graph.add_edge(10, 2).unwrap();
    graph.add_edge(10, 3).unwrap();
    graph.add_edge(10, 4).unwrap();
    graph.add_edge(10, 5).unwrap();
    graph.add_edge(10, 6).unwrap();
    graph.add_edge(10, 7).unwrap();
    graph.add_edge(10, 8).unwrap();
    graph.add_edge(10, 9).unwrap();

    assert!(graph.outgoing_edges_of(10).unwrap().len() == 8);
    assert_eq!(graph.outgoing_edges_of(10).unwrap(), vec![2, 3, 4, 5, 6, 7, 8, 9]);

    graph.add_edge(10, 5).unwrap();
    graph.add_edge(10, 5).unwrap();
    graph.add_edge(10, 5).unwrap();
    assert!(graph.outgoing_edges_of(10).unwrap().len() == 8);
    assert_eq!(graph.outgoing_edges_of(10).unwrap(), vec![2, 3, 4, 5, 6, 7, 8, 9]);
}

#[test]
fn strange_outgoing_edges_test() {
    let mut graph = filled(Some(521), 1..510);

    graph.add_edge(500, 402).unwrap();

    graph.add_edge(2, 0).unwrap();

    assert!(graph.outgoing_edges_of(500).unwrap().len() == 1);
    assert!(graph.outgoing_edges_of(4).unwrap().len() == 0);

    graph.add_edge(10, 2).unwrap();
    graph.add_edge(10, 3).unwrap();
    graph.add_edge(10, 4).unwrap();
    graph.add_edge(10, 5).unwrap();
    graph.add_edge(10, 6).unwrap();
    graph.add_edge(10, 7).unwrap();
    graph.add_edge(10, 8).unwrap();
    graph.add_edge(10, 9).unwrap();

    assert!(graph.outgoing_edges_of(10).unwrap().len() == 8);
    assert_eq!(graph.outgoing_edges_of(10).unwrap(), vec![2, 3, 4, 5, 6, 7, 8, 9]);

    graph.add_edge(10, 5).unwrap();
    graph.add_edge(10, 5).unwrap();
    graph.add_edge(10, 5).unwrap();
    assert!(graph.outgoing_edges_of(10).unwrap().len() == 8);
    assert_eq!(graph.outgoing_edges_of(10).unwrap(), vec![2, 3, 4, 5, 6, 7, 8, 9]);
}

#[test]
fn large_outgoing_edges_test() {
    let mut graph = filled(Some(100_000), 0..100_000);

    graph.add_edge(500, 402).unwrap();

    graph.add_edge(2, 0).unwrap();

    assert!(graph.outgoing_edges_of(500).unwrap().len() == 1);
    assert!(graph.outgoing_edges_of(4).unwrap().len() == 0);

    graph.add_edge(10, 2).unwrap();
    graph.add_edge(10, 3).unwrap();
    graph.add_edge(10, 4).unwrap();
    graph.add_edge(10, 5).unwrap();
    graph.add_edge(10, 6).unwrap();
    graph.add_edge(10, 7).unwrap();
    graph.add_edge(10, 8).unwrap();
    graph.add_edge(10, 9).unwrap();

    assert!(graph.outgoing_edges_of(10).unwrap().len() == 8);
    assert_eq!(graph.outgoing_edges_of(10).unwrap(), vec![2, 3, 4, 5, 6, 7, 8, 9]);

    graph.add_edge(10, 5).unwrap();
    graph.add_edge(10, 5).unwrap();
    graph.add_edge(10, 5).unwrap();
    assert!(graph.outgoing_edges_of(10).unwrap().len() == 8);
    assert_eq!(graph.outgoing_edges_of(10).unwrap(), vec![2, 3, 4, 5, 6, 7, 8, 9]);
}

#[test]
fn large_incoming_edges_test() {
    let mut graph = filled(Some(100_000), 0..100_000);

    graph.add_edge(0, 1).unwrap();

    graph.add_edge(2, 0).unwrap();

    assert!(graph.incoming_edges_of(1).unwrap().len() == 1);
    assert!(graph.incoming_edges_of(4).unwrap().len() == 0);

    graph.add_edge(2, 1).unwrap();
    graph.add_edge(3, 1).unwrap();
    graph.add_edge(4, 1).unwrap();
    graph.add_edge(5, 1).unwrap();
    graph.add_edge(7, 1).unwrap();

    assert!(graph.incoming_edges_of(1).unwrap().len() == 6);
    assert_eq!(graph.incoming_edges_of(1).unwrap(), vec![0, 2, 3, 4, 5, 7]);
}

#[test]
fn incoming_edges_test() {
    let mut graph = filled(None, 1..16);

    graph.add_edge(0, 1).unwrap();

    graph.add_edge(2, 0).unwrap();

    assert!(graph.incoming_edges_of(1).unwrap().len() == 1);
    assert!(graph.incoming_edges_of(4).unwrap().len() == 0);

    graph.add_edge(2, 1).unwrap();
    graph.add_edge(3, 1).unwrap();
    graph.add_edge(4, 1).unwrap();
    graph.add_edge(5, 1).unwrap();
    graph.add_edge(7, 1).unwrap();

    assert!(graph.incoming_edges_of(1).unwrap().len() == 6);
    assert_eq!(graph.incoming_edges_of(1).unwrap(), vec![0, 2, 3, 4, 5, 7]);
}

#[test]
fn it_works() {
    let mut table = PairHashTable::new();

    table.insert((1, 0), 1).unwrap();
    table.insert((4, 2), 1).unwrap();
    table.insert((6, 2), 1).unwrap();
    table.insert((9, 10), 1).unwrap();
    table.insert((4, 23), 1).unwrap();

    assert_eq!(table.count(), 5);

    assert!(table.insert((1, 0), 1).unwrap());
    assert!(table.get((9, 10)).is_some());
    assert!(table.get((9, 3)).is_none());
}

#[test]
fn hash_mixes_a_word() {
    if usize::BITS == 64 {
        assert_eq!(hash_usize(0), 8633297058295171728);
        assert_eq!(hash_usize(1), 6614235796240398542);
        assert_eq!(hash_usize(2), 13228483051453548148);
        assert_eq!(hash_usize(42), 1098236396662648698);
    }
    assert_ne!(hash_usize(7), 7);
    assert_eq!(hash_usize(7), hash_usize(7));
}

#[test]
fn table_starts_with_the_slots_asked_for() {
    assert_eq!(PairHashTable::new().capacity(), 256);
    assert_eq!(PairHashTable::with_capacity(8).capacity(), 8);
    assert_eq!(PairHashTable::with_capacity(0).capacity(), 1);
    assert_eq!(PairHashTable::new().count(), 0);
    let mut tiny = PairHashTable::with_capacity(0);
    assert_eq!(tiny.get((0, 0)), None);
    assert!(!tiny.delete((0, 0)));
    assert_eq!(tiny.insert((0, 0), 3), Ok(false));
    assert_eq!(tiny.get((0, 0)).unwrap().weight, 3);
    assert_eq!(tiny.capacity(), 2);
}

#[test]
fn table_grows_past_three_quarters() {
    let mut table = PairHashTable::with_capacity(8);
    // Six entries fill three quarters of eight slots.
    for i in 0..6 {
        assert_eq!(table.insert((i, i + 1), 10 * i), Ok(false));
        assert_eq!(table.capacity(), 8);
    }
    assert_eq!(table.count(), 6);
    // The seventh would fill more: the table grows first.
    assert_eq!(table.insert((6, 7), 60), Ok(false));
    assert_eq!(table.capacity(), 16);
    assert_eq!(table.count(), 7);
    for i in 0..7 {
        let entry = table.get((i, i + 1)).unwrap();
        assert_eq!((entry.source, entry.destination, entry.weight), (i, i + 1, 10 * i));
    }
    assert!(table.get((7, 8)).is_none());
}

#[test]
fn resize_keeps_what_lives_and_drops_what_was_deleted() {
    let mut table = PairHashTable::with_capacity(8);
    for i in 0..6 {
        table.insert((i, 100 + i), i + 1).unwrap();
    }
    assert!(table.delete((2, 102)));
    assert!(table.delete((4, 104)));
    // The tombstones still count as slots in use.
    assert_eq!(table.count(), 6);
    table.insert((50, 51), 77).unwrap();
    assert_eq!(table.capacity(), 16);
    // Four live entries were moved, and one was added.
    assert_eq!(table.count(), 5);
    for i in [0usize, 1, 3, 5] {
        assert_eq!(table.get((i, 100 + i)).unwrap().weight, i + 1);
    }
    assert!(table.get((2, 102)).is_none());
    assert!(table.get((4, 104)).is_none());
    assert_eq!(table.get((50, 51)).unwrap().weight, 77);
    // What was deleted can be entered again.
    assert_eq!(table.insert((2, 102), 9), Ok(false));
    assert_eq!(table.get((2, 102)).unwrap().weight, 9);
}

#[test]
fn many_inserts_survive_many_resizes() {
    let mut table = PairHashTable::with_capacity(2);
    for i in 0..1000usize {
        assert_eq!(table.insert((i, 2 * i), 3 * i), Ok(false));
    }
    for i in (0..1000usize).step_by(3) {
        assert!(table.delete((i, 2 * i)));
    }
    for i in 1000..2000usize {
        assert_eq!(table.insert((i, 2 * i), 3 * i), Ok(false));
    }
    for i in 0..2000usize {
        let found = table.get((i, 2 * i));
        if i < 1000 && i % 3 == 0 {
            assert!(found.is_none());
        } else {
            assert_eq!(found.unwrap().weight, 3 * i);
        }
    }
    assert!(table.count() < table.capacity());
}

#[test]
fn keys_past_a_tombstone_are_still_found() {
    // In a table of 8 slots the searches for these three keys begin at one
    // slot.
    let mut table = PairHashTable::with_capacity(8);
    assert_eq!(table.insert((0, 1), 11), Ok(false));
    assert_eq!(table.insert((1, 0), 22), Ok(false));
    assert_eq!(table.insert((1, 5), 33), Ok(false));
    assert_eq!(table.count(), 3);

    assert!(table.delete((0, 1)));
    assert!(!table.delete((0, 1)));
    assert_eq!(table.count(), 3);
    assert!(table.get((0, 1)).is_none());
    assert_eq!(table.get((1, 0)).unwrap().weight, 22);
    assert_eq!(table.get((1, 5)).unwrap().weight, 33);

    // A key that is in the table is overwritten where it is, not entered a
    // second time in the tombstone before it.
    assert_eq!(table.insert((1, 5), 34), Ok(true));
    assert_eq!(table.count(), 3);
    assert!(table.delete((1, 5)));
    assert!(table.get((1, 5)).is_none());

    // A new key takes the first tombstone: no further slot comes into use, and
    // no edge is reported to have been there.
    assert_eq!(table.insert((3, 4), 44), Ok(false));
    assert_eq!(table.count(), 3);
    assert_eq!(table.get((3, 4)).unwrap().weight, 44);
    assert_eq!(table.get((1, 0)).unwrap().weight, 22);
}

#[test]
fn delete_in_an_empty_table_finds_nothing() {
    let mut table = PairHashTable::new();
    assert!(!table.delete((1, 2)));
    assert_eq!(table.count(), 0);
    assert!(table.get((1, 2)).is_none());
}

#[test]
fn edge_meta_reads_a_triple() {
    let edge = EdgeMeta::from((3, 4, 5));
    assert_eq!((edge.source, edge.destination, edge.weight), (3, 4, 5));
    assert_eq!(edge.key_pair(), (3, 4));
    let copy = edge;
    assert_eq!(copy, edge);
}

#[test]
fn hash_graph_edges_carry_any_weight() {
    let mut graph = filled(None, 0..4);
    assert_eq!(graph.set_edge((1, 2), 7), Ok(false));
    assert_eq!(graph.set_edge((1, 2), 0), Ok(true));
    // A weight of 0 is a weight like any other.
    assert_eq!(graph.has_edge(1, 2), Ok(true));
    let edge = graph.get_edge(1, 2).unwrap().unwrap();
    assert_eq!((edge.source, edge.destination, edge.weight), (1, 2, 0));
    assert_eq!(graph.add_edge(1, 2), Ok(true));
    assert_eq!(graph.get_edge(1, 2).unwrap().unwrap().weight, 1);
    assert_eq!(graph.get_edge(2, 1), Ok(None));
    assert_eq!(graph.remove_edge(1, 2), Ok(true));
    assert_eq!(graph.remove_edge(1, 2), Ok(false));
    assert_eq!(graph.has_edge(1, 2), Ok(false));
    // An edge that was removed and added again was not there in between.
    assert_eq!(graph.add_edge(1, 2), Ok(false));
}

#[test]
fn hash_graph_refuses_what_it_cannot_do() {
    let mut graph = filled(Some(3), 0..3);
    assert_eq!(graph.add_edge(0, 3), Err(GraphError::IndexOutOfRange));
    assert_eq!(graph.add_edge(3, 0), Err(GraphError::IndexOutOfRange));
    assert_eq!(graph.set_edge((0, 3), 1), Err(GraphError::IndexOutOfRange));
    assert_eq!(graph.remove_edge(7, 0), Err(GraphError::IndexOutOfRange));
    assert_eq!(graph.has_edge(0, 3), Err(GraphError::IndexOutOfRange));
    assert_eq!(graph.get_edge(3, 3), Err(GraphError::IndexOutOfRange));
    assert_eq!(graph.outgoing_edges_of(3), Err(GraphError::IndexOutOfRange));
    assert_eq!(graph.incoming_edges_of(3), Err(GraphError::IndexOutOfRange));
    assert_eq!(graph.set_node(0, 5), Err(GraphError::UnsupportedOperation));
    assert_eq!(graph.get_node(3), Err(GraphError::IndexOutOfRange));
    assert_eq!(graph.remove_node(3), Err(GraphError::IndexOutOfRange));
    // The table grows with the graph: a fourth node and many edges fit.
    assert_eq!(graph.push_node(9), Ok(3));
    for from in 0..4 {
        for to in 0..4 {
            assert_eq!(graph.add_edge(from, to), Ok(false));
        }
    }
    assert_eq!(graph.all_edge_pairs().len(), 16);
}

#[test]
fn hash_graph_removes_a_node_softly() {
    let mut graph = filled(None, 10..15);
    graph.add_edge(0, 2).unwrap();
    graph.add_edge(2, 0).unwrap();
    graph.add_edge(2, 2).unwrap();
    graph.add_edge(2, 4).unwrap();
    graph.add_edge(3, 2).unwrap();
    graph.add_edge(3, 4).unwrap();
    assert_eq!(graph.get_node(2), Ok(&12));

    assert_eq!(graph.remove_node(2), Ok(12));

    // The node keeps its index, with the value 0.
    assert_eq!(graph.node_count(), 5);
    assert_eq!(graph.get_node(2), Ok(&0));
    assert_eq!(graph.get_node(3), Ok(&13));
    assert_eq!(graph.outgoing_edges_of(2).unwrap(), Vec::<usize>::new());
    assert_eq!(graph.incoming_edges_of(2).unwrap(), Vec::<usize>::new());
    assert_eq!(graph.all_edge_pairs(), vec![(3, 4)]);
    assert_eq!(graph.add_edge(2, 3), Ok(false));
}

#[test]
fn hash_graph_set_count_moves_the_bound() {
    let mut graph = filled(None, 0..6);
    graph.add_edge(0, 5).unwrap();
    graph.add_edge(0, 2).unwrap();
    assert_eq!(graph.set_count(4), Ok(()));
    assert_eq!(graph.node_count(), 4);
    assert_eq!(graph.outgoing_edges_of(0).unwrap(), vec![2]);
    assert_eq!(graph.get_node(5), Err(GraphError::IndexOutOfRange));
    assert_eq!(graph.set_count(10), Ok(()));
    assert_eq!(graph.outgoing_edges_of(0).unwrap(), vec![2, 5]);
    assert_eq!(graph.add_edge(9, 8), Ok(false));
    assert_eq!(graph.get_node(9), Err(GraphError::IndexOutOfRange));
    // The next node gets the index after the values that are stored.
    assert_eq!(graph.push_node(77), Ok(6));
    assert_eq!(graph.node_count(), 11);
}

#[test]
fn resize_moves_the_live_entries() {
    let mut table = PairHashTable::with_capacity(8);
    for i in 0..5 {
        table.insert((i, 10 + i), 100 + i).unwrap();
    }
    assert!(table.delete((1, 11)));
    assert!(table.delete((3, 13)));
    assert_eq!((table.count(), table.capacity()), (5, 8));

    // Three entries live: four slots are the least that leave one empty.
    assert_eq!(table.resize(3), Err(GraphError::CapacityExceeded));
    assert_eq!(table.resize(0), Err(GraphError::CapacityExceeded));
    assert_eq!((table.count(), table.capacity()), (5, 8));
    assert_eq!(table.get((0, 10)).unwrap().weight, 100);

    assert_eq!(table.resize(4), Ok(()));
    assert_eq!((table.count(), table.capacity()), (3, 4));
    for i in [0usize, 2, 4] {
        let entry = table.get((i, 10 + i)).unwrap();
        assert_eq!((entry.key_pair(), entry.weight), ((i, 10 + i), 100 + i));
    }
    assert!(table.get((1, 11)).is_none());
    assert!(table.get((3, 13)).is_none());
    assert!(table.get((5, 15)).is_none());

    // To the same size and to a larger one.
    assert_eq!(table.resize(4), Ok(()));
    assert_eq!(table.resize(64), Ok(()));
    assert_eq!((table.count(), table.capacity()), (3, 64));
    for i in [0usize, 2, 4] {
        assert_eq!(table.get((i, 10 + i)).unwrap().weight, 100 + i);
    }
    assert!(table.get((1, 11)).is_none());

    // An empty table fits one slot.
    let mut empty = PairHashTable::new();
    assert_eq!(empty.resize(1), Ok(()));
    assert_eq!((empty.count(), empty.capacity()), (0, 1));
    assert_eq!(empty.insert((7, 7), 7), Ok(false));
    assert_eq!((empty.count(), empty.capacity()), (1, 2));
}
