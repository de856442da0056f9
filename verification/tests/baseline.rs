use bit_graph::AdjGraph;
use bit_graph::{Graph, GraphError};

fn filled(capacity: Option<usize>, values: std::ops::Range<u64>) -> AdjGraph {
    let mut graph = match capacity {
        Some(capacity) => AdjGraph::with_capacity(capacity),
        None => AdjGraph::new(),
    };
    for i in values {
        graph.push_node(i).unwrap();
    }
    graph
}

#[test]
fn baseline_it_works() {
    let mut graph = filled(None, 1..16);

    graph.add_edge(0, 1).unwrap();

    graph.add_edge(2, 0).unwrap();

    assert!(graph.has_edge(2, 0).unwrap());
    assert!(!graph.has_edge(4, 3).unwrap());
}

#[test]
fn baseline_outgoing_edges_test() {
    let mut graph = filled(None, 1..16);

    graph.add_edge(0, 1).unwrap();

    graph.add_edge(2, 0).unwrap();

    assert!(graph.outgoing_edges_of(0).unwrap().len() == 1);
    assert!(graph.outgoing_edges_of(4).unwrap().len() == 0);

    graph.add_edge(10, 2).unwrap();
    graph.add_edge(10, 3).unwrap();
    graph.add_edge(10, 4).unwrap();
    graph.add_edge(10, 5).unwrap();
    graph.add_edge(10, 6).unwrap();
    graph.add_edge(10, 7).unwrap();
    graph.add_edge(10, 8).unwrap();
    graph.add_edge(10, 9).unwrap();

    assert!(graph.outgoing_edges_of(10).unwrap().len() == 8);
    assert_eq!(graph.outgoing_edges_of(10).unwrap(), vec![2, 3, 4, 5, 6, 7, 8, 9]);

    graph.add_edge(10, 5).unwrap();
    graph.add_edge(10, 5).unwrap();
    graph.add_edge(10, 5).unwrap();
    assert!(graph.outgoing_edges_of(10).unwrap().len() == 8);
    assert_eq!(graph.outgoing_edges_of(10).unwrap(), vec![2, 3, 4, 5, 6, 7, 8, 9]);
}

#[test]
fn baseline_strange_outgoing_edges_test() {
    let mut graph = filled(Some(521), 1..510);

    graph.add_edge(500, 402).unwrap();

    graph.add_edge(2, 0).unwrap();

    assert!(graph.outgoing_edges_of(500).unwrap().len() == 1);
    assert!(graph.outgoing_edges_of(4).unwrap().len() == 0);

    graph.add_edge(10, 2).unwrap();
    graph.add_edge(10, 3).unwrap();
    graph.add_edge(10, 4).unwrap();
    graph.add_edge(10, 5).unwrap();
    graph.add_edge(10, 6).unwrap();
    graph.add_edge(10, 7).unwrap();
    graph.add_edge(10, 8).unwrap();
    graph.add_edge(10, 9).unwrap();

    assert!(graph.outgoing_edges_of(10).unwrap().len() == 8);
    assert_eq!(graph.outgoing_edges_of(10).unwrap(), vec![2, 3, 4, 5, 6, 7, 8, 9]);

    graph.add_edge(10, 5).unwrap();
    graph.add_edge(10, 5).unwrap();
    graph.add_edge(10, 5).unwrap();
    assert!(graph.outgoing_edges_of(10).unwrap().len() == 8);
    assert_eq!(graph.outgoing_edges_of(10).unwrap(), vec![2, 3, 4, 5, 6, 7, 8, 9]);
}

#[test]
fn baseline_large_outgoing_edges_test() {
    let mut graph = filled(Some(100_000), 0..100_000);

    graph.add_edge(500, 402).unwrap();

    graph.add_edge(2, 0).unwrap();

    assert!(graph.outgoing_edges_of(500).unwrap().len() == 1);
    assert!(graph.outgoing_edges_of(4).unwrap().len() == 0);

    graph.add_edge(10, 2).unwrap();
    graph.add_edge(10, 3).unwrap();
    graph.add_edge(10, 4).unwrap();
    graph.add_edge(10, 5).unwrap();
    graph.add_edge(10, 6).unwrap();
    graph.add_edge(10, 7).unwrap();
    graph.add_edge(10, 8).unwrap();
    graph.add_edge(10, 9).unwrap();

    assert!(graph.outgoing_edges_of(10).unwrap().len() == 8);
    assert_eq!(graph.outgoing_edges_of(10).unwrap(), vec![2, 3, 4, 5, 6, 7, 8, 9]);

    graph.add_edge(10, 5).unwrap();
    graph.add_edge(10, 5).unwrap();
    graph.add_edge(10, 5).unwrap();
    assert!(graph.outgoing_edges_of(10).unwrap().len() == 8);
    assert_eq!(graph.outgoing_edges_of(10).unwrap(), vec![2, 3, 4, 5, 6, 7, 8, 9]);
}

#[test]
fn baseline_large_incoming_edges_test() {
    let mut graph = filled(Some(100_000), 0..100_000);

    graph.add_edge(0, 1).unwrap();

    graph.add_edge(2, 0).unwrap();

    assert!(graph.incoming_edges_of(1).unwrap().len() == 1);
    assert!(graph.incoming_edges_of(4).unwrap().len() == 0);

    graph.add_edge(2, 1).unwrap();
    graph.add_edge(3, 1).unwrap();
    graph.add_edge(4, 1).unwrap();
    graph.add_edge(5, 1).unwrap();
    graph.add_edge(7, 1).unwrap();

    assert!(graph.incoming_edges_of(1).unwrap().len() == 6);
    assert_eq!(graph.incoming_edges_of(1).unwrap(), vec![0, 2, 3, 4, 5, 7]);
}

#[test]
fn baseline_incoming_edges_test() {
    let mut graph = filled(None, 1..16);

    graph.add_edge(0, 1).unwrap();

    graph.add_edge(2, 0).unwrap();

    assert!(graph.incoming_edges_of(1).unwrap().len() == 1);
    assert!(graph.incoming_edges_of(4).unwrap().len() == 0);

    graph.add_edge(2, 1).unwrap();
    graph.add_edge(3, 1).unwrap();
    graph.add_edge(4, 1).unwrap();
    graph.add_edge(5, 1).unwrap();
    graph.add_edge(7, 1).unwrap();

    assert!(graph.incoming_edges_of(1).unwrap().len() == 6);
    assert_eq!(graph.incoming_edges_of(1).unwrap(), vec![0, 2, 3, 4, 5, 7]);
}

#[test]
fn baseline_edges_carry_their_weight() {
    let mut graph = filled(None, 0..4);
    assert_eq!(graph.set_edge((1, 2), 7), Ok(false));
    assert_eq!(graph.set_edge((1, 2), 9), Ok(true));
    let edge = graph.get_edge(1, 2).unwrap().unwrap();
    assert_eq!((edge.source, edge.destination, edge.weight), (1, 2, 9));
    assert_eq!(graph.get_edge(2, 1), Ok(None));
    assert_eq!(graph.incoming_edges_of(2).unwrap(), vec![1]);

    // The weight 0 stands for "no edge".
    assert_eq!(graph.set_edge((1, 2), 0), Ok(true));
    assert_eq!(graph.has_edge(1, 2), Ok(false));
    assert_eq!(graph.get_edge(1, 2), Ok(None));
    assert_eq!(graph.incoming_edges_of(2).unwrap(), Vec::<usize>::new());
}

#[test]
fn baseline_add_reports_the_edge_that_was_there() {
    let mut graph = filled(None, 0..4);
    assert_eq!(graph.add_edge(3, 0), Ok(false));
    assert_eq!(graph.add_edge(3, 0), Ok(true));
    assert_eq!(graph.get_edge(3, 0).unwrap().unwrap().weight, 1);
    assert_eq!(graph.remove_edge(3, 0), Ok(true));
    assert_eq!(graph.remove_edge(3, 0), Ok(false));
    assert_eq!(graph.has_edge(3, 0), Ok(false));
}

#[test]
fn baseline_refuses_what_it_cannot_do() {
    let mut graph = filled(Some(3), 0..3);
    assert_eq!(graph.node_count(), 3);
    assert_eq!(graph.push_node(9), Err(GraphError::CapacityExceeded));
    assert_eq!(graph.node_count(), 3);
    assert_eq!(graph.add_edge(0, 3), Err(GraphError::IndexOutOfRange));
    assert_eq!(graph.add_edge(3, 0), Err(GraphError::IndexOutOfRange));
    assert_eq!(graph.set_edge((0, 3), 1), Err(GraphError::IndexOutOfRange));
    assert_eq!(graph.remove_edge(7, 0), Err(GraphError::IndexOutOfRange));
    assert_eq!(graph.has_edge(0, 3), Err(GraphError::IndexOutOfRange));
    assert_eq!(graph.get_edge(3, 3), Err(GraphError::IndexOutOfRange));
    assert_eq!(graph.outgoing_edges_of(3), Err(GraphError::IndexOutOfRange));
    assert_eq!(graph.incoming_edges_of(3), Err(GraphError::IndexOutOfRange));
    assert_eq!(graph.set_node(0, 5), Err(GraphError::UnsupportedOperation));
    assert_eq!(graph.get_node(0), Err(GraphError::UnsupportedOperation));
    assert_eq!(graph.remove_node(0), Err(GraphError::UnsupportedOperation));
    assert_eq!(graph.set_count(4), Err(GraphError::CapacityExceeded));
    assert_eq!(graph.all_edge_pairs(), Vec::<(usize, usize)>::new());
}

#[test]
fn baseline_push_node_counts_up() {
    let mut graph = AdjGraph::with_capacity(4);
    assert_eq!(graph.node_count(), 0);
    assert_eq!(graph.push_node(10), Ok(0));
    assert_eq!(graph.push_node(20), Ok(1));
    assert_eq!(graph.push_node(30), Ok(2));
    assert_eq!(graph.node_count(), 3);
}

#[test]
fn baseline_set_count_hides_and_shows_nodes() {
    let mut graph = filled(Some(8), 0..6);
    graph.add_edge(0, 5).unwrap();
    graph.add_edge(0, 2).unwrap();
    graph.add_edge(5, 2).unwrap();
    assert_eq!(graph.set_count(4), Ok(()));
    assert_eq!(graph.node_count(), 4);
    assert_eq!(graph.outgoing_edges_of(0).unwrap(), vec![2]);
    assert_eq!(graph.incoming_edges_of(2).unwrap(), vec![0]);
    assert_eq!(graph.has_edge(0, 5), Err(GraphError::IndexOutOfRange));
    assert_eq!(graph.set_count(8), Ok(()));
    assert_eq!(graph.outgoing_edges_of(0).unwrap(), vec![2, 5]);
    assert_eq!(graph.incoming_edges_of(2).unwrap(), vec![0, 5]);
    assert_eq!(graph.all_edge_pairs(), vec![(0, 2), (0, 5), (5, 2)]);
}
