use bit_graph::hash::HashGraph;
use bit_graph::{AdjGraph, BitGraph, Graph, GraphError};

fn nodes<W, G: Graph<u64, W>>(mut graph: G, count: u64) -> G {
    for i in 0..count {
        graph.push_node(i).unwrap();
    }
    graph
}

/// A fixed, scattered set of mutations: pairs to add and pairs to remove.
fn churn<W, G: Graph<u64, W>>(graph: &mut G, count: usize) {
    let mut seed: usize = 12345;
    for round in 0..400 {
        seed = seed.wrapping_mul(1103515245).wrapping_add(12345) % 2147483648;
        let from = (seed / 7) % count;
        let to = (seed / 131) % count;
        if round % 3 == 2 {
            graph.remove_edge(from, to).unwrap();
        } else {
            graph.add_edge(from, to).unwrap();
        }
    }
}

fn round_trip<W, G: Graph<u64, W>>(graph: &mut G) {
    assert_eq!(graph.has_edge(3, 7), Ok(false));
    assert_eq!(graph.add_edge(3, 7), Ok(false));
    assert_eq!(graph.has_edge(3, 7), Ok(true));
    assert_eq!(graph.has_edge(7, 3), Ok(false));
    assert_eq!(graph.remove_edge(3, 7), Ok(true));
    assert_eq!(graph.has_edge(3, 7), Ok(false));
    assert_eq!(graph.remove_edge(3, 7), Ok(false));
}

#[test]
fn added_edge_is_there_until_removed() {
    round_trip(&mut nodes(AdjGraph::new(), 15));
    round_trip(&mut nodes(BitGraph::new(), 15));
    round_trip(&mut nodes(HashGraph::new(), 15));
    round_trip(&mut nodes(BitGraph::with_capacity(200), 200));
}

fn idempotent<W, G: Graph<u64, W>>(graph: &mut G) {
    graph.add_edge(4, 9).unwrap();
    graph.add_edge(4, 1).unwrap();
    graph.add_edge(4, 4).unwrap();
    let once = graph.outgoing_edges_of(4).unwrap();
    assert_eq!(once, vec![1, 4, 9]);
    for _ in 0..5 {
        assert_eq!(graph.add_edge(4, 1), Ok(true));
        assert_eq!(graph.outgoing_edges_of(4).unwrap(), once);
    }
    assert_eq!(graph.incoming_edges_of(1).unwrap(), vec![4]);
}

#[test]
fn adding_an_edge_again_changes_nothing() {
    idempotent(&mut nodes(AdjGraph::new(), 15));
    idempotent(&mut nodes(BitGraph::new(), 15));
    idempotent(&mut nodes(HashGraph::new(), 15));
}

fn mirrored<W, G: Graph<u64, W>>(graph: &mut G, count: usize) {
    churn(graph, count);
    let mut edges = 0;
    for from in 0..count {
        let outgoing = graph.outgoing_edges_of(from).unwrap();
        for to in 0..count {
            let incoming = graph.incoming_edges_of(to).unwrap();
            let there = graph.has_edge(from, to).unwrap();
            assert_eq!(outgoing.contains(&to), there);
            assert_eq!(incoming.contains(&from), there);
            assert_eq!(graph.get_edge(from, to).unwrap().is_some(), there);
            if there {
                edges += 1;
            }
        }
    }
    assert!(edges > 0);
    assert_eq!(graph.all_edge_pairs().len(), edges);
}

#[test]
fn outgoing_and_incoming_mirror_each_other() {
    mirrored(&mut nodes(AdjGraph::with_capacity(23), 23), 23);
    mirrored(&mut nodes(BitGraph::with_capacity(23), 23), 23);
    mirrored(&mut nodes(HashGraph::with_capacity(4), 23), 23);
    mirrored(&mut nodes(BitGraph::with_capacity(70), 70), 70);
}

fn ascending<W, G: Graph<u64, W>>(graph: &mut G, count: usize) {
    churn(graph, count);
    for node in 0..count {
        for list in [graph.outgoing_edges_of(node).unwrap(), graph.incoming_edges_of(node).unwrap()] {
            assert!(list.windows(2).all(|pair| pair[0] < pair[1]));
            assert!(list.iter().all(|other| *other < count));
        }
    }
    let pairs = graph.all_edge_pairs();
    assert!(pairs.windows(2).all(|pair| pair[0] < pair[1]));
}

#[test]
fn neighbours_are_listed_in_ascending_order() {
    ascending(&mut nodes(AdjGraph::with_capacity(23), 23), 23);
    ascending(&mut nodes(BitGraph::with_capacity(23), 23), 23);
    ascending(&mut nodes(HashGraph::with_capacity(4), 23), 23);
    ascending(&mut nodes(BitGraph::with_capacity(130), 130), 130);
}

fn same_lists<A, B, X: Graph<u64, A>, Y: Graph<u64, B>>(x: &X, y: &Y, count: usize) {
    assert_eq!(x.node_count(), y.node_count());
    for node in 0..count {
        assert_eq!(x.outgoing_edges_of(node), y.outgoing_edges_of(node));
        assert_eq!(x.incoming_edges_of(node), y.incoming_edges_of(node));
    }
    assert_eq!(x.all_edge_pairs(), y.all_edge_pairs());
}

#[test]
fn backends_store_the_same_graph() {
    let mut dense = nodes(AdjGraph::with_capacity(40), 40);
    let mut packed = nodes(BitGraph::with_capacity(40), 40);
    let mut sparse = nodes(HashGraph::with_capacity(40), 40);
    churn(&mut dense, 40);
    churn(&mut packed, 40);
    churn(&mut sparse, 40);
    same_lists(&dense, &packed, 40);
    same_lists(&dense, &sparse, 40);
}

#[test]
fn a_failed_operation_changes_nothing() {
    let mut graph = nodes(BitGraph::with_capacity(5), 5);
    graph.add_edge(1, 2).unwrap();
    let before = graph.all_edge_pairs();
    assert_eq!(graph.add_edge(1, 5), Err(GraphError::IndexOutOfRange));
    assert_eq!(graph.remove_edge(5, 2), Err(GraphError::IndexOutOfRange));
    assert_eq!(graph.push_node(0), Err(GraphError::CapacityExceeded));
    assert_eq!(graph.set_count(6), Err(GraphError::CapacityExceeded));
    assert_eq!(graph.node_count(), 5);
    assert_eq!(graph.all_edge_pairs(), before);
}
