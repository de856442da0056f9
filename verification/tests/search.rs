use bit_graph::hash::HashGraph;
use bit_graph::search::a_star::{mh_distance, AStarMH};
use bit_graph::search::bfs::BFS;
use bit_graph::search::dfs::DFS;
use bit_graph::search::{reversed, DiscoveredSet, Pathfinder};
use bit_graph::{AdjGraph, BitGraph, Graph, GraphError};

fn sample(capacity: Option<usize>) -> BitGraph {
    let mut graph = match capacity {
        Some(capacity) => BitGraph::with_capacity(capacity),
        None => BitGraph::new(),
    };

    for i in 0..15 {
        graph.push_node(i).unwrap();
    }

    graph.add_edge(0, 2).unwrap();
    graph.add_edge(0, 1).unwrap();
    graph.add_edge(2, 4).unwrap();
    graph.add_edge(3, 8).unwrap();
    graph.add_edge(8, 5).unwrap();
    graph.add_edge(1, 3).unwrap();
    graph.add_edge(3, 5).unwrap();
    graph.add_edge(5, 0).unwrap();
    graph
}

fn is_walk<T, W, G: Graph<T, W>>(graph: &G, path: &[usize]) -> bool {
    !path.is_empty() && path.windows(2).all(|pair| graph.has_edge(pair[0], pair[1]) == Ok(true))
}

#[test]
fn a_star_it_works() {
    let graph = sample(Some(16));

    let mut astar = AStarMH::new(&graph, 0, 5, 16).unwrap();
    let found = loop {
        if let Some((idx, _from)) = astar.next(&graph) {
            if idx == 5 {
                break true;
            }
        } else {
            break false;
        }
    };

    let mut bfs = AStarMH::new(&graph, 0, 5, 16).unwrap();
    let path = bfs.path_to(&graph, 5).unwrap();

    assert!(found);
    assert!(path.len() == 4);
    assert!(path == vec![0, 1, 3, 5]);

    let mut astar = AStarMH::new(&graph, 0, 10, 16).unwrap();
    let not_found = loop {
        if let Some((idx, _from)) = astar.next(&graph) {
            if idx == 10 {
                break false;
            }
        } else {
            break true;
        }
    };
    assert!(not_found);
}

#[test]
fn bfs_it_works() {
    let graph = sample(None);

    let mut dfs = BFS::new(&graph, 0).unwrap();
    let found = loop {
        if let Some((idx, from)) = dfs.next() {
            if idx == 5 {
                assert_eq!(from, 3);
                break true;
            }
        } else {
            break false;
        }
    };

    dfs = BFS::new(&graph, 0).unwrap();
    let path = dfs.path_to(5).unwrap();

    assert!(found);
    assert!(path.len() == 4);

    let mut dfs = BFS::new(&graph, 0).unwrap();
    let not_found = loop {
        if let Some((idx, _from)) = dfs.next() {
            if idx == 10 {
                break false;
            }
        } else {
            break true;
        }
    };
    assert!(not_found);
}

#[test]
fn dfs_it_works() {
    let graph = sample(None);

    let mut dfs = DFS::new(&graph, 0).unwrap();
    let found = loop {
        if let Some((idx, from)) = dfs.next(&graph) {
            if idx == 5 {
                assert_eq!(from, 8);
                break true;
            }
        } else {
            break false;
        }
    };

    dfs = DFS::new(&graph, 0).unwrap();
    let path = dfs.path_to(5, &graph).unwrap();

    assert!(found);
    assert!(path.len() == 5);

    let mut dfs = DFS::new(&graph, 0).unwrap();
    let not_found = loop {
        if let Some((idx, _from)) = dfs.next(&graph) {
            if idx == 10 {
                break false;
            }
        } else {
            break true;
        }
    };
    assert!(not_found);
}

#[test]
fn bfs_finds_the_path_and_reports_the_unreachable() {
    let graph = sample(None);
    let mut bfs = BFS::new(&graph, 0).unwrap();
    assert_eq!(bfs.path_to(5), Some(vec![0, 1, 3, 5]));
    let mut bfs = BFS::new(&graph, 0).unwrap();
    assert_eq!(bfs.path_to(10), None);
    // Nothing is left to step through once the frontier is drained.
    assert_eq!(bfs.next(), None);
    assert_eq!(bfs.path_to(5), None);
    // A target that is no node of the graph is never reached.
    let mut bfs = BFS::new(&graph, 0).unwrap();
    assert_eq!(bfs.path_to(99), None);
}

#[test]
fn bfs_visits_level_by_level() {
    let graph = sample(None);
    let mut bfs = BFS::new(&graph, 0).unwrap();
    let mut order = Vec::new();
    while let Some(step) = bfs.next() {
        order.push(step);
    }
    assert_eq!(order, vec![(0, 0), (1, 0), (2, 0), (3, 1), (4, 2), (5, 3), (8, 3)]);
    assert_eq!(bfs.next(), None);
}

#[test]
fn dfs_visits_the_last_neighbour_first() {
    let graph = sample(None);
    let mut dfs = DFS::new(&graph, 0).unwrap();
    let mut order = Vec::new();
    while let Some(step) = dfs.next(&graph) {
        order.push(step);
    }
    assert_eq!(order, vec![(0, 0), (2, 0), (4, 2), (1, 0), (3, 1), (8, 3), (5, 8)]);
    assert_eq!(dfs.next(&graph), None);
}

#[test]
fn dfs_finds_the_path_and_reports_the_unreachable() {
    let graph = sample(None);
    let mut dfs = DFS::new(&graph, 0).unwrap();
    assert_eq!(dfs.path_to(5, &graph), Some(vec![0, 1, 3, 8, 5]));
    let mut dfs = DFS::new(&graph, 0).unwrap();
    assert_eq!(dfs.path_to(10, &graph), None);
    assert_eq!(dfs.next(&graph), None);
}

#[test]
fn path_to_the_root_is_the_root_alone() {
    let graph = sample(None);
    let mut bfs = BFS::new(&graph, 0).unwrap();
    assert_eq!(bfs.path_to(0), Some(vec![0]));
    // The root's pair is gone and nothing was visited, so nothing follows.
    assert_eq!(bfs.next(), None);
    let mut dfs = DFS::new(&graph, 3).unwrap();
    assert_eq!(dfs.path_to(3, &graph), Some(vec![3]));
    // Once the root was visited no pair names it, whatever edges lead back.
    let mut bfs = BFS::new(&graph, 0).unwrap();
    assert_eq!(bfs.next(), Some((0, 0)));
    assert_eq!(bfs.path_to(0), None);
    // A graph of one node, with and without an edge to itself.
    let mut single = BitGraph::with_capacity(1);
    single.push_node(7).unwrap();
    assert_eq!(BFS::new(&single, 0).unwrap().path_to(0), Some(vec![0]));
    single.add_edge(0, 0).unwrap();
    assert_eq!(BFS::new(&single, 0).unwrap().path_to(0), Some(vec![0]));
    assert_eq!(DFS::new(&single, 0).unwrap().path_to(0, &single), Some(vec![0]));
}

#[test]
fn traversal_resumes_where_it_stopped() {
    let graph = sample(None);
    let mut bfs = BFS::new(&graph, 0).unwrap();
    assert_eq!(bfs.next(), Some((0, 0)));
    assert_eq!(bfs.next(), Some((1, 0)));
    // The nodes visited before the call are on the path as well.
    assert_eq!(bfs.path_to(8), Some(vec![0, 1, 3, 8]));
    // On the way 5 was visited before 8 came out, so nothing waits any more.
    assert_eq!(bfs.next(), None);

    let mut dfs = DFS::new(&graph, 0).unwrap();
    assert_eq!(dfs.next(&graph), Some((0, 0)));
    assert_eq!(dfs.next(&graph), Some((2, 0)));
    assert_eq!(dfs.path_to(3, &graph), Some(vec![0, 1, 3]));
    // A node that was visited and does not wait any more is not found again.
    let mut dfs = DFS::new(&graph, 0).unwrap();
    assert_eq!(dfs.next(&graph), Some((0, 0)));
    assert_eq!(dfs.next(&graph), Some((2, 0)));
    assert_eq!(dfs.path_to(2, &graph), None);
}

#[test]
fn paths_are_walks_in_every_backend() {
    let edges = [(0, 2), (0, 1), (2, 4), (3, 8), (8, 5), (1, 3), (3, 5), (5, 0), (4, 4), (9, 0)];
    let mut dense = AdjGraph::new();
    let mut sparse = HashGraph::new();
    for i in 0..15 {
        dense.push_node(i).unwrap();
        sparse.push_node(i).unwrap();
    }
    for (from, to) in edges {
        dense.add_edge(from, to).unwrap();
        sparse.add_edge(from, to).unwrap();
    }
    for target in 0..15 {
        let reachable = [1, 2, 3, 4, 5, 8].contains(&target);

        let mut bfs = BFS::new(&dense, 0).unwrap();
        let mut dfs = DFS::new(&sparse, 0).unwrap();
        let mut astar = AStarMH::new(&sparse, 0, target, 4).unwrap();
        let found = [bfs.path_to(target), dfs.path_to(target, &sparse), astar.path_to(&dense, target)];
        if target == 0 {
            assert_eq!(found[0], Some(vec![0]));
            assert_eq!(found[1], Some(vec![0]));
            assert_eq!(found[2], Some(vec![0]));
            continue;
        }
        for path in found {
            assert_eq!(path.is_some(), reachable);
            if let Some(path) = path {
                assert_eq!(path[0], 0);
                assert_eq!(path[path.len() - 1], target);
                assert!(is_walk(&dense, &path));
                assert!(is_walk(&sparse, &path));
            }
        }
    }
}

#[test]
fn searches_refuse_a_root_outside_the_graph() {
    let graph = sample(None);
    assert!(matches!(BFS::new(&graph, 15), Err(GraphError::IndexOutOfRange)));
    assert!(matches!(DFS::new(&graph, 15), Err(GraphError::IndexOutOfRange)));
    assert!(matches!(AStarMH::new(&graph, 15, 0, 16), Err(GraphError::IndexOutOfRange)));
    assert!(matches!(AStarMH::new(&graph, 0, 15, 16), Err(GraphError::IndexOutOfRange)));
    assert!(matches!(AStarMH::new(&graph, 0, 5, 0), Err(GraphError::IndexOutOfRange)));
    assert!(BFS::new(&graph, 14).is_ok());
    assert!(AStarMH::new(&graph, 14, 14, 1).is_ok());
}

#[test]
fn manhattan_distance_counts_rows_and_columns() {
    assert_eq!(mh_distance(0, 5, 16), 5);
    assert_eq!(mh_distance(5, 0, 16), 5);
    assert_eq!(mh_distance(17, 0, 16), 2);
    assert_eq!(mh_distance(0, 255, 16), 30);
    assert_eq!(mh_distance(3, 12, 4), 6);
    assert_eq!(mh_distance(7, 7, 3), 0);
    assert_eq!(mh_distance(0, 9, 1), 9);
    assert_eq!(mh_distance(usize::MAX, 0, 1), usize::MAX);
    assert_eq!(mh_distance(usize::MAX, 0, usize::MAX), 1);
}

#[test]
fn a_star_steps_by_lowest_score() {
    let graph = sample(Some(16));
    let mut astar = AStarMH::new(&graph, 0, 5, 16).unwrap();
    let mut order = Vec::new();
    while let Some(step) = astar.next(&graph) {
        order.push(step);
    }
    // Scores: 0 enters with 5; 1 with 1 + 4 and 2 with 1 + 3; 4 with 2 + 1;
    // 3 with 2 + 2; 5 with 3 + 0 and 8 with 3 + 3.
    let nodes: Vec<usize> = order.iter().map(|step| step.0).collect();
    assert_eq!(nodes, vec![0, 2, 4, 1, 3, 5, 8]);
    assert!(order.iter().all(|step| step.1 == usize::MAX));
    assert_eq!(Pathfinder::<u64, bool>::from_index_of(&astar, 5), Ok(3));
    assert_eq!(Pathfinder::<u64, bool>::from_index_of(&astar, 3), Ok(1));
    assert_eq!(Pathfinder::<u64, bool>::from_index_of(&astar, 8), Ok(3));
    assert_eq!(Pathfinder::<u64, bool>::from_index_of(&astar, 0), Ok(usize::MAX));
    assert_eq!(Pathfinder::<u64, bool>::from_index_of(&astar, 10), Ok(usize::MAX));
    assert_eq!(Pathfinder::<u64, bool>::from_index_of(&astar, 15), Err(GraphError::IndexOutOfRange));
    assert_eq!(Pathfinder::<u64, bool>::next(&mut astar, &graph), None);
}

#[test]
fn a_star_reports_the_unreachable_and_marks_solved() {
    let graph = sample(Some(16));
    let mut astar = AStarMH::new(&graph, 0, 10, 16).unwrap();
    assert_eq!(astar.path_to(&graph, 10), None);
    assert_eq!(astar.next(&graph), None);

    let mut astar = AStarMH::new(&graph, 0, 5, 16).unwrap();
    assert!(!Pathfinder::<u64, bool>::is_solved(&astar));
    // The search goes for the goal it was made for, whatever it is asked.
    assert_eq!(astar.path_to(&graph, 4), Some(vec![0, 1, 3, 5]));
    Pathfinder::<u64, bool>::set_solved(&mut astar);
    assert!(Pathfinder::<u64, bool>::is_solved(&astar));
}

#[test]
fn a_star_ties_leave_in_the_order_they_came() {
    // From 0 both 1 and 4 lie one step from the goal 5 on a grid of side 4.
    let mut graph = BitGraph::with_capacity(16);
    for i in 0..16 {
        graph.push_node(i).unwrap();
    }
    graph.add_edge(0, 4).unwrap();
    graph.add_edge(0, 1).unwrap();
    graph.add_edge(4, 5).unwrap();
    graph.add_edge(1, 5).unwrap();
    let mut astar = AStarMH::new(&graph, 0, 5, 4).unwrap();
    assert_eq!(astar.next(&graph), Some((0, usize::MAX)));
    assert_eq!(astar.next(&graph), Some((1, usize::MAX)));
    let mut astar = AStarMH::new(&graph, 0, 5, 4).unwrap();
    assert_eq!(astar.path_to(&graph, 5), Some(vec![0, 1, 5]));
}

#[test]
fn discovered_set_marks_nodes() {
    let mut set = DiscoveredSet::new(200);
    for node in [0usize, 1, 63, 64, 65, 127, 128, 199] {
        assert!(!set.contains(node));
        assert_eq!(set.insert(node), Ok(()));
        assert!(set.contains(node));
    }
    assert_eq!(set.insert(64), Ok(()));
    assert!(set.contains(64));
    assert_eq!(set.insert(200), Err(GraphError::IndexOutOfRange));
    assert!(!set.contains(200));
    assert!(!set.contains(usize::MAX));
    assert!(!set.contains(2));
    assert!(!set.contains(62));
    assert!(!set.contains(66));
    assert!(!set.contains(198));
}

#[test]
fn reversed_turns_a_vector_round() {
    assert_eq!(reversed(vec![1, 2, 3]), vec![3, 2, 1]);
    assert_eq!(reversed(vec![7]), vec![7]);
    assert_eq!(reversed(Vec::new()), Vec::<usize>::new());
}

/// The fewest edges from `root` to every node, `None` where no walk leads
/// there, found by relaxing every edge until nothing changes.
fn distances<T, W, G: Graph<T, W>>(graph: &G, root: usize) -> Vec<Option<usize>> {
    let count = graph.node_count();
    let mut best = vec![None; count];
    best[root] = Some(0);
    let pairs = graph.all_edge_pairs();
    for _ in 0..count {
        for (from, to) in pairs.iter() {
            if let Some(way) = best[*from] {
                if best[*to].map_or(true, |known| way + 1 < known) {
                    best[*to] = Some(way + 1);
                }
            }
        }
    }
    best
}

fn scattered(count: usize) -> BitGraph {
    let mut graph = BitGraph::with_capacity(count);
    for i in 0..count {
        graph.push_node(i as u64).unwrap();
    }
    let mut seed: usize = 777;
    for _ in 0..(2 * count) {
        seed = seed.wrapping_mul(1103515245).wrapping_add(12345) % 2147483648;
        let from = (seed / 7) % count;
        let to = (seed / 131) % count;
        graph.add_edge(from, to).unwrap();
    }
    graph
}

#[test]
fn bfs_paths_are_shortest() {
    let graph = scattered(40);
    let best = distances(&graph, 0);
    assert!(best.iter().filter(|way| way.is_some()).count() > 5);
    for target in 0..40 {
        let mut bfs = BFS::new(&graph, 0).unwrap();
        match bfs.path_to(target) {
            Some(path) => {
                assert_eq!(Some(path.len() - 1), best[target]);
                assert!(is_walk(&graph, &path));
                let mut seen = path.clone();
                seen.sort();
                seen.dedup();
                assert_eq!(seen.len(), path.len());
            }
            None => assert_eq!(best[target], None),
        }
    }
}

#[test]
fn bfs_hands_out_the_nearest_first() {
    let graph = scattered(40);
    let best = distances(&graph, 0);
    let mut bfs = BFS::new(&graph, 0).unwrap();
    let mut last = 0;
    let mut visited = 0;
    while let Some((node, from)) = bfs.next() {
        let way = best[node].unwrap();
        assert!(last <= way);
        if node != 0 {
            assert_eq!(best[from].unwrap() + 1, way);
        }
        last = way;
        visited += 1;
    }
    assert_eq!(visited, best.iter().filter(|way| way.is_some()).count());
}

#[test]
fn dfs_and_a_star_paths_repeat_no_node() {
    let graph = scattered(40);
    for target in 0..40 {
        let mut dfs = DFS::new(&graph, 0).unwrap();
        let mut astar = AStarMH::new(&graph, 0, target, 7).unwrap();
        for path in [dfs.path_to(target, &graph), astar.path_to(&graph, target)] {
            if let Some(path) = path {
                assert!(is_walk(&graph, &path));
                let mut seen = path.clone();
                seen.sort();
                seen.dedup();
                assert_eq!(seen.len(), path.len());
            }
        }
    }
}
