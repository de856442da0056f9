//! Depth-first traversal: the frontier is a stack.
use crate::model::{lemma_neighbours_ascending, GraphModel};
use crate::search::{
    fresh_entries, lemma_bounded_set, lemma_drop_keeps_inv, lemma_drop_keeps_pending,
    lemma_fresh_entries_step, lemma_inv_bounds, lemma_inv_entry, lemma_inv_linked,
    lemma_start_inv, lemma_trail_is_walk, lemma_visit_keeps_inv, lemma_visit_keeps_pending,
    follows_records, turn_of, search_inv, trace_back, trail, DiscoveredSet, Drained,
    SearchModel,
};
use crate::{Graph, GraphError};
use vstd::prelude::*;

verus! {

/// A depth-first traversal, lazy and resumable: every call of `next` takes it
/// one node further. The graph is handed to each call; it has to be the graph
/// that the traversal was made for.
pub struct DFS {
    root_idx: usize,
    stack: Vec<(usize, usize)>,
    discovered: DiscoveredSet,
    from_map: Vec<usize>,
    turn: Ghost<Seq<nat>>,
}

impl DFS {
    /// The state of the traversal.
    pub closed spec fn view(&self) -> SearchModel {
        SearchModel {
            root: self.root_idx,
            frontier: self.stack@,
            discovered: self.discovered@,
            from_map: self.from_map@,
        }
    }

    /// The state is consistent with the graph `g`.
    pub closed spec fn wf<V, W>(&self, g: GraphModel<V, W>) -> bool {
        &&& self.discovered.wf()
        &&& self.discovered.size() == g.count
        &&& search_inv(self@, self.turn@, g)
    }

    /// What a consistent state promises: waiting pairs and discovered nodes
    /// are nodes of the graph, every waiting pair but the root's own is an
    /// edge from a discovered node, and the recorded predecessors lead every
    /// discovered node back to the root over edges.
    pub proof fn lemma_wf<V, W>(&self, g: GraphModel<V, W>)
        requires
            self.wf(g),
        ensures
            self@.root < g.count,
            self@.from_map.len() == g.count,
            forall|node: usize| self@.discovered.contains(node) ==> node < g.count,
            forall|i: int|
                0 <= i < self@.frontier.len() ==> {
                    let entry = #[trigger] self@.frontier[i];
                    &&& entry.0 < g.count
                    &&& entry.1 < g.count
                    &&& entry == (self@.root, self@.root) || (self@.discovered.contains(entry.1)
                        && g.has_edge(entry.1, entry.0))
                },
            forall|node: usize|
                self@.discovered.contains(node) && node != self@.root ==> g.has_edge(
                    #[trigger] self@.from_map[node as int],
                    node,
                ),
            forall|node: usize| self@.discovered.contains(node) ==> g.reaches(self@.root, node),
    {
        let s = self@;
        lemma_inv_bounds(s, self.turn@, g);
        assert forall|i: int| 0 <= i < s.frontier.len() implies {
            let entry = #[trigger] s.frontier[i];
            &&& entry.0 < g.count
            &&& entry.1 < g.count
            &&& entry == (s.root, s.root) || (s.discovered.contains(entry.1) && g.has_edge(
                entry.1,
                entry.0,
            ))
        } by {
            lemma_inv_entry(s, self.turn@, g, i);
        }
        assert forall|node: usize| s.discovered.contains(node) && node != s.root implies g.has_edge(
            #[trigger] s.from_map[node as int],
            node,
        ) by {
            lemma_inv_linked(s, self.turn@, g, node);
        }
        assert forall|node: usize| s.discovered.contains(node) implies g.reaches(s.root, node) by {
            lemma_trail_is_walk(s, self.turn@, g, node);
            let walk = trail(s.from_map, self.turn@, s.root, node);
            assert(g.is_walk(walk) && walk[0] == s.root && walk.last() == node);
        }
    }

    /// A traversal of `graph` that starts at `root_idx`.
    pub fn new<V, W, G: Graph<V, W>>(graph: &G, root_idx: usize) -> (r: Result<Self, GraphError>)
        requires
            graph.wf(),
        ensures
            r is Ok <==> root_idx < graph@.count,
            r matches Ok(dfs) ==> dfs.wf(graph@) && dfs@ == SearchModel::start(
                root_idx,
                graph@.count,
            ),
            r matches Err(e) ==> e == GraphError::IndexOutOfRange,
    {
        let count = graph.node_count();
        if root_idx >= count {
            return Err(GraphError::IndexOutOfRange);
        }
        let dfs = DFS {
            root_idx,
            discovered: DiscoveredSet::new(count),
            stack: vec![(root_idx, root_idx)],
            from_map: vec![usize::MAX; count],
            turn: Ghost(Seq::new(count as nat, |i: int| 0nat)),
        };
        proof {
            assert(dfs@.frontier =~= seq![(root_idx, root_idx)]);
            assert(dfs@.from_map =~= Seq::new(count as nat, |i: int| usize::MAX));
            lemma_start_inv(root_idx, graph@);
        }
        Ok(dfs)
    }

    /// Takes waiting pairs from the top of the stack until one names an
    /// undiscovered node, visits that node and returns the pair. Returns
    /// `None` once the stack is empty.
    pub fn next<V, W, G: Graph<V, W>>(&mut self, graph: &G) -> (r: Option<(usize, usize)>)
        requires
            graph.wf(),
            old(self).wf(graph@),
        ensures
            final(self).wf(graph@),
            match r {
                Some(entry) => exists|k: int|
                    {
                        &&& 0 <= k < old(self)@.frontier.len()
                        &&& #[trigger] old(self)@.frontier[k] == entry
                        &&& !old(self)@.discovered.contains(entry.0)
                        &&& forall|i: int|
                            k < i < old(self)@.frontier.len() ==> old(self)@.discovered.contains(
                                (#[trigger] old(self)@.frontier[i]).0,
                            )
                        &&& final(self)@ == old(self)@.visit(
                            entry,
                            old(self)@.frontier.take(k),
                            graph@,
                        )
                    },
                None => {
                    &&& forall|i: int|
                        0 <= i < old(self)@.frontier.len() ==> old(self)@.discovered.contains(
                            (#[trigger] old(self)@.frontier[i]).0,
                        )
                    &&& final(self)@ == old(self)@.with_frontier(Seq::empty())
                },
            },
    {
        let ghost start = self@;
        let ghost mut left: int = start.frontier.len() as int;
        proof {
            assert(start.frontier.take(left) =~= start.frontier);
        }
        loop
            invariant
                graph.wf(),
                self.wf(graph@),
                start == old(self)@,
                0 <= left <= start.frontier.len(),
                self@ == start.with_frontier(start.frontier.take(left)),
                forall|i: int|
                    left <= i < start.frontier.len() ==> start.discovered.contains(
                        (#[trigger] start.frontier[i]).0,
                    ),
            decreases left,
        {
            let ghost before = self@;
            let ghost top = before.frontier.len() - 1;
            match self.stack.pop() {
                None => {
                    proof {
                        assert(self@.frontier =~= Seq::empty());
                    }
                    return None;
                },
                Some((idx, from)) => {
                    proof {
                        assert(before.frontier[top] == start.frontier[left - 1]);
                        lemma_inv_entry(before, self.turn@, graph@, top);
                        lemma_inv_bounds(before, self.turn@, graph@);
                        assert(before.frontier.remove(top) =~= start.frontier.take(left - 1));
                        assert(self.stack@ =~= before.frontier.remove(top));
                    }
                    if self.visit_node(idx) {
                        self.expand(graph, idx, from, Ghost(before));
                        proof {
                            assert(start.frontier[left - 1] == (idx, from));
                        }
                        return Some((idx, from));
                    }
                    proof {
                        lemma_drop_keeps_inv(before, self.turn@, graph@, top);
                        assert(self@ == before.with_frontier(before.frontier.remove(top)));
                        left = left - 1;
                    }
                },
            }
        }
    }

    /// Drains the stack until a waiting pair names `to_idx`, and returns the
    /// nodes from the root to `to_idx` over the recorded predecessors. Returns
    /// `None` where the stack runs empty first.
    ///
    /// The pair that names `to_idx` is taken out without a visit. The path to
    /// the root is the root alone. No node occurs twice on the path.
    pub fn path_to<V, W, G: Graph<V, W>>(&mut self, to_idx: usize, graph: &G) -> (r: Option<
        Vec<usize>,
    >)
        requires
            graph.wf(),
            old(self).wf(graph@),
        ensures
            final(self).wf(graph@),
            final(self)@.root == old(self)@.root,
            r is Some <==> old(self)@.pending(graph@, to_idx),
            r matches Some(path) ==> {
                &&& graph@.is_walk(path@)
                &&& path@.no_duplicates()
                &&& path@[0] == old(self)@.root
                &&& path@.last() == to_idx
                &&& path@.len() == 1 <==> to_idx == old(self)@.root
                &&& follows_records(final(self)@.from_map, path@)
                &&& forall|i: int| 0 < i < path@.len() - 1 ==> (#[trigger] path@[i]) != old(self)@.root
            },
            r is None ==> final(self)@.frontier.len() == 0,
            exists|fuel: nat| #[trigger]
                old(self)@.drain(graph@, to_idx, true, fuel) == Some(
                    Drained {
                        found: match r {
                            Some(path) => Some(
                                (
                                    to_idx,
                                    if path@.len() == 1 {
                                        old(self)@.root
                                    } else {
                                        path@[path@.len() - 2]
                                    },
                                ),
                            ),
                            None => None,
                        },
                        state: final(self)@,
                    },
                ),
    {
        let ghost start = self@;
        let ghost mut steps: nat = 0;
        let ghost g = graph@;
        loop
            invariant
                graph.wf(),
                self.wf(graph@),
                g == graph@,
                start == old(self)@,
                self@.root == start.root,
                self@.pending(g, to_idx) <==> start.pending(g, to_idx),
                forall|more: nat|
                    start.drain(g, to_idx, true, steps + more) == #[trigger] self@.drain(
                        g,
                        to_idx,
                        true,
                        more,
                    ),
            decreases g.count - self@.discovered.len(), self@.frontier.len(),
        {
            let ghost before = self@;
            let ghost top = before.frontier.len() - 1;
            proof {
                self.lemma_discovered_finite(g);
            }
            match self.stack.pop() {
                None => {
                    proof {
                        if before.pending(g, to_idx) {
                            let walk = choose|walk: Seq<usize>| before.leads_to(g, to_idx, walk);
                            assert(before.awaits(walk[0]));
                        }
                        assert(self@ == before);
                        assert(start.drain(g, to_idx, true, steps + 0) == before.drain(
                            g,
                            to_idx,
                            true,
                            0,
                        ));
                    }
                    return None;
                },
                Some((idx, from)) => {
                    proof {
                        lemma_inv_entry(before, self.turn@, g, top);
                        lemma_inv_bounds(before, self.turn@, g);
                        assert(self.stack@ =~= before.frontier.remove(top));
                    }
                    if idx == to_idx {
                        proof {
                            lemma_drop_keeps_inv(before, self.turn@, g, top);
                            let walk = seq![to_idx];
                            assert(before.frontier[top].0 == walk[0]);
                            assert(before.leads_to(g, to_idx, walk));
                        }
                        let path = trace_back::<V, W>(
                            &self.from_map,
                            self.root_idx,
                            idx,
                            from,
                            Ghost(before),
                            Ghost(self.turn@),
                            Ghost(g),
                        );
                        proof {
                            assert(self@ == before.with_frontier(before.frontier.remove(top)));
                            assert(start.drain(g, to_idx, true, steps + 0) == before.drain(
                                g,
                                to_idx,
                                true,
                                0,
                            ));
                        }
                        return Some(path);
                    }
                    if self.visit_node(idx) {
                        proof {
                            lemma_visit_keeps_pending(before, g, to_idx, top);
                            assert(before.discovered.insert(idx).len() == before.discovered.len()
                                + 1);
                        }
                        self.expand(graph, idx, from, Ghost(before));
                        proof {
                            self.lemma_discovered_finite(g);
                            assert forall|more: nat|
                                start.drain(g, to_idx, true, steps + 1 + more) == #[trigger] self@.drain(
                                    g,
                                    to_idx,
                                    true,
                                    more,
                                ) by {
                                assert(start.drain(g, to_idx, true, steps + (more + 1)) == before.drain(
                                    g,
                                    to_idx,
                                    true,
                                    more + 1,
                                ));
                            }
                            steps = steps + 1;
                        }
                    } else {
                        proof {
                            lemma_drop_keeps_inv(before, self.turn@, g, top);
                            lemma_drop_keeps_pending(before, g, to_idx, top);
                            assert(self@ == before.with_frontier(before.frontier.remove(top)));
                            assert forall|more: nat|
                                start.drain(g, to_idx, true, steps + 1 + more) == #[trigger] self@.drain(
                                    g,
                                    to_idx,
                                    true,
                                    more,
                                ) by {
                                assert(start.drain(g, to_idx, true, steps + (more + 1)) == before.drain(
                                    g,
                                    to_idx,
                                    true,
                                    more + 1,
                                ));
                            }
                            steps = steps + 1;
                        }
                    }
                },
            }
        }
    }

    /// The discovered nodes are finitely many, and no more than the graph has.
    proof fn lemma_discovered_finite<V, W>(&self, g: GraphModel<V, W>)
        requires
            self.wf(g),
        ensures
            self@.discovered.finite(),
            self@.discovered.len() <= g.count,
    {
        lemma_inv_bounds(self@, self.turn@, g);
        lemma_bounded_set(self@.discovered, g.count as usize);
    }

    /// Records `from` as the predecessor of the node `idx`, which was just
    /// marked, and puts the node's undiscovered neighbours on top of the
    /// stack. `before` is the state in which the pair `(idx, from)` was still
    /// on top.
    fn expand<V, W, G: Graph<V, W>>(
        &mut self,
        graph: &G,
        idx: usize,
        from: usize,
        Ghost(before): Ghost<SearchModel>,
    )
        requires
            graph.wf(),
            old(self).discovered.wf(),
            old(self).discovered.size() == graph@.count,
            search_inv(before, old(self).turn@, graph@),
            before.frontier.len() > 0,
            before.frontier.last() == (idx, from),
            !before.discovered.contains(idx),
            old(self).stack@ == before.frontier.drop_last(),
            old(self).discovered@ == before.discovered.insert(idx),
            old(self).from_map@ == before.from_map,
            old(self).root_idx == before.root,
        ensures
            final(self).wf(graph@),
            final(self)@ == before.visit((idx, from), before.frontier.drop_last(), graph@),
    {
        let ghost g = graph@;
        let ghost top = before.frontier.len() - 1;
        proof {
            assert(before.frontier.remove(top) =~= before.frontier.drop_last());
            lemma_inv_entry(before, self.turn@, g, top);
            lemma_inv_bounds(before, self.turn@, g);
            lemma_visit_keeps_inv(before, self.turn@, g, top);
            self.turn@ = self.turn@.update(idx as int, turn_of(before));
        }
        self.from_map[idx] = from;
        let neighbours = match graph.outgoing_edges_of(idx) {
            Ok(neighbours) => neighbours,
            Err(_) => Vec::new(),
        };
        proof {
            lemma_neighbours_ascending(g, idx);
        }
        let ghost rest = before.frontier.drop_last();
        let mut i: usize = 0;
        while i < neighbours.len()
            invariant
                i <= neighbours.len(),
                neighbours@ == g.outgoing(idx),
                forall|j: int| 0 <= j < neighbours@.len() ==> (#[trigger] neighbours@[j]) < g.count,
                self.discovered.wf(),
                self.discovered.size() == g.count,
                self.discovered@ == before.discovered.insert(idx),
                self.stack@ == rest + fresh_entries(
                    neighbours@.take(i as int),
                    idx,
                    self.discovered@,
                ),
                self.from_map@ == before.from_map.update(idx as int, from),
                self.root_idx == before.root,
                self.turn == old(self).turn@.update(
                    idx as int,
                    turn_of(before),
                ),
            decreases neighbours.len() - i,
        {
            let out = neighbours[i];
            proof {
                lemma_fresh_entries_step(neighbours@, idx, self.discovered@, i as int);
            }
            if !self.is_discovered(out) {
                self.stack.push((out, idx));
            }
            i = i + 1;
        }
        proof {
            assert(neighbours@.take(i as int) =~= neighbours@);
        }
    }

    /// Marks a node as discovered. Returns true where this was the first
    /// visit.
    fn visit_node(&mut self, node_idx: usize) -> (first: bool)
        requires
            old(self).discovered.wf(),
            node_idx < old(self).discovered.size(),
        ensures
            first == !old(self).discovered@.contains(node_idx),
            !first ==> final(self).discovered@ == old(self).discovered@,
            final(self).discovered.wf(),
            final(self).discovered.size() == old(self).discovered.size(),
            final(self).discovered@ == old(self).discovered@.insert(node_idx),
            final(self).stack == old(self).stack,
            final(self).from_map == old(self).from_map,
            final(self).root_idx == old(self).root_idx,
            final(self).turn == old(self).turn,
    {
        let first_visit = self.is_discovered(node_idx);
        if first_visit {
            proof {
                assert(self.discovered@.insert(node_idx) =~= self.discovered@);
            }
            false
        } else {
            self.set_discovered(node_idx);
            true
        }
    }

    /// Whether a node was visited.
    fn is_discovered(&self, node_idx: usize) -> (marked: bool)
        requires
            self.discovered.wf(),
            node_idx < self.discovered.size(),
        ensures
            marked == self.discovered@.contains(node_idx),
    {
        self.discovered.contains(node_idx)
    }

    /// Marks a node as visited.
    fn set_discovered(&mut self, node_idx: usize)
        requires
            old(self).discovered.wf(),
            node_idx < old(self).discovered.size(),
        ensures
            final(self).discovered.wf(),
            final(self).discovered.size() == old(self).discovered.size(),
            final(self).discovered@ == old(self).discovered@.insert(node_idx),
            final(self).stack == old(self).stack,
            final(self).from_map == old(self).from_map,
            final(self).root_idx == old(self).root_idx,
            final(self).turn == old(self).turn,
    {
        let _ = self.discovered.insert(node_idx);
    }
}

} // verus!
