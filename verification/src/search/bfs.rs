//! Breadth-first traversal: the frontier is a queue.
use crate::model::{lemma_neighbours_ascending, GraphModel};
use crate::search::{
    fresh_entries, lemma_bounded_set, lemma_drop_keeps_inv, lemma_drop_keeps_pending,
    lemma_fresh_entries_step, lemma_inv_bounds, lemma_inv_entry, lemma_inv_linked,
    lemma_start_inv, lemma_trail_is_walk, lemma_visit_keeps_inv, lemma_visit_keeps_pending,
    follows_records, turn_of, search_inv, trace_back, trail, DiscoveredSet, Drained,
    SearchModel,
};
use crate::search::levels::{
    at_distance, lemma_drop_keeps_levels, lemma_front_distance, lemma_level, lemma_path_level,
    lemma_level_len, lemma_start_levels, lemma_visit_keeps_levels, level_inv, rank,
};
use crate::{Graph, GraphError};
use core::marker::PhantomData;
use std::collections::VecDeque;
use vstd::prelude::*;

verus! {

/// A breadth-first traversal of the graph it borrows, lazy and resumable:
/// every call of `next` takes it one node further.
pub struct BFS<'a, V, W, G: Graph<V, W>> {
    root_idx: usize,
    queue: VecDeque<(usize, usize)>,
    discovered: DiscoveredSet,
    from_map: Vec<usize>,
    turn: Ghost<Seq<nat>>,
    level: Ghost<Seq<nat>>,
    graph: &'a G,
    marker: PhantomData<(V, W)>,
}

impl<'a, V, W, G: Graph<V, W>> BFS<'a, V, W, G> {
    /// The state of the traversal.
    pub closed spec fn view(&self) -> SearchModel {
        SearchModel {
            root: self.root_idx,
            frontier: self.queue@,
            discovered: self.discovered@,
            from_map: self.from_map@,
        }
    }

    /// The graph that is traversed.
    pub closed spec fn graph(&self) -> GraphModel<V, W> {
        self.graph@
    }

    /// The number of edges over which each discovered node was reached.
    pub closed spec fn levels(&self) -> Seq<nat> {
        self.level@
    }

    /// The traversal is in order: from its start on, no waiting pair that
    /// names an undiscovered node was taken out without a visit, as `path_to`
    /// does with the pair of its target. The queue then hands the nodes out
    /// nearest first.
    pub closed spec fn in_order(&self) -> bool {
        level_inv(self@, self.level@, self.graph@)
    }

    /// In a traversal that is in order, a discovered node was reached over as
    /// few edges as any walk from the root to it has.
    pub proof fn lemma_in_order(&self, node: usize)
        requires
            self.wf(),
            self.in_order(),
            self@.discovered.contains(node),
        ensures
            at_distance(self.graph(), self@.root, node, self.levels()[node as int]),
    {
        lemma_level(self@, self.level@, self.graph@, node);
    }

    /// The state is consistent with the graph.
    pub closed spec fn wf(&self) -> bool {
        &&& self.graph.wf()
        &&& self.discovered.wf()
        &&& self.discovered.size() == self.graph@.count
        &&& search_inv(self@, self.turn@, self.graph@)
    }

    /// What a consistent state promises: waiting pairs and discovered nodes
    /// are nodes of the graph, every waiting pair but the root's own is an
    /// edge from a discovered node, and the recorded predecessors lead every
    /// discovered node back to the root over edges.
    pub proof fn lemma_wf(&self)
        requires
            self.wf(),
        ensures
            self@.root < self.graph().count,
            self@.from_map.len() == self.graph().count,
            forall|node: usize| self@.discovered.contains(node) ==> node < self.graph().count,
            forall|i: int|
                0 <= i < self@.frontier.len() ==> {
                    let entry = #[trigger] self@.frontier[i];
                    &&& entry.0 < self.graph().count
                    &&& entry.1 < self.graph().count
                    &&& entry == (self@.root, self@.root) || (self@.discovered.contains(entry.1)
                        && self.graph().has_edge(entry.1, entry.0))
                },
            forall|node: usize|
                self@.discovered.contains(node) && node != self@.root ==> self.graph().has_edge(
                    #[trigger] self@.from_map[node as int],
                    node,
                ),
            forall|node: usize|
                self@.discovered.contains(node) ==> self.graph().reaches(self@.root, node),
    {
        let s = self@;
        let g = self.graph@;
        lemma_inv_bounds(s, self.turn@, g);
        assert forall|i: int| 0 <= i < s.frontier.len() implies {
            let entry = #[trigger] s.frontier[i];
            &&& entry.0 < g.count
            &&& entry.1 < g.count
            &&& entry == (s.root, s.root) || (s.discovered.contains(entry.1) && g.has_edge(
                entry.1,
                entry.0,
            ))
        } by {
            lemma_inv_entry(s, self.turn@, g, i);
        }
        assert forall|node: usize| s.discovered.contains(node) && node != s.root implies g.has_edge(
            #[trigger] s.from_map[node as int],
            node,
        ) by {
            lemma_inv_linked(s, self.turn@, g, node);
        }
        assert forall|node: usize| s.discovered.contains(node) implies g.reaches(s.root, node) by {
            lemma_trail_is_walk(s, self.turn@, g, node);
            let walk = trail(s.from_map, self.turn@, s.root, node);
            assert(g.is_walk(walk) && walk[0] == s.root && walk.last() == node);
        }
    }

    /// A traversal of `graph` that starts at `root_idx`.
    pub fn new(graph: &'a G, root_idx: usize) -> (r: Result<Self, GraphError>)
        requires
            graph.wf(),
        ensures
            r is Ok <==> root_idx < graph@.count,
            r matches Ok(bfs) ==> bfs.wf() && bfs.graph() == graph@ && bfs@ == SearchModel::start(
                root_idx,
                graph@.count,
            ) && bfs.in_order(),
            r matches Err(e) ==> e == GraphError::IndexOutOfRange,
    {
        let count = graph.node_count();
        if root_idx >= count {
            return Err(GraphError::IndexOutOfRange);
        }
        let mut queue: VecDeque<(usize, usize)> = VecDeque::new();
        queue.push_back((root_idx, root_idx));
        let bfs = BFS {
            graph,
            root_idx,
            discovered: DiscoveredSet::new(count),
            queue,
            from_map: vec![usize::MAX; count],
            turn: Ghost(Seq::new(count as nat, |i: int| 0nat)),
            level: Ghost(Seq::new(count as nat, |i: int| 0nat)),
            marker: PhantomData,
        };
        proof {
            assert(bfs@.frontier =~= seq![(root_idx, root_idx)]);
            assert(bfs@.from_map =~= Seq::new(count as nat, |i: int| usize::MAX));
            lemma_start_inv(root_idx, graph@);
            lemma_start_levels(root_idx, graph@);
        }
        Ok(bfs)
    }

    /// Takes waiting pairs from the front of the queue until one names an
    /// undiscovered node, visits that node and returns the pair. Returns
    /// `None` once the queue is empty.
    ///
    /// In a traversal that is in order the node lies no nearer to the root
    /// than any node discovered before it, and the pair reaches it over as few
    /// edges as any walk.
    pub fn next(&mut self) -> (r: Option<(usize, usize)>)
        requires
            old(self).wf(),
        ensures
            final(self).wf(),
            final(self).graph() == old(self).graph(),
            match r {
                Some(entry) => exists|k: int|
                    {
                        &&& 0 <= k < old(self)@.frontier.len()
                        &&& #[trigger] old(self)@.frontier[k] == entry
                        &&& !old(self)@.discovered.contains(entry.0)
                        &&& forall|i: int|
                            0 <= i < k ==> old(self)@.discovered.contains(
                                (#[trigger] old(self)@.frontier[i]).0,
                            )
                        &&& final(self)@ == old(self)@.visit(
                            entry,
                            old(self)@.frontier.skip(k + 1),
                            old(self).graph(),
                        )
                    },
                None => {
                    &&& forall|i: int|
                        0 <= i < old(self)@.frontier.len() ==> old(self)@.discovered.contains(
                            (#[trigger] old(self)@.frontier[i]).0,
                        )
                    &&& final(self)@ == old(self)@.with_frontier(Seq::empty())
                },
            },
            old(self).in_order() ==> final(self).in_order(),
            old(self).in_order() ==> forall|node: usize|
                #[trigger] old(self)@.discovered.contains(node) ==> final(self).levels()[node as int]
                    == old(self).levels()[node as int],
            r matches Some(entry) ==> (old(self).in_order() ==> at_distance(
                old(self).graph(),
                old(self)@.root,
                entry.0,
                final(self).levels()[entry.0 as int],
            ) && forall|node: usize|
                #[trigger] old(self)@.discovered.contains(node) ==> old(self).levels()[node as int]
                    <= final(self).levels()[entry.0 as int]),
    {
        let ghost start = self@;
        let ghost mut taken: int = 0;
        proof {
            assert(start.frontier.skip(0) =~= start.frontier);
        }
        loop
            invariant
                self.wf(),
                self.graph() == old(self).graph(),
                start == old(self)@,
                0 <= taken <= start.frontier.len(),
                self@ == start.with_frontier(start.frontier.skip(taken)),
                self.level == old(self).level,
                old(self).in_order() ==> self.in_order(),
                forall|i: int|
                    0 <= i < taken ==> start.discovered.contains((#[trigger] start.frontier[i]).0),
            decreases start.frontier.len() - taken,
        {
            let ghost before = self@;
            match self.queue.pop_front() {
                None => {
                    proof {
                        assert(self@.frontier =~= Seq::empty());
                    }
                    return None;
                },
                Some((idx, from)) => {
                    proof {
                        assert(before.frontier[0] == start.frontier[taken]);
                        lemma_inv_entry(before, self.turn@, self.graph@, 0);
                        lemma_inv_bounds(before, self.turn@, self.graph@);
                        assert(before.frontier.remove(0) =~= start.frontier.skip(taken + 1));
                        assert(self.queue@ =~= before.frontier.remove(0));
                    }
                    if self.visit_node(idx) {
                        proof {
                            if old(self).in_order() {
                                lemma_level_len(before, self.level@, self.graph@);
                                lemma_visit_keeps_levels(
                                    before,
                                    self.turn@,
                                    self.level@,
                                    self.graph@,
                                );
                            }
                        }
                        self.expand(idx, from, Ghost(before));
                        proof {
                            assert(start.frontier[taken] == (idx, from));
                        }
                        return Some((idx, from));
                    }
                    proof {
                        if old(self).in_order() {
                            lemma_drop_keeps_levels(before, self.turn@, self.level@, self.graph@);
                        }
                        lemma_drop_keeps_inv(before, self.turn@, self.graph@, 0);
                        assert(self@ == before.with_frontier(before.frontier.remove(0)));
                        taken = taken + 1;
                    }
                },
            }
        }
    }

    /// Drains the queue until a waiting pair names `to_idx`, and returns the
    /// nodes from the root to `to_idx` over the recorded predecessors. Returns
    /// `None` where the queue runs empty first.
    ///
    /// The pair that names `to_idx` is taken out without a visit. The path to
    /// the root is the root alone. No node occurs twice on the path, and in a
    /// traversal that is in order the path to an undiscovered node is a
    /// shortest one.
    pub fn path_to(&mut self, to_idx: usize) -> (r: Option<Vec<usize>>)
        requires
            old(self).wf(),
        ensures
            final(self).wf(),
            final(self).graph() == old(self).graph(),
            final(self)@.root == old(self)@.root,
            r is Some <==> old(self)@.pending(old(self).graph(), to_idx),
            r matches Some(path) ==> {
                &&& old(self).graph().is_walk(path@)
                &&& path@.no_duplicates()
                &&& path@[0] == old(self)@.root
                &&& path@.last() == to_idx
                &&& path@.len() == 1 <==> to_idx == old(self)@.root
                &&& follows_records(final(self)@.from_map, path@)
                &&& forall|i: int| 0 < i < path@.len() - 1 ==> (#[trigger] path@[i]) != old(self)@.root
            },
            r is None ==> final(self)@.frontier.len() == 0,
            r is None && old(self).in_order() ==> final(self).in_order(),
            r matches Some(path) ==> (old(self).in_order() && !old(self)@.discovered.contains(
                to_idx,
            ) ==> at_distance(
                old(self).graph(),
                old(self)@.root,
                to_idx,
                (path@.len() - 1) as nat,
            )),
            exists|fuel: nat| #[trigger]
                old(self)@.drain(old(self).graph(), to_idx, false, fuel) == Some(
                    Drained {
                        found: match r {
                            Some(path) => Some(
                                (
                                    to_idx,
                                    if path@.len() == 1 {
                                        old(self)@.root
                                    } else {
                                        path@[path@.len() - 2]
                                    },
                                ),
                            ),
                            None => None,
                        },
                        state: final(self)@,
                    },
                ),
    {
        let ghost start = self@;
        let ghost mut steps: nat = 0;
        let ghost g = self.graph@;
        loop
            invariant
                self.wf(),
                self.graph() == old(self).graph(),
                g == self.graph@,
                start == old(self)@,
                self@.root == start.root,
                self@.pending(g, to_idx) <==> start.pending(g, to_idx),
                old(self).in_order() ==> self.in_order(),
                !start.discovered.contains(to_idx) ==> !self@.discovered.contains(to_idx),
                forall|more: nat|
                    start.drain(g, to_idx, false, steps + more) == #[trigger] self@.drain(
                        g,
                        to_idx,
                        false,
                        more,
                    ),
            decreases g.count - self@.discovered.len(), self@.frontier.len(),
        {
            let ghost before = self@;
            proof {
                self.lemma_discovered_finite();
            }
            match self.queue.pop_front() {
                None => {
                    proof {
                        if before.pending(g, to_idx) {
                            let walk = choose|walk: Seq<usize>| before.leads_to(g, to_idx, walk);
                            assert(before.awaits(walk[0]));
                        }
                        assert(self@ == before);
                        assert(start.drain(g, to_idx, false, steps + 0) == before.drain(
                            g,
                            to_idx,
                            false,
                            0,
                        ));
                    }
                    return None;
                },
                Some((idx, from)) => {
                    proof {
                        lemma_inv_entry(before, self.turn@, g, 0);
                        lemma_inv_bounds(before, self.turn@, g);
                        assert(self.queue@ =~= before.frontier.remove(0));
                    }
                    if idx == to_idx {
                        proof {
                            lemma_drop_keeps_inv(before, self.turn@, g, 0);
                            let walk = seq![to_idx];
                            assert(before.frontier[0].0 == walk[0]);
                            assert(before.leads_to(g, to_idx, walk));
                        }
                        let path = trace_back::<V, W>(
                            &self.from_map,
                            self.root_idx,
                            idx,
                            from,
                            Ghost(before),
                            Ghost(self.turn@),
                            Ghost(g),
                        );
                        proof {
                            if old(self).in_order() && !start.discovered.contains(to_idx) {
                                lemma_front_distance(before, self.turn@, self.level@, g);
                                if idx != self.root_idx {
                                    lemma_path_level(
                                        before,
                                        self.level@,
                                        g,
                                        path@,
                                        path@.len() - 2,
                                    );
                                }
                            }
                            assert(self@ == before.with_frontier(before.frontier.remove(0)));
                            assert(start.drain(g, to_idx, false, steps + 0) == before.drain(
                                g,
                                to_idx,
                                false,
                                0,
                            ));
                        }
                        return Some(path);
                    }
                    if self.visit_node(idx) {
                        proof {
                            if old(self).in_order() {
                                lemma_visit_keeps_levels(before, self.turn@, self.level@, g);
                            }
                            lemma_visit_keeps_pending(before, g, to_idx, 0);
                            assert(before.discovered.insert(idx).len() == before.discovered.len()
                                + 1);
                        }
                        self.expand(idx, from, Ghost(before));
                        proof {
                            self.lemma_discovered_finite();
                            assert forall|more: nat|
                                start.drain(g, to_idx, false, steps + 1 + more) == #[trigger] self@.drain(
                                    g,
                                    to_idx,
                                    false,
                                    more,
                                ) by {
                                assert(start.drain(g, to_idx, false, steps + (more + 1)) == before.drain(
                                    g,
                                    to_idx,
                                    false,
                                    more + 1,
                                ));
                            }
                            steps = steps + 1;
                        }
                    } else {
                        proof {
                            if old(self).in_order() {
                                lemma_drop_keeps_levels(before, self.turn@, self.level@, g);
                            }
                            lemma_drop_keeps_inv(before, self.turn@, g, 0);
                            lemma_drop_keeps_pending(before, g, to_idx, 0);
                            assert(self@ == before.with_frontier(before.frontier.remove(0)));
                            assert forall|more: nat|
                                start.drain(g, to_idx, false, steps + 1 + more) == #[trigger] self@.drain(
                                    g,
                                    to_idx,
                                    false,
                                    more,
                                ) by {
                                assert(start.drain(g, to_idx, false, steps + (more + 1)) == before.drain(
                                    g,
                                    to_idx,
                                    false,
                                    more + 1,
                                ));
                            }
                            steps = steps + 1;
                        }
                    }
                },
            }
        }
    }

    /// The discovered nodes are finitely many, and no more than the graph has.
    proof fn lemma_discovered_finite(&self)
        requires
            self.wf(),
        ensures
            self@.discovered.finite(),
            self@.discovered.len() <= self.graph@.count,
    {
        lemma_inv_bounds(self@, self.turn@, self.graph@);
        lemma_bounded_set(self@.discovered, self.graph@.count as usize);
    }

    /// Records `from` as the predecessor of the node `idx`, which was just
    /// marked, and puts the node's undiscovered neighbours at the back of the
    /// queue. `before` is the state in which the pair `(idx, from)` was still
    /// at the front.
    fn expand(&mut self, idx: usize, from: usize, Ghost(before): Ghost<SearchModel>)
        requires
            old(self).graph.wf(),
            old(self).discovered.wf(),
            old(self).discovered.size() == old(self).graph@.count,
            search_inv(before, old(self).turn@, old(self).graph@),
            before.frontier.len() > 0,
            before.frontier[0] == (idx, from),
            !before.discovered.contains(idx),
            old(self).queue@ == before.frontier.remove(0),
            old(self).discovered@ == before.discovered.insert(idx),
            old(self).from_map@ == before.from_map,
            old(self).root_idx == before.root,
        ensures
            final(self).wf(),
            final(self).graph() == old(self).graph(),
            final(self)@ == before.visit((idx, from), before.frontier.remove(0), old(self).graph@),
            final(self).level@ == old(self).level@.update(
                idx as int,
                rank(before, old(self).level@, (idx, from)),
            ),
            level_inv(before, old(self).level@, old(self).graph@) ==> final(self).in_order(),
    {
        let ghost g = self.graph@;
        proof {
            lemma_inv_entry(before, self.turn@, g, 0);
            lemma_inv_bounds(before, self.turn@, g);
            if level_inv(before, self.level@, g) {
                lemma_visit_keeps_levels(before, self.turn@, self.level@, g);
            }
            lemma_visit_keeps_inv(before, self.turn@, g, 0);
            self.level@ = self.level@.update(idx as int, rank(before, self.level@, (idx, from)));
            self.turn@ = self.turn@.update(idx as int, turn_of(before));
        }
        self.from_map[idx] = from;
        let neighbours = match self.graph.outgoing_edges_of(idx) {
            Ok(neighbours) => neighbours,
            Err(_) => Vec::new(),
        };
        proof {
            lemma_neighbours_ascending(g, idx);
        }
        let ghost rest = before.frontier.remove(0);
        let mut i: usize = 0;
        while i < neighbours.len()
            invariant
                i <= neighbours.len(),
                neighbours@ == g.outgoing(idx),
                forall|j: int| 0 <= j < neighbours@.len() ==> (#[trigger] neighbours@[j]) < g.count,
                self.discovered.wf(),
                self.discovered.size() == g.count,
                self.discovered@ == before.discovered.insert(idx),
                self.queue@ == rest + fresh_entries(
                    neighbours@.take(i as int),
                    idx,
                    self.discovered@,
                ),
                self.from_map@ == before.from_map.update(idx as int, from),
                self.root_idx == before.root,
                self.graph == old(self).graph,
                self.turn == old(self).turn@.update(
                    idx as int,
                    turn_of(before),
                ),
                self.level@ == old(self).level@.update(
                    idx as int,
                    rank(before, old(self).level@, (idx, from)),
                ),
            decreases neighbours.len() - i,
        {
            let out = neighbours[i];
            proof {
                lemma_fresh_entries_step(neighbours@, idx, self.discovered@, i as int);
            }
            if !self.is_discovered(out) {
                self.queue.push_back((out, idx));
            }
            i = i + 1;
        }
        proof {
            assert(neighbours@.take(i as int) =~= neighbours@);
        }
    }

    /// Marks a node as discovered. Returns true where this was the first
    /// visit.
    fn visit_node(&mut self, node_idx: usize) -> (first: bool)
        requires
            old(self).discovered.wf(),
            node_idx < old(self).discovered.size(),
        ensures
            first == !old(self).discovered@.contains(node_idx),
            !first ==> final(self).discovered@ == old(self).discovered@,
            final(self).discovered.wf(),
            final(self).discovered.size() == old(self).discovered.size(),
            final(self).discovered@ == old(self).discovered@.insert(node_idx),
            final(self).queue == old(self).queue,
            final(self).from_map == old(self).from_map,
            final(self).root_idx == old(self).root_idx,
            final(self).graph == old(self).graph,
            final(self).turn == old(self).turn,
            final(self).level == old(self).level,
    {
        let first_visit = self.is_discovered(node_idx);
        if first_visit {
            proof {
                assert(self.discovered@.insert(node_idx) =~= self.discovered@);
            }
            false
        } else {
            self.set_discovered(node_idx);
            true
        }
    }

    /// Whether a node was visited.
    fn is_discovered(&self, node_idx: usize) -> (marked: bool)
        requires
            self.discovered.wf(),
            node_idx < self.discovered.size(),
        ensures
            marked == self.discovered@.contains(node_idx),
    {
        self.discovered.contains(node_idx)
    }

    /// Marks a node as visited.
    fn set_discovered(&mut self, node_idx: usize)
        requires
            old(self).discovered.wf(),
            node_idx < old(self).discovered.size(),
        ensures
            final(self).discovered.wf(),
            final(self).discovered.size() == old(self).discovered.size(),
            final(self).discovered@ == old(self).discovered@.insert(node_idx),
            final(self).queue == old(self).queue,
            final(self).from_map == old(self).from_map,
            final(self).root_idx == old(self).root_idx,
            final(self).graph == old(self).graph,
            final(self).turn == old(self).turn,
            final(self).level == old(self).level,
    {
        let _ = self.discovered.insert(node_idx);
    }
}

} // verus!
