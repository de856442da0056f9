//! Search over any storage backend: what the breadth-first and depth-first
//! traversals share, and the interface of a pathfinder.
use crate::bit::word::{bit_at, lemma_single_bit, lemma_word_position};
use crate::bit::word::{lemma_zero_word, single_bit_mask, WORD_BITS};
use crate::model::GraphModel;
use crate::{Graph, GraphError};
use vstd::prelude::*;

pub mod a_star;
pub mod bfs;
pub mod dfs;
pub mod levels;

verus! {

/// The nodes that a traversal has visited, one bit for each node of the graph.
pub struct DiscoveredSet {
    words: Vec<usize>,
    size: usize,
}

impl DiscoveredSet {
    /// There is a bit for every node.
    pub closed spec fn wf(&self) -> bool {
        self.words@.len() == self.size / WORD_BITS + 1
    }

    /// The number of nodes that the set was made for.
    pub closed spec fn size(&self) -> nat {
        self.size as nat
    }

    /// The nodes that are marked.
    pub closed spec fn view(&self) -> Set<usize> {
        Set::new(
            |node: usize|
                node < self.size && bit_at(
                    self.words@[(node / WORD_BITS) as int],
                    node % WORD_BITS,
                ),
        )
    }

    /// A set for `size` nodes, none of them marked.
    pub fn new(size: usize) -> (set: Self)
        ensures
            set.wf(),
            set.size() == size,
            set@ == Set::<usize>::empty(),
    {
        let set = DiscoveredSet { words: vec![0; size / WORD_BITS + 1], size };
        proof {
            assert forall|node: usize| !set@.contains(node) by {
                if node < size {
                    lemma_word_position(node);
                    lemma_word_position(size);
                    vstd::arithmetic::div_mod::lemma_div_is_ordered(
                        node as int,
                        size as int,
                        WORD_BITS as int,
                    );
                    lemma_zero_word(0);
                }
            }
            assert(set@ =~= Set::<usize>::empty());
        }
        set
    }

    /// Whether `node` is marked. A node that the set was not made for is not.
    pub fn contains(&self, node: usize) -> (marked: bool)
        requires
            self.wf(),
        ensures
            marked == self@.contains(node),
    {
        if node >= self.size {
            return false;
        }
        proof {
            lemma_word_position(node);
            lemma_word_position(self.size);
            vstd::arithmetic::div_mod::lemma_div_is_ordered(
                node as int,
                self.size as int,
                WORD_BITS as int,
            );
            lemma_single_bit(self.words@[(node / WORD_BITS) as int], node % WORD_BITS);
        }
        (self.words[node / WORD_BITS] & single_bit_mask(node % WORD_BITS)) != 0
    }

    /// Marks `node`. Fails where the set was not made for the node.
    pub fn insert(&mut self, node: usize) -> (r: Result<(), GraphError>)
        requires
            old(self).wf(),
        ensures
            final(self).wf(),
            final(self).size() == old(self).size(),
            r is Ok <==> node < old(self).size(),
            r is Ok ==> final(self)@ == old(self)@.insert(node),
            r matches Err(e) ==> e == GraphError::IndexOutOfRange && final(self)@ == old(self)@,
    {
        if node >= self.size {
            return Err(GraphError::IndexOutOfRange);
        }
        proof {
            lemma_word_position(node);
            lemma_word_position(self.size);
            vstd::arithmetic::div_mod::lemma_div_is_ordered(
                node as int,
                self.size as int,
                WORD_BITS as int,
            );
        }
        let slot = node / WORD_BITS;
        let word = self.words[slot] | single_bit_mask(node % WORD_BITS);
        self.words[slot] = word;
        proof {
            lemma_single_bit(old(self).words@[slot as int], node % WORD_BITS);
            assert forall|other: usize| self@.contains(other) == old(self)@.insert(node).contains(
                other,
            ) by {
                if other < self.size {
                    lemma_word_position(other);
                    vstd::arithmetic::div_mod::lemma_div_is_ordered(
                        other as int,
                        self.size as int,
                        WORD_BITS as int,
                    );
                    let at = other / WORD_BITS;
                    let bit = other % WORD_BITS;
                    if at == slot {
                        assert(self.words@[at as int] == word);
                        assert(bit_at(word, bit) == (bit == node % WORD_BITS || bit_at(
                            old(self).words@[slot as int],
                            bit,
                        )));
                        if bit == node % WORD_BITS {
                            assert(other == node);
                        }
                    } else {
                        assert(self.words@[at as int] == old(self).words@[at as int]);
                    }
                }
            }
            assert(self@ =~= old(self)@.insert(node));
        }
        Ok(())
    }
}

/// The neighbours that are not yet discovered, each paired with the node `pred`
/// from which it was seen, in the order of `neighbours`.
pub open spec fn fresh_entries(neighbours: Seq<usize>, pred: usize, discovered: Set<usize>) -> Seq<
    (usize, usize),
>
    decreases neighbours.len(),
{
    if neighbours.len() == 0 {
        Seq::empty()
    } else {
        let rest = fresh_entries(neighbours.drop_last(), pred, discovered);
        if discovered.contains(neighbours.last()) {
            rest
        } else {
            rest.push((neighbours.last(), pred))
        }
    }
}

/// The state of a breadth-first or depth-first traversal.
///
/// `frontier` holds the pairs (node, predecessor) that wait to be processed,
/// `discovered` the nodes that were visited, and `from_map` the predecessor
/// through which each visited node was reached (`usize::MAX` for a node not
/// visited yet).
pub struct SearchModel {
    pub root: usize,
    pub frontier: Seq<(usize, usize)>,
    pub discovered: Set<usize>,
    pub from_map: Seq<usize>,
}

impl SearchModel {
    /// The state of a traversal that has not taken a step: only the root
    /// waits, paired with itself.
    pub open spec fn start(root: usize, count: nat) -> Self {
        SearchModel {
            root,
            frontier: seq![(root, root)],
            discovered: Set::empty(),
            from_map: Seq::new(count, |i: int| usize::MAX),
        }
    }

    /// Some waiting pair names `node`.
    pub open spec fn awaits(self, node: usize) -> bool {
        exists|i: int| 0 <= i < self.frontier.len() && (#[trigger] self.frontier[i]).0 == node
    }

    /// The state after the waiting pair `entry` was taken out, leaving `rest`,
    /// and its node was visited: the node is discovered, its predecessor is
    /// recorded, and its neighbours that are still undiscovered wait behind
    /// `rest`.
    pub open spec fn visit<T, W>(
        self,
        entry: (usize, usize),
        rest: Seq<(usize, usize)>,
        g: GraphModel<T, W>,
    ) -> Self {
        let discovered = self.discovered.insert(entry.0);
        SearchModel {
            root: self.root,
            frontier: rest + fresh_entries(g.outgoing(entry.0), entry.0, discovered),
            discovered,
            from_map: self.from_map.update(entry.0 as int, entry.1),
        }
    }

    /// The same state with another frontier.
    pub open spec fn with_frontier(self, frontier: Seq<(usize, usize)>) -> Self {
        SearchModel { frontier, ..self }
    }

    /// The position of the waiting pair that is taken next: the front of a
    /// queue, or, with `lifo`, the top of a stack.
    pub open spec fn next_at(self, lifo: bool) -> int {
        if lifo {
            self.frontier.len() - 1
        } else {
            0
        }
    }

    /// Where draining the frontier for `target` ends: waiting pairs are taken
    /// one by one, and the node of each is visited unless it is discovered,
    /// until a pair names `target`, which is taken out without a visit, or
    /// none is left. `None` where that takes more than `fuel` visits and
    /// skips.
    pub open spec fn drain<T, W>(
        self,
        g: GraphModel<T, W>,
        target: usize,
        lifo: bool,
        fuel: nat,
    ) -> Option<Drained>
        decreases fuel,
    {
        if self.frontier.len() == 0 {
            Some(Drained { found: None, state: self })
        } else {
            let k = self.next_at(lifo);
            let entry = self.frontier[k];
            let rest = self.frontier.remove(k);
            if entry.0 == target {
                Some(Drained { found: Some(entry), state: self.with_frontier(rest) })
            } else if fuel == 0 {
                None
            } else if self.discovered.contains(entry.0) {
                self.with_frontier(rest).drain(g, target, lifo, (fuel - 1) as nat)
            } else {
                self.visit(entry, rest, g).drain(g, target, lifo, (fuel - 1) as nat)
            }
        }
    }

    /// `target` can still come out of the frontier: it waits there, or a walk
    /// leads to it from a waiting node over undiscovered nodes only.
    pub open spec fn pending<T, W>(self, g: GraphModel<T, W>, target: usize) -> bool {
        exists|walk: Seq<usize>| self.leads_to(g, target, walk)
    }

    /// `walk` shows that `target` is pending.
    pub open spec fn leads_to<T, W>(
        self,
        g: GraphModel<T, W>,
        target: usize,
        walk: Seq<usize>,
    ) -> bool {
        &&& g.is_walk(walk)
        &&& walk.last() == target
        &&& self.awaits(walk[0])
        &&& walk.len() > 1 ==> forall|j: int|
            0 <= j < walk.len() ==> !self.discovered.contains(#[trigger] walk[j])
    }
}

/// How the drain of a frontier ends: with the waiting pair that named the
/// target, if one did, and the state that is left.
pub struct Drained {
    pub found: Option<(usize, usize)>,
    pub state: SearchModel,
}

/// A waiting pair is the seed `(root, root)` of a traversal that has not
/// started, or names a discovered node and one of its neighbours. Only the
/// seed names the root.
pub open spec fn entry_ok<T, W>(s: SearchModel, g: GraphModel<T, W>, entry: (usize, usize)) -> bool {
    &&& entry.0 < g.count
    &&& entry.1 < g.count
    &&& (entry.0 == s.root && entry.1 == s.root && !s.discovered.contains(s.root)) || (entry.0
        != s.root && s.discovered.contains(entry.1) && g.edges.contains_key((entry.1, entry.0)))
}

/// Where the node of a waiting pair is discovered, it was discovered after the
/// node from which the pair comes.
pub open spec fn entry_later(s: SearchModel, turn: Seq<nat>, entry: (usize, usize)) -> bool {
    s.discovered.contains(entry.0) ==> turn[entry.1 as int] < turn[entry.0 as int]
}

/// A discovered node is the root, or was reached over an edge from a node
/// discovered before it.
pub open spec fn linked_back<T, W>(
    s: SearchModel,
    turn: Seq<nat>,
    g: GraphModel<T, W>,
    node: usize,
) -> bool {
    if node == s.root {
        s.from_map[node as int] == s.root && turn[node as int] == 0
    } else {
        let pred = s.from_map[node as int];
        &&& pred < g.count
        &&& s.discovered.contains(pred)
        &&& g.edges.contains_key((pred, node))
        &&& turn[pred as int] < turn[node as int]
    }
}

/// What holds of a traversal of `g` at every moment. `turn` gives each
/// discovered node its turn: the number of nodes that were discovered before
/// it.
#[verifier::opaque]
pub open spec fn search_inv<T, W>(s: SearchModel, turn: Seq<nat>, g: GraphModel<T, W>) -> bool {
    &&& s.root < g.count <= usize::MAX
    &&& s.from_map.len() == g.count
    &&& turn.len() == g.count
    &&& forall|node: usize| s.discovered.contains(node) ==> node < g.count
    &&& forall|node: usize| #[trigger] s.discovered.contains(node) ==> s.discovered.contains(s.root)
    &&& !s.discovered.contains(s.root) ==> s.frontier.len() <= 1
    &&& forall|i: int| 0 <= i < s.frontier.len() ==> entry_ok(s, g, #[trigger] s.frontier[i])
    &&& forall|i: int|
        0 <= i < s.frontier.len() ==> entry_later(s, turn, #[trigger] s.frontier[i])
    &&& forall|node: usize| s.discovered.contains(node) ==> linked_back(s, turn, g, node)
    &&& forall|node: usize|
        #[trigger] s.discovered.contains(node) ==> turn[node as int] < s.discovered.len()
}

/// The nodes over which `node` was reached from the root, `node` last.
pub open spec fn trail(from_map: Seq<usize>, turn: Seq<nat>, root: usize, node: usize) -> Seq<
    usize,
>
    decreases
            (if node < turn.len() {
                turn[node as int]
            } else {
                0
            }),
{
    if node == root || node >= turn.len() || node >= from_map.len() {
        seq![node]
    } else {
        let pred = from_map[node as int];
        if pred < turn.len() && turn[pred as int] < turn[node as int] {
            trail(from_map, turn, root, pred).push(node)
        } else {
            seq![node]
        }
    }
}

/// The trail of a discovered node is a walk from the root to that node.
pub proof fn lemma_trail_is_walk<T, W>(
    s: SearchModel,
    turn: Seq<nat>,
    g: GraphModel<T, W>,
    node: usize,
)
    requires
        search_inv(s, turn, g),
        s.discovered.contains(node) || node == s.root,
    ensures
        g.is_walk(trail(s.from_map, turn, s.root, node)),
        trail(s.from_map, turn, s.root, node)[0] == s.root,
        trail(s.from_map, turn, s.root, node).last() == node,
    decreases turn[node as int],
{
    reveal(search_inv);
    if node != s.root {
        assert(linked_back(s, turn, g, node));
        let pred = s.from_map[node as int];
        lemma_trail_is_walk(s, turn, g, pred);
        let before = trail(s.from_map, turn, s.root, pred);
        let whole = trail(s.from_map, turn, s.root, node);
        assert(whole == before.push(node));
        assert forall|i: int| 0 <= i < whole.len() - 1 implies #[trigger] g.joined(whole, i) by {
            if i < before.len() - 1 {
                assert(g.joined(before, i));
                assert(whole[i] == before[i] && whole[i + 1] == before[i + 1]);
            }
        }
    }
}

/// One more neighbour adds one waiting pair, unless it is discovered already.
pub proof fn lemma_fresh_entries_step(
    neighbours: Seq<usize>,
    pred: usize,
    discovered: Set<usize>,
    i: int,
)
    requires
        0 <= i < neighbours.len(),
    ensures
        fresh_entries(neighbours.take(i + 1), pred, discovered) == (if discovered.contains(
            neighbours[i],
        ) {
            fresh_entries(neighbours.take(i), pred, discovered)
        } else {
            fresh_entries(neighbours.take(i), pred, discovered).push((neighbours[i], pred))
        }),
{
    assert(neighbours.take(i + 1).drop_last() =~= neighbours.take(i));
}

/// The waiting pairs made from a list of neighbours name exactly its
/// undiscovered elements, each with `pred`.
pub proof fn lemma_fresh_entries(neighbours: Seq<usize>, pred: usize, discovered: Set<usize>)
    ensures
        forall|j: int|
            0 <= j < fresh_entries(neighbours, pred, discovered).len() ==> {
                let entry = #[trigger] fresh_entries(neighbours, pred, discovered)[j];
                entry.1 == pred && !discovered.contains(entry.0) && neighbours.contains(entry.0)
            },
        forall|i: int|
            0 <= i < neighbours.len() && !discovered.contains(#[trigger] neighbours[i])
                ==> exists|j: int|
                0 <= j < fresh_entries(neighbours, pred, discovered).len() && (
                #[trigger] fresh_entries(neighbours, pred, discovered)[j]).0 == neighbours[i],
    decreases neighbours.len(),
{
    if neighbours.len() > 0 {
        let front = neighbours.drop_last();
        let rest = fresh_entries(front, pred, discovered);
        let all = fresh_entries(neighbours, pred, discovered);
        lemma_fresh_entries(front, pred, discovered);
        assert forall|j: int| 0 <= j < all.len() implies {
            let entry = #[trigger] all[j];
            entry.1 == pred && !discovered.contains(entry.0) && neighbours.contains(entry.0)
        } by {
            if j < rest.len() {
                assert(all[j] == rest[j]);
                assert(front.contains(rest[j].0));
                let i = choose|i: int| 0 <= i < front.len() && front[i] == rest[j].0;
                assert(neighbours[i] == rest[j].0);
            } else {
                assert(neighbours[neighbours.len() - 1] == all[j].0);
            }
        }
        assert forall|i: int|
            0 <= i < neighbours.len() && !discovered.contains(
                #[trigger] neighbours[i],
            ) implies exists|j: int| 0 <= j < all.len() && (#[trigger] all[j]).0 == neighbours[i] by {
            if i < front.len() {
                assert(front[i] == neighbours[i]);
                let j = choose|j: int| 0 <= j < rest.len() && (#[trigger] rest[j]).0 == front[i];
                assert(all[j].0 == neighbours[i]);
            } else {
                assert(all[all.len() - 1].0 == neighbours[i]);
            }
        }
    }
}

/// What is left of a walk after its first `i` nodes is a walk to the same end.
pub proof fn lemma_walk_tail<T, W>(g: GraphModel<T, W>, walk: Seq<usize>, i: int)
    requires
        g.is_walk(walk),
        0 <= i < walk.len(),
    ensures
        g.is_walk(walk.skip(i)),
        walk.skip(i).last() == walk.last(),
        walk.skip(i)[0] == walk[i],
{
    let tail = walk.skip(i);
    assert forall|j: int| 0 <= j < tail.len() implies (#[trigger] tail[j]) < g.count by {
        assert(tail[j] == walk[i + j]);
    }
    assert forall|j: int| 0 <= j < tail.len() - 1 implies #[trigger] g.joined(tail, j) by {
        assert(g.joined(walk, i + j));
        assert(tail[j] == walk[i + j] && tail[j + 1] == walk[i + j + 1]);
    }
}

/// Taking out a waiting pair whose node is discovered, and is not the target,
/// takes nothing away from what is pending.
pub proof fn lemma_drop_keeps_pending<T, W>(
    s: SearchModel,
    g: GraphModel<T, W>,
    target: usize,
    k: int,
)
    requires
        0 <= k < s.frontier.len(),
        s.frontier[k].0 != target,
        s.discovered.contains(s.frontier[k].0),
    ensures
        s.pending(g, target) <==> s.with_frontier(s.frontier.remove(k)).pending(g, target),
{
    let rest = s.frontier.remove(k);
    let after = s.with_frontier(rest);
    if s.pending(g, target) {
        let walk = choose|walk: Seq<usize>| s.leads_to(g, target, walk);
        let i = choose|i: int| 0 <= i < s.frontier.len() && (#[trigger] s.frontier[i]).0 == walk[0];
        if i == k {
            if walk.len() > 1 {
                assert(!s.discovered.contains(walk[0]));
            }
        }
        if i < k {
            assert(after.frontier[i].0 == walk[0]);
        } else {
            assert(after.frontier[i - 1].0 == walk[0]);
        }
        assert(after.awaits(walk[0]));
        assert(after.leads_to(g, target, walk));
    }
    if after.pending(g, target) {
        let walk = choose|walk: Seq<usize>| after.leads_to(g, target, walk);
        let j = choose|j: int| 0 <= j < rest.len() && (#[trigger] rest[j]).0 == walk[0];
        if j < k {
            assert(s.frontier[j].0 == walk[0]);
        } else {
            assert(s.frontier[j + 1].0 == walk[0]);
        }
        assert(s.leads_to(g, target, walk));
    }
}

/// A walk over undiscovered nodes that starts at the node being visited shows
/// that its end is pending after the visit.
proof fn lemma_walk_from_visited<T, W>(
    s: SearchModel,
    g: GraphModel<T, W>,
    target: usize,
    k: int,
    walk: Seq<usize>,
)
    requires
        g.count <= usize::MAX,
        0 <= k < s.frontier.len(),
        s.frontier[k].0 != target,
        !s.discovered.contains(s.frontier[k].0),
        g.is_walk(walk),
        walk.last() == target,
        walk[0] == s.frontier[k].0,
        forall|j: int| 0 <= j < walk.len() ==> !s.discovered.contains(#[trigger] walk[j]),
    ensures
        s.visit(s.frontier[k], s.frontier.remove(k), g).pending(g, target),
    decreases walk.len(),
{
    let entry = s.frontier[k];
    let node = entry.0;
    let rest = s.frontier.remove(k);
    let after = s.visit(entry, rest, g);
    let tail = walk.skip(1);
    lemma_walk_tail(g, walk, 1);
    assert forall|j: int| 0 <= j < tail.len() implies !s.discovered.contains(#[trigger] tail[j]) by {
        assert(tail[j] == walk[j + 1]);
    }
    if tail.contains(node) {
        let i = choose|i: int| 0 <= i < tail.len() && tail[i] == node;
        lemma_walk_tail(g, tail, i);
        let shorter = tail.skip(i);
        assert forall|j: int| 0 <= j < shorter.len() implies !s.discovered.contains(
            #[trigger] shorter[j],
        ) by {
            assert(shorter[j] == tail[i + j]);
        }
        lemma_walk_from_visited(s, g, target, k, shorter);
    } else {
        let next = walk[1];
        assert(tail[0] == next);
        assert(g.joined(walk, 0));
        let keep = |to: usize| g.edges.contains_key((node, to));
        crate::model::lemma_ascending_where(g.count, keep);
        assert(keep(next));
        let neighbours = g.outgoing(node);
        assert(neighbours.contains(next));
        let at = choose|at: int| 0 <= at < neighbours.len() && neighbours[at] == next;
        let added = fresh_entries(neighbours, node, after.discovered);
        lemma_fresh_entries(neighbours, node, after.discovered);
        assert(!after.discovered.contains(neighbours[at]));
        let j = choose|j: int| 0 <= j < added.len() && (#[trigger] added[j]).0 == neighbours[at];
        assert(after.frontier[rest.len() + j] == added[j]);
        assert(after.awaits(tail[0]));
        assert forall|j: int| 0 <= j < tail.len() implies !after.discovered.contains(
            #[trigger] tail[j],
        ) by {
            assert(tail.contains(tail[j]));
        }
        assert(after.leads_to(g, target, tail));
    }
}

/// Visiting a node that is not the target takes nothing away from what is
/// pending, and adds nothing to it.
pub proof fn lemma_visit_keeps_pending<T, W>(
    s: SearchModel,
    g: GraphModel<T, W>,
    target: usize,
    k: int,
)
    requires
        g.count <= usize::MAX,
        0 <= k < s.frontier.len(),
        s.frontier[k].0 < g.count,
        s.frontier[k].0 != target,
        !s.discovered.contains(s.frontier[k].0),
    ensures
        s.pending(g, target) <==> s.visit(s.frontier[k], s.frontier.remove(k), g).pending(
            g,
            target,
        ),
{
    let entry = s.frontier[k];
    let node = entry.0;
    let rest = s.frontier.remove(k);
    let after = s.visit(entry, rest, g);
    let neighbours = g.outgoing(node);
    let added = fresh_entries(neighbours, node, after.discovered);
    if s.pending(g, target) {
        let walk = choose|walk: Seq<usize>| s.leads_to(g, target, walk);
        if walk.len() > 1 && walk.contains(node) {
            let i = choose|i: int| 0 <= i < walk.len() && walk[i] == node;
            lemma_walk_tail(g, walk, i);
            let tail = walk.skip(i);
            assert forall|j: int| 0 <= j < tail.len() implies !s.discovered.contains(
                #[trigger] tail[j],
            ) by {
                assert(tail[j] == walk[i + j]);
            }
            lemma_walk_from_visited(s, g, target, k, tail);
        } else {
            let i = choose|i: int|
                0 <= i < s.frontier.len() && (#[trigger] s.frontier[i]).0 == walk[0];
            if walk.len() > 1 {
                assert(walk.contains(walk[0]));
            }
            assert(i != k);
            if i < k {
                assert(after.frontier[i] == rest[i] && rest[i] == s.frontier[i]);
            } else {
                assert(after.frontier[i - 1] == rest[i - 1] && rest[i - 1] == s.frontier[i]);
            }
            assert(after.awaits(walk[0]));
            if walk.len() > 1 {
                assert forall|j: int| 0 <= j < walk.len() implies !after.discovered.contains(
                    #[trigger] walk[j],
                ) by {
                    assert(walk.contains(walk[j]));
                }
            }
            assert(after.leads_to(g, target, walk));
        }
    }
    if after.pending(g, target) {
        let walk = choose|walk: Seq<usize>| after.leads_to(g, target, walk);
        let j = choose|j: int|
            0 <= j < after.frontier.len() && (#[trigger] after.frontier[j]).0 == walk[0];
        if j < rest.len() {
            assert(after.frontier[j] == rest[j]);
            if j < k {
                assert(s.frontier[j].0 == walk[0]);
            } else {
                assert(s.frontier[j + 1].0 == walk[0]);
            }
            assert(s.leads_to(g, target, walk));
        } else {
            lemma_fresh_entries(neighbours, node, after.discovered);
            let entry_j = added[j - rest.len()];
            assert(after.frontier[j] == entry_j);
            assert(neighbours.contains(entry_j.0));
            let keep = |to: usize| g.edges.contains_key((node, to));
            crate::model::lemma_ascending_where(g.count, keep);
            let at = choose|at: int| 0 <= at < neighbours.len() && neighbours[at] == entry_j.0;
            assert(neighbours[at] < g.count && keep(neighbours[at]));
            let longer = seq![node] + walk;
            assert forall|i: int| 0 <= i < longer.len() implies (#[trigger] longer[i]) < g.count by {
                if i > 0 {
                    assert(longer[i] == walk[i - 1]);
                }
            }
            assert forall|i: int| 0 <= i < longer.len() - 1 implies #[trigger] g.joined(
                longer,
                i,
            ) by {
                if i > 0 {
                    assert(g.joined(walk, i - 1));
                    assert(longer[i] == walk[i - 1] && longer[i + 1] == walk[i - 1 + 1]);
                } else {
                    assert(longer[1] == walk[0]);
                }
            }
            assert forall|i: int| 0 <= i < longer.len() implies !s.discovered.contains(
                #[trigger] longer[i],
            ) by {
                if i > 0 {
                    assert(longer[i] == walk[i - 1]);
                    if walk.len() > 1 {
                        assert(!after.discovered.contains(walk[i - 1]));
                    } else {
                        assert(!after.discovered.contains(entry_j.0));
                    }
                }
            }
            assert(longer.last() == walk.last());
            assert(s.frontier[k].0 == longer[0]);
            assert(s.leads_to(g, target, longer));
        }
    }
}

/// Taking a waiting pair out of the frontier without a visit keeps the
/// traversal consistent.
pub proof fn lemma_drop_keeps_inv<T, W>(
    s: SearchModel,
    turn: Seq<nat>,
    g: GraphModel<T, W>,
    k: int,
)
    requires
        search_inv(s, turn, g),
        0 <= k < s.frontier.len(),
    ensures
        search_inv(s.with_frontier(s.frontier.remove(k)), turn, g),
{
    reveal(search_inv);
    let rest = s.frontier.remove(k);
    let after = s.with_frontier(rest);
    assert forall|i: int| 0 <= i < rest.len() implies entry_ok(after, g, #[trigger] rest[i]) by {
        if i < k {
            assert(entry_ok(s, g, s.frontier[i]));
        } else {
            assert(entry_ok(s, g, s.frontier[i + 1]));
        }
    }
    assert forall|i: int| 0 <= i < rest.len() implies entry_later(
        after,
        turn,
        #[trigger] rest[i],
    ) by {
        if i < k {
            assert(entry_later(s, turn, s.frontier[i]));
        } else {
            assert(entry_later(s, turn, s.frontier[i + 1]));
        }
    }
    assert forall|node: usize| after.discovered.contains(node) implies linked_back(
        after,
        turn,
        g,
        node,
    ) by {
        assert(linked_back(s, turn, g, node));
    }
}

/// The turn of the node that is visited next: the number of nodes that were
/// discovered before it.
pub open spec fn turn_of(s: SearchModel) -> nat {
    s.discovered.len()
}

/// Visiting an undiscovered node keeps the traversal consistent.
pub proof fn lemma_visit_keeps_inv<T, W>(
    s: SearchModel,
    turn: Seq<nat>,
    g: GraphModel<T, W>,
    k: int,
)
    requires
        search_inv(s, turn, g),
        0 <= k < s.frontier.len(),
        !s.discovered.contains(s.frontier[k].0),
    ensures
        search_inv(
            s.visit(s.frontier[k], s.frontier.remove(k), g),
            turn.update(s.frontier[k].0 as int, turn_of(s)),
            g,
        ),
{
    reveal(search_inv);
    let entry = s.frontier[k];
    let node = entry.0;
    let rest = s.frontier.remove(k);
    let after = s.visit(entry, rest, g);
    let turns = turn.update(node as int, turn_of(s));
    lemma_bounded_set(s.discovered, g.count as usize);
    assert(after.discovered.len() == s.discovered.len() + 1);
    if node == s.root {
        assert(s.discovered =~= Set::<usize>::empty()) by {
            assert forall|other: usize| !s.discovered.contains(other) by {
                if s.discovered.contains(other) {
                    assert(s.discovered.contains(s.root));
                }
            }
        }
    }
    let neighbours = g.outgoing(node);
    let added = fresh_entries(neighbours, node, after.discovered);
    assert(entry_ok(s, g, entry));
    if node != s.root {
        assert(s.discovered.contains(entry.1));
        assert(s.discovered.contains(s.root));
    }
    assert forall|i: int| 0 <= i < after.frontier.len() implies entry_ok(
        after,
        g,
        #[trigger] after.frontier[i],
    ) by {
        if i < rest.len() {
            let old_entry = if i < k {
                s.frontier[i]
            } else {
                s.frontier[i + 1]
            };
            assert(after.frontier[i] == old_entry);
            assert(entry_ok(s, g, old_entry));
            if old_entry.0 == s.root && old_entry.1 == s.root && !s.discovered.contains(s.root) {
                // Nothing was discovered, so the pair taken out was a seed too.
                assert(!s.discovered.contains(entry.1));
                assert(node == s.root);
            }
        } else {
            lemma_fresh_entries(neighbours, node, after.discovered);
            let new_entry = added[i - rest.len()];
            assert(after.frontier[i] == new_entry);
            assert(neighbours.contains(new_entry.0));
            let keep = |to: usize| g.edges.contains_key((node, to));
            crate::model::lemma_ascending_where(g.count, keep);
            let at = choose|at: int| 0 <= at < neighbours.len() && neighbours[at] == new_entry.0;
            assert(neighbours[at] < g.count && keep(neighbours[at]));
        }
    }
    assert forall|i: int| 0 <= i < after.frontier.len() implies entry_later(
        after,
        turns,
        #[trigger] after.frontier[i],
    ) by {
        if i < rest.len() {
            let old_entry = if i < k {
                s.frontier[i]
            } else {
                s.frontier[i + 1]
            };
            assert(after.frontier[i] == old_entry);
            assert(entry_ok(s, g, old_entry));
            assert(entry_later(s, turn, old_entry));
            if old_entry.0 == s.root && old_entry.1 == s.root && !s.discovered.contains(s.root) {
                assert(!s.discovered.contains(entry.1));
                assert(node == s.root);
            } else {
                assert(s.discovered.contains(old_entry.1));
            }
        } else {
            lemma_fresh_entries(neighbours, node, after.discovered);
            assert(after.frontier[i] == added[i - rest.len()]);
        }
    }
    assert forall|other: usize| after.discovered.contains(other) implies linked_back(
        after,
        turns,
        g,
        other,
    ) by {
        if other != node {
            assert(linked_back(s, turn, g, other));
        } else if node != s.root {
            assert(s.discovered.contains(entry.1));
        }
    }
    assert forall|other: usize| #[trigger] after.discovered.contains(other) implies turns[other as int]
        < after.discovered.len() by {
        if other != node {
            assert(s.discovered.contains(other));
        }
    }
}

/// What the invariant says outright: the sizes fit the graph, and discovered
/// nodes are nodes of the graph.
pub proof fn lemma_inv_bounds<T, W>(s: SearchModel, turn: Seq<nat>, g: GraphModel<T, W>)
    requires
        search_inv(s, turn, g),
    ensures
        s.root < g.count <= usize::MAX,
        s.from_map.len() == g.count,
        turn.len() == g.count,
        forall|node: usize| s.discovered.contains(node) ==> node < g.count,
{
    reveal(search_inv);
}

/// What the invariant says of the waiting pair at position `i`.
pub proof fn lemma_inv_entry<T, W>(s: SearchModel, turn: Seq<nat>, g: GraphModel<T, W>, i: int)
    requires
        search_inv(s, turn, g),
        0 <= i < s.frontier.len(),
    ensures
        entry_ok(s, g, s.frontier[i]),
        entry_later(s, turn, s.frontier[i]),
{
    reveal(search_inv);
}

/// What the invariant says of a discovered node.
pub proof fn lemma_inv_linked<T, W>(
    s: SearchModel,
    turn: Seq<nat>,
    g: GraphModel<T, W>,
    node: usize,
)
    requires
        search_inv(s, turn, g),
        s.discovered.contains(node),
    ensures
        linked_back(s, turn, g, node),
        node < g.count,
        s.discovered.contains(s.root),
{
    reveal(search_inv);
}

/// A traversal that has not taken a step is consistent.
pub proof fn lemma_start_inv<T, W>(root: usize, g: GraphModel<T, W>)
    requires
        root < g.count <= usize::MAX,
    ensures
        search_inv(SearchModel::start(root, g.count), Seq::new(g.count, |i: int| 0nat), g),
{
    reveal(search_inv);
}

/// An edge leads from the node at position `i + 1` of `back` to the one at
/// position `i`.
pub open spec fn joined_back<T, W>(g: GraphModel<T, W>, back: Seq<usize>, i: int) -> bool {
    g.edges.contains_key((back[i + 1], back[i]))
}

/// The node at position `i + 1` of `back` is the predecessor recorded for the
/// one at position `i`.
pub open spec fn recorded_back(from_map: Seq<usize>, back: Seq<usize>, i: int) -> bool {
    back[i + 1] == from_map[back[i] as int]
}

/// Each node of `path` from its second to the last but one has the node before
/// it as its recorded predecessor.
pub open spec fn follows_records(from_map: Seq<usize>, path: Seq<usize>) -> bool {
    forall|i: int| 0 < i < path.len() - 1 ==> path[i - 1] == from_map[(#[trigger] path[i]) as int]
}

/// The nodes from the root to `idx`, where the traversal took the waiting pair
/// `(idx, from)` out of its frontier: the recorded predecessors are followed
/// from `from` back to the root. For the root itself these are the root alone.
pub(crate) fn trace_back<T, W>(
    from_map: &Vec<usize>,
    root: usize,
    idx: usize,
    from: usize,
    Ghost(s): Ghost<SearchModel>,
    Ghost(turn): Ghost<Seq<nat>>,
    Ghost(g): Ghost<GraphModel<T, W>>,
) -> (path: Vec<usize>)
    requires
        search_inv(s, turn, g),
        from_map@ == s.from_map,
        root == s.root,
        entry_ok(s, g, (idx, from)),
        entry_later(s, turn, (idx, from)),
    ensures
        g.is_walk(path@),
        path@.no_duplicates(),
        path@[0] == root,
        path@.last() == idx,
        follows_records(s.from_map, path@),
        forall|i: int| 0 < i < path@.len() - 1 ==> (#[trigger] path@[i]) != root,
        idx == root ==> path@ == seq![root] && from == root,
        idx != root ==> path@.len() >= 2 && path@[path@.len() - 2] == from,
        idx != root ==> forall|i: int|
            0 <= i < path@.len() - 1 ==> s.discovered.contains(#[trigger] path@[i]),
{
    let mut out: Vec<usize> = Vec::new();
    out.push(idx);
    proof {
        lemma_inv_bounds(s, turn, g);
    }
    if idx == root {
        proof {
            assert(out@ =~= seq![root]);
        }
        return out;
    }
    let mut from_tmp = from;
    out.push(from);
    proof {
        lemma_inv_linked(s, turn, g, from);
    }
    loop
        invariant
            search_inv(s, turn, g),
            from_map@ == s.from_map,
            root == s.root,
            idx != root,
            entry_ok(s, g, (idx, from)),
            entry_later(s, turn, (idx, from)),
            forall|i: int| 1 <= i < out@.len() ==> s.discovered.contains(#[trigger] out@[i]),
            forall|i: int, j: int|
                1 <= i < j < out@.len() ==> turn[(#[trigger] out@[j]) as int] < turn[(
                #[trigger] out@[i]) as int],
            out@.len() >= 2,
            out@[0] == idx,
            out@[1] == from,
            out@.last() == from_tmp,
            from_tmp < g.count,
            s.discovered.contains(from_tmp),
            forall|i: int| 0 <= i < out@.len() ==> (#[trigger] out@[i]) < g.count,
            forall|i: int| 0 <= i < out@.len() - 1 ==> #[trigger] joined_back(g, out@, i),
            forall|i: int|
                1 <= i < out@.len() - 1 ==> #[trigger] recorded_back(s.from_map, out@, i),
            forall|i: int| 0 <= i < out@.len() - 1 ==> (#[trigger] out@[i]) != root,
        ensures
            from_tmp == root,
        decreases turn[from_tmp as int],
    {
        if from_tmp == root {
            break ;
        }
        proof {
            lemma_inv_bounds(s, turn, g);
            lemma_inv_linked(s, turn, g, from_tmp);
        }
        let from_idx = from_map[from_tmp];
        let ghost shown = out@;
        out.push(from_idx);
        proof {
            assert forall|i: int, j: int| 1 <= i < j < out@.len() implies turn[(
            #[trigger] out@[j]) as int] < turn[(#[trigger] out@[i]) as int] by {
                if j == shown.len() {
                    if i < shown.len() - 1 {
                        assert(turn[shown[shown.len() - 1] as int] < turn[shown[i] as int]);
                    }
                } else {
                    assert(out@[i] == shown[i] && out@[j] == shown[j]);
                }
            }
            assert forall|i: int| 0 <= i < out@.len() - 1 implies #[trigger] joined_back(
                g,
                out@,
                i,
            ) by {
                if i < shown.len() - 1 {
                    assert(joined_back(g, shown, i));
                }
            }
            assert forall|i: int| 1 <= i < out@.len() - 1 implies #[trigger] recorded_back(
                s.from_map,
                out@,
                i,
            ) by {
                if i < shown.len() - 1 {
                    assert(recorded_back(s.from_map, shown, i));
                }
            }
        }
        from_tmp = from_idx;
    }
    let path = reversed(out);
    proof {
        let n = out@.len() as int;
        assert forall|i: int, j: int| 0 <= i < j < n implies out@[i] != out@[j] by {
            if i == 0 {
                if j > 1 {
                    assert(turn[out@[j] as int] < turn[out@[1] as int]);
                }
                assert(s.discovered.contains(out@[j]));
            } else {
                assert(turn[out@[j] as int] < turn[out@[i] as int]);
            }
        }
        assert forall|i: int, j: int|
            0 <= i < path@.len() && 0 <= j < path@.len() && i != j implies path@[i] != path@[j] by {
            assert(path@[i] == out@[n - 1 - i] && path@[j] == out@[n - 1 - j]);
        }
        assert(path@[0] == out@[n - 1]);
        assert(path@[n - 1] == out@[0]);
        assert(path@[n - 2] == out@[1]);
        assert forall|i: int| 0 <= i < path@.len() - 1 implies s.discovered.contains(
            #[trigger] path@[i],
        ) by {
            assert(path@[i] == out@[n - 1 - i]);
        }
        assert forall|i: int| 0 < i < path@.len() - 1 implies (#[trigger] path@[i]) != root by {
            assert(path@[i] == out@[n - 1 - i]);
        }
        assert forall|i: int| 0 < i < path@.len() - 1 implies path@[i - 1] == s.from_map[(
        #[trigger] path@[i]) as int] by {
            assert(path@[i] == out@[n - 1 - i] && path@[i - 1] == out@[n - i]);
            assert(recorded_back(s.from_map, out@, n - 1 - i));
        }
        assert forall|i: int| 0 <= i < path@.len() implies (#[trigger] path@[i]) < g.count by {
            assert(path@[i] == out@[n - 1 - i]);
        }
        assert forall|i: int| 0 <= i < path@.len() - 1 implies #[trigger] g.joined(path@, i) by {
            assert(path@[i] == out@[n - 1 - i] && path@[i + 1] == out@[n - 2 - i]);
            assert(joined_back(g, out@, n - 2 - i));
        }
    }
    path
}

/// A set of nodes below a bound is finite and has no more elements than the
/// bound allows.
pub proof fn lemma_bounded_set(nodes: Set<usize>, bound: usize)
    requires
        forall|node: usize| nodes.contains(node) ==> node < bound,
    ensures
        nodes.finite(),
        nodes.len() <= bound,
{
    vstd::set_lib::range_set_properties::<usize>(0, bound);
    let all = Set::<usize>::range(0usize, bound);
    assert(nodes.subset_of(all));
    vstd::set_lib::lemma_len_subset(nodes, all);
}

/// A vector with the same elements in the opposite order.
pub fn reversed(v: Vec<usize>) -> (r: Vec<usize>)
    ensures
        r@ == v@.reverse(),
{
    let mut r: Vec<usize> = Vec::new();
    let mut i: usize = v.len();
    while i > 0
        invariant
            i <= v.len(),
            r@.len() == v.len() - i,
            forall|k: int| 0 <= k < r@.len() ==> r@[k] == v@[v.len() - 1 - k],
        decreases i,
    {
        i = i - 1;
        r.push(v[i]);
    }
    proof {
        assert(r@ =~= v@.reverse());
    }
    r
}

/// What a search algorithm offers once it is set up for a graph. `V` is the
/// type of a node's value, `W` that of an edge's weight.
pub trait Pathfinder<V, W> {
    /// The pathfinder's state fits the graph `g`.
    spec fn fits(&self, g: GraphModel<V, W>) -> bool;

    /// The node that the search starts from.
    spec fn origin(&self) -> usize;

    /// The node that the search is after.
    spec fn goal(&self) -> usize;

    /// No step is left to take.
    spec fn exhausted(&self) -> bool;

    /// The mark that `set_solved` leaves.
    spec fn solved(&self) -> bool;

    /// The predecessors recorded so far, by node.
    spec fn predecessors(&self) -> Seq<usize>;

    /// Takes one step and reports the node it processed with that node's
    /// predecessor, or `None` where no step is left.
    fn next<G: Graph<V, W>>(&mut self, graph: &G) -> (r: Option<(usize, usize)>)
        requires
            graph.wf(),
            old(self).fits(graph@),
        ensures
            final(self).fits(graph@),
            final(self).origin() == old(self).origin(),
            final(self).goal() == old(self).goal(),
            final(self).solved() == old(self).solved(),
            r is None <==> old(self).exhausted(),
            r matches Some(step) ==> step.0 < graph@.count,
    ;

    /// Steps until the goal is processed and reports a walk from the origin to
    /// the goal, or `None` where no step is left before that.
    fn path_to<G: Graph<V, W>>(&mut self, graph: &G, to_idx: usize) -> (r: Option<Vec<usize>>)
        requires
            graph.wf(),
            old(self).fits(graph@),
        ensures
            final(self).fits(graph@),
            final(self).origin() == old(self).origin(),
            final(self).goal() == old(self).goal(),
            final(self).solved() == old(self).solved(),
            r matches Some(path) ==> graph@.is_walk(path@) && path@[0] == old(self).origin()
                && path@.last() == old(self).goal(),
            r is None ==> final(self).exhausted(),
    ;

    /// Whether the search was marked as solved.
    fn is_solved(&self) -> (solved: bool)
        ensures
            solved == self.solved(),
    ;

    /// Marks the search as solved.
    fn set_solved(&mut self)
        ensures
            final(self).solved(),
            final(self).origin() == old(self).origin(),
            final(self).goal() == old(self).goal(),
            final(self).exhausted() == old(self).exhausted(),
            final(self).predecessors() == old(self).predecessors(),
            forall|g: GraphModel<V, W>| old(self).fits(g) ==> final(self).fits(g),
    ;

    /// The predecessor recorded for a node, `usize::MAX` where none is.
    fn from_index_of(&self, index: usize) -> (r: Result<usize, GraphError>)
        ensures
            r == (if index < self.predecessors().len() {
                Ok::<usize, GraphError>(self.predecessors()[index as int])
            } else {
                Err(GraphError::IndexOutOfRange)
            }),
    ;
}

} // verus!
