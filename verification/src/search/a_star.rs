//! A* over a square grid, with the Manhattan distance as its heuristic. Node
//! `i` is the cell in row `i / dim` and column `i % dim`; every edge costs 1.
use crate::model::{lemma_ascending_where, lemma_neighbours_ascending, GraphModel};
use crate::search::{reversed, Pathfinder};
use crate::tally::{count_where, lemma_count_bound, lemma_count_update};
use crate::{Graph, GraphError};
use vstd::prelude::*;

verus! {

/// The distance between two cells of a grid of side `dim`, counted in steps
/// along rows and columns.
pub open spec fn manhattan(from: usize, to: usize, dim: usize) -> nat {
    let (from_x, from_y) = (from / dim, from % dim);
    let (to_x, to_y) = (to / dim, to % dim);
    (if from_x < to_x {
        to_x - from_x
    } else {
        from_x - to_x
    } + if from_y < to_y {
        to_y - from_y
    } else {
        from_y - to_y
    }) as nat
}

/// Between two cells with an index below `n` the distance is below `2 * n`.
pub proof fn lemma_manhattan_bound(from: usize, to: usize, dim: usize, n: nat)
    requires
        dim > 0,
        from < n,
        to < n,
    ensures
        manhattan(from, to, dim) < 2 * n,
{
    let d = dim as int;
    let a = from as int;
    let b = to as int;
    assert(0 <= a / d <= a && 0 <= a % d <= a) by (nonlinear_arith)
        requires
            d > 0,
            a >= 0,
    ;
    assert(0 <= b / d <= b && 0 <= b % d <= b) by (nonlinear_arith)
        requires
            d > 0,
            b >= 0,
    ;
}

/// The Manhattan distance between the cells `from` and `to`.
pub fn mh_distance(from: usize, to: usize, dim: usize) -> (distance: usize)
    requires
        dim > 0,
    ensures
        distance == manhattan(from, to, dim),
{
    let (from_x, from_y) = (from / dim, from % dim);
    let (to_x, to_y) = (to / dim, to % dim);

    let diff_x = if from_x < to_x {
        to_x - from_x
    } else {
        from_x - to_x
    };

    let diff_y = if from_y < to_y {
        to_y - from_y
    } else {
        from_y - to_y
    };

    proof {
        // The rows lie below `MAX / dim + 1` and the columns below `dim`, and
        // `MAX / dim + dim - 1` does not exceed `MAX`.
        let d = dim as int;
        let top = usize::MAX as int;
        let a = from as int;
        let b = to as int;
        assert(top / d + d - 1 <= top) by (nonlinear_arith)
            requires
                1 <= d <= top,
        ;
        assert(0 <= a / d <= top / d && 0 <= a % d < d) by (nonlinear_arith)
            requires
                d > 0,
                0 <= a <= top,
        ;
        assert(0 <= b / d <= top / d && 0 <= b % d < d) by (nonlinear_arith)
            requires
                d > 0,
                0 <= b <= top,
        ;
    }
    diff_x + diff_y
}

/// An entry of the open set: a node and the score it was entered with.
struct HeapNode {
    index: usize,
    score: usize,
}

/// Some entry of `open` names `node`.
pub open spec fn holds(open: Seq<(usize, usize)>, node: usize) -> bool {
    exists|i: int| 0 <= i < open.len() && (#[trigger] open[i]).0 == node
}

/// Position `k` holds the entry that leaves `open` next: its score is the
/// lowest, and among the entries with that score it was entered first.
pub open spec fn leaves_first(open: Seq<(usize, usize)>, k: int) -> bool {
    &&& 0 <= k < open.len()
    &&& forall|i: int| 0 <= i < open.len() ==> open[k].1 <= (#[trigger] open[i]).1
    &&& forall|i: int| 0 <= i < k ==> open[k].1 < (#[trigger] open[i]).1
}

/// The position of the entry that leaves `open` next, where `open` is not
/// empty.
pub open spec fn first_out(open: Seq<(usize, usize)>) -> int {
    choose|k: int| leaves_first(open, k)
}

/// The open set of the search: the entries that wait, lowest score first.
/// Entries with equal scores leave in the order in which they came.
struct OpenSet {
    nodes: Vec<HeapNode>,
}

impl OpenSet {
    /// The entries as pairs of node and score, in the order in which they
    /// came.
    closed spec fn view(&self) -> Seq<(usize, usize)> {
        self.nodes@.map_values(|node: HeapNode| (node.index, node.score))
    }

    /// A set without entries.
    fn new() -> (set: Self)
        ensures
            set@ == Seq::<(usize, usize)>::empty(),
    {
        let set = OpenSet { nodes: Vec::new() };
        proof {
            assert(set@ =~= Seq::<(usize, usize)>::empty());
        }
        set
    }

    /// Enters `node` behind the entries that wait.
    fn push(&mut self, node: HeapNode)
        ensures
            final(self)@ == old(self)@.push((node.index, node.score)),
    {
        self.nodes.push(node);
        proof {
            assert(self@ =~= old(self)@.push((node.index, node.score)));
        }
    }

    /// Takes out the entry with the lowest score.
    fn pop(&mut self) -> (r: Option<HeapNode>)
        ensures
            r is None <==> old(self)@.len() == 0,
            r is None ==> final(self)@ == old(self)@,
            r matches Some(node) ==> exists|k: int|
                leaves_first(old(self)@, k) && #[trigger] old(self)@[k] == (node.index, node.score)
                    && final(self)@ == old(self)@.remove(k),
    {
        if self.nodes.len() == 0 {
            return None;
        }
        let mut best: usize = 0;
        let mut i: usize = 1;
        while i < self.nodes.len()
            invariant
                0 <= best < i <= self.nodes.len(),
                forall|j: int| 0 <= j < i ==> self@[best as int].1 <= (#[trigger] self@[j]).1,
                forall|j: int| 0 <= j < best ==> self@[best as int].1 < (#[trigger] self@[j]).1,
            decreases self.nodes.len() - i,
        {
            if self.nodes[i].score < self.nodes[best].score {
                best = i;
            }
            i = i + 1;
        }
        let node = self.nodes.remove(best);
        proof {
            assert(self@ =~= old(self)@.remove(best as int));
            assert(old(self)@[best as int] == (node.index, node.score));
        }
        Some(node)
    }

    /// Whether an entry names `index`.
    fn contains_index(&self, index: usize) -> (found: bool)
        ensures
            found == holds(self@, index),
    {
        let mut i: usize = 0;
        while i < self.nodes.len()
            invariant
                i <= self.nodes.len(),
                forall|j: int| 0 <= j < i ==> (#[trigger] self@[j]).0 != index,
            decreases self.nodes.len() - i,
        {
            if self.nodes[i].index == index {
                proof {
                    assert(self@[i as int].0 == index);
                }
                return true;
            }
            i = i + 1;
        }
        false
    }
}

/// The state of an A* search.
///
/// `open` holds the entries that wait, each a node with the score it was
/// entered with; `g_score` holds the length of the shortest way found so far
/// from the root to each node and `f_score` that length plus the distance to
/// the goal, both `usize::MAX` for a node not reached yet; `from_map` holds
/// the node before each reached node on that way.
pub struct AStarModel {
    pub root: usize,
    pub goal: usize,
    pub dim: usize,
    pub open: Seq<(usize, usize)>,
    pub g_score: Seq<usize>,
    pub f_score: Seq<usize>,
    pub from_map: Seq<usize>,
    pub solved: bool,
}

impl AStarModel {
    /// The state of a search that has not taken a step: only the root is
    /// reached, and it waits.
    pub open spec fn start(root: usize, goal: usize, dim: usize, count: nat) -> Self {
        AStarModel {
            root,
            goal,
            dim,
            open: seq![(root, manhattan(root, goal, dim) as usize)],
            g_score: Seq::new(
                count,
                |i: int|
                    if i == root {
                        0
                    } else {
                        usize::MAX
                    },
            ),
            f_score: Seq::new(
                count,
                |i: int|
                    if i == root {
                        manhattan(root, goal, dim) as usize
                    } else {
                        usize::MAX
                    },
            ),
            from_map: Seq::new(count, |i: int| usize::MAX),
            solved: false,
        }
    }

    /// A way from the root to `node` has been found.
    pub open spec fn reached(self, node: usize) -> bool {
        node < self.g_score.len() && self.g_score[node as int] != usize::MAX
    }

    /// The way to `node` over its neighbour `current`, one of `neighbours`,
    /// is shorter than the one that is recorded.
    pub open spec fn improves(self, current: usize, neighbours: Seq<usize>, node: usize) -> bool {
        &&& neighbours.contains(node)
        &&& node < self.g_score.len()
        &&& self.g_score[current as int] + 1 < self.g_score[node as int]
    }

    /// The entries that relaxing `neighbours` from `current` adds to the open
    /// set `rest`: one for every neighbour whose way improves and for which no
    /// entry waits, in the order of `neighbours`.
    pub open spec fn entered(
        self,
        current: usize,
        rest: Seq<(usize, usize)>,
        neighbours: Seq<usize>,
    ) -> Seq<(usize, usize)>
        decreases neighbours.len(),
    {
        if neighbours.len() == 0 {
            Seq::empty()
        } else {
            let before = self.entered(current, rest, neighbours.drop_last());
            let node = neighbours.last();
            if node < self.g_score.len() && self.g_score[current as int] + 1
                < self.g_score[node as int] && !holds(rest, node) {
                before.push(
                    (
                        node,
                        (self.g_score[current as int] + 1 + manhattan(
                            node,
                            self.goal,
                            self.dim,
                        )) as usize,
                    ),
                )
            } else {
                before
            }
        }
    }

    /// The state after `current` left the open set, which left `rest`, and
    /// `neighbours` were relaxed from it: a neighbour whose way improves gets
    /// `current` as the node before it and the new scores, and an entry in the
    /// open set unless one waits there already.
    pub open spec fn relaxed(
        self,
        current: usize,
        rest: Seq<(usize, usize)>,
        neighbours: Seq<usize>,
    ) -> Self {
        let reach = (self.g_score[current as int] + 1) as usize;
        AStarModel {
            open: rest + self.entered(current, rest, neighbours),
            g_score: Seq::new(
                self.g_score.len(),
                |v: int|
                    if self.improves(current, neighbours, v as usize) {
                        reach
                    } else {
                        self.g_score[v]
                    },
            ),
            f_score: Seq::new(
                self.f_score.len(),
                |v: int|
                    if self.improves(current, neighbours, v as usize) {
                        (reach + manhattan(v as usize, self.goal, self.dim)) as usize
                    } else {
                        self.f_score[v]
                    },
            ),
            from_map: Seq::new(
                self.from_map.len(),
                |v: int|
                    if self.improves(current, neighbours, v as usize) {
                        current
                    } else {
                        self.from_map[v]
                    },
            ),
            ..self
        }
    }

    /// The state after the entry at position `k` left the open set and the
    /// neighbours of its node in `g` were relaxed.
    pub open spec fn step<T, W>(self, k: int, g: GraphModel<T, W>) -> Self {
        self.relaxed(self.open[k].0, self.open.remove(k), g.outgoing(self.open[k].0))
    }

    /// The same state with another open set.
    pub open spec fn with_open(self, open: Seq<(usize, usize)>) -> Self {
        AStarModel { open, ..self }
    }

    /// Where the search ends: entries leave the open set one by one, and the
    /// neighbours of each are relaxed, until the goal leaves it, which is not
    /// relaxed, or none is left. The result says whether the goal was found,
    /// and what state is left. `None` where that takes more than `fuel`
    /// steps.
    pub open spec fn drain<T, W>(self, g: GraphModel<T, W>, fuel: nat) -> Option<(bool, Self)>
        decreases fuel,
    {
        if self.open.len() == 0 {
            Some((false, self))
        } else {
            let k = first_out(self.open);
            if self.open[k].0 == self.goal {
                Some((true, self.with_open(self.open.remove(k))))
            } else if fuel == 0 {
                None
            } else {
                self.step(k, g).drain(g, (fuel - 1) as nat)
            }
        }
    }
}

/// Only one entry leaves an open set next.
pub proof fn lemma_leaves_first_unique(open: Seq<(usize, usize)>, k: int)
    requires
        leaves_first(open, k),
    ensures
        first_out(open) == k,
{
    let other = first_out(open);
    assert(leaves_first(open, other));
    if other < k {
        assert(open[k].1 < open[other].1);
        assert(open[other].1 <= open[k].1);
    }
    if k < other {
        assert(open[other].1 < open[k].1);
        assert(open[k].1 <= open[other].1);
    }
}

/// The number of nodes that are reached.
pub open spec fn reached_total(g_score: Seq<usize>) -> nat {
    count_where(g_score, |score: usize| score != usize::MAX)
}

/// The recorded way to `node` comes over an edge from a node that is reached
/// with a shorter way.
pub open spec fn came_from<T, W>(s: AStarModel, g: GraphModel<T, W>, node: usize) -> bool {
    let pred = s.from_map[node as int];
    &&& pred < g.count
    &&& s.reached(pred)
    &&& s.g_score[pred as int] < s.g_score[node as int]
    &&& g.edges.contains_key((pred, node))
}

/// What holds of a search in `g` at every moment.
#[verifier::opaque]
pub open spec fn astar_inv<T, W>(s: AStarModel, g: GraphModel<T, W>) -> bool {
    &&& g.count <= usize::MAX / 4
    &&& s.g_score.len() == g.count
    &&& s.f_score.len() == g.count
    &&& s.from_map.len() == g.count
    &&& s.root < g.count
    &&& s.goal < g.count
    &&& s.dim > 0
    &&& s.g_score[s.root as int] == 0
    &&& forall|v: usize| #[trigger] s.reached(v) ==> s.g_score[v as int] < reached_total(s.g_score)
    &&& forall|v: usize| #[trigger] s.reached(v) && v != s.root ==> came_from(s, g, v)
    &&& forall|i: int| 0 <= i < s.open.len() ==> s.reached((#[trigger] s.open[i]).0)
}

/// Every neighbour of `node` is reached with a way at most one edge longer
/// than that to `node`.
pub open spec fn settled<T, W>(s: AStarModel, g: GraphModel<T, W>, node: usize) -> bool {
    forall|v: usize|
        v < g.count && #[trigger] g.edges.contains_key((node, v)) ==> s.reached(v)
            && s.g_score[v as int] <= s.g_score[node as int] + 1
}

/// No reached node was left behind: each waits in the open set or is settled.
/// A search that has not taken a step is thorough, every step keeps it so,
/// and so does a `path_to` that does not find the goal.
#[verifier::opaque]
pub open spec fn thorough<T, W>(s: AStarModel, g: GraphModel<T, W>) -> bool {
    forall|u: usize| #[trigger] s.reached(u) ==> holds(s.open, u) || settled(s, g, u)
}

/// What the invariant says outright.
pub proof fn lemma_inv_bounds<T, W>(s: AStarModel, g: GraphModel<T, W>)
    requires
        astar_inv(s, g),
    ensures
        g.count <= usize::MAX / 4,
        s.g_score.len() == g.count,
        s.f_score.len() == g.count,
        s.from_map.len() == g.count,
        s.root < g.count,
        s.goal < g.count,
        s.dim > 0,
        s.g_score[s.root as int] == 0,
        forall|v: usize| #[trigger] s.reached(v) ==> s.g_score[v as int] < g.count,
        forall|i: int| 0 <= i < s.open.len() ==> s.reached((#[trigger] s.open[i]).0),
{
    reveal(astar_inv);
    lemma_count_bound(s.g_score, |score: usize| score != usize::MAX);
}

/// What the invariant says of a reached node other than the root.
pub proof fn lemma_inv_came_from<T, W>(s: AStarModel, g: GraphModel<T, W>, node: usize)
    requires
        astar_inv(s, g),
        s.reached(node),
        node != s.root,
    ensures
        came_from(s, g, node),
{
    reveal(astar_inv);
}

/// A search that has not taken a step is consistent and thorough.
pub proof fn lemma_start_inv<T, W>(root: usize, goal: usize, dim: usize, g: GraphModel<T, W>)
    requires
        root < g.count <= usize::MAX / 4,
        goal < g.count,
        dim > 0,
    ensures
        astar_inv(AStarModel::start(root, goal, dim, g.count), g),
        thorough(AStarModel::start(root, goal, dim, g.count), g),
{
    reveal(astar_inv);
    reveal(thorough);
    let s = AStarModel::start(root, goal, dim, g.count);
    let is_reached = |score: usize| score != usize::MAX;
    let blank = Seq::new(g.count, |i: int| usize::MAX);
    crate::tally::lemma_count_none(blank, is_reached);
    lemma_count_update(blank, root as int, 0usize, is_reached);
    assert(s.g_score =~= blank.update(root as int, 0usize));
    assert(s.open[0].0 == root);
    assert forall|u: usize| #[trigger] s.reached(u) implies holds(s.open, u) || settled(s, g, u) by {
        assert(u == root);
    }
}

/// Taking an entry out of the open set keeps the search consistent.
pub proof fn lemma_leave_keeps_inv<T, W>(s: AStarModel, g: GraphModel<T, W>, k: int)
    requires
        astar_inv(s, g),
        0 <= k < s.open.len(),
    ensures
        astar_inv(s.with_open(s.open.remove(k)), g),
{
    reveal(astar_inv);
    let after = s.with_open(s.open.remove(k));
    assert forall|i: int| 0 <= i < after.open.len() implies after.reached(
        (#[trigger] after.open[i]).0,
    ) by {
        if i < k {
            assert(after.open[i] == s.open[i]);
        } else {
            assert(after.open[i] == s.open[i + 1]);
        }
    }
    assert forall|v: usize| #[trigger] after.reached(v) && v != after.root implies came_from(
        after,
        g,
        v,
    ) by {
        assert(s.reached(v));
        assert(came_from(s, g, v));
    }
    assert forall|v: usize| #[trigger] after.reached(v) implies after.g_score[v as int]
        < reached_total(after.g_score) by {
        assert(s.reached(v));
    }
}

/// The entries that a relaxation adds name neighbours that it improves.
pub proof fn lemma_entered(
    s: AStarModel,
    current: usize,
    rest: Seq<(usize, usize)>,
    neighbours: Seq<usize>,
)
    ensures
        forall|j: int|
            0 <= j < s.entered(current, rest, neighbours).len() ==> s.improves(
                current,
                neighbours,
                (#[trigger] s.entered(current, rest, neighbours)[j]).0,
            ),
        forall|v: usize|
            s.improves(current, neighbours, v) && !holds(rest, v) ==> #[trigger] holds(
                s.entered(current, rest, neighbours),
                v,
            ),
    decreases neighbours.len(),
{
    if neighbours.len() > 0 {
        let front = neighbours.drop_last();
        let last = neighbours.last();
        let before = s.entered(current, rest, front);
        let all = s.entered(current, rest, neighbours);
        lemma_entered(s, current, rest, front);
        assert forall|j: int| 0 <= j < all.len() implies s.improves(
            current,
            neighbours,
            (#[trigger] all[j]).0,
        ) by {
            if j < before.len() {
                assert(all[j] == before[j]);
                assert(s.improves(current, front, before[j].0));
                let i = choose|i: int| 0 <= i < front.len() && front[i] == before[j].0;
                assert(neighbours[i] == before[j].0);
            } else {
                assert(neighbours[neighbours.len() - 1] == last);
            }
        }
        assert forall|v: usize| s.improves(current, neighbours, v) && !holds(
            rest,
            v,
        ) implies #[trigger] holds(all, v) by {
            let i = choose|i: int| 0 <= i < neighbours.len() && neighbours[i] == v;
            if i < front.len() {
                assert(front[i] == v);
                assert(s.improves(current, front, v));
                assert(holds(before, v));
                let j = choose|j: int| 0 <= j < before.len() && (#[trigger] before[j]).0 == v;
                assert(all[j].0 == v);
            } else {
                assert(all[all.len() - 1].0 == v);
            }
        }
    }
}

/// Relaxing one more neighbour, which is none of those relaxed before, changes
/// the scores of that neighbour alone.
pub proof fn lemma_relaxed_step(
    s: AStarModel,
    current: usize,
    rest: Seq<(usize, usize)>,
    neighbours: Seq<usize>,
    i: int,
)
    requires
        0 <= i < neighbours.len(),
        neighbours.no_duplicates(),
        current < s.g_score.len() <= usize::MAX,
        s.g_score.len() == s.f_score.len(),
        s.g_score.len() == s.from_map.len(),
    ensures
        ({
            let before = s.relaxed(current, rest, neighbours.take(i));
            let after = s.relaxed(current, rest, neighbours.take(i + 1));
            let node = neighbours[i];
            let reach = (s.g_score[current as int] + 1) as usize;
            let score = (reach + manhattan(node, s.goal, s.dim)) as usize;
            &&& before.g_score[current as int] == s.g_score[current as int]
            &&& node < s.g_score.len() ==> before.g_score[node as int] == s.g_score[node as int]
            &&& holds(before.open, node) == holds(rest, node)
            &&& if node < s.g_score.len() && s.g_score[current as int] + 1
                < s.g_score[node as int] {
                &&& after.g_score == before.g_score.update(node as int, reach)
                &&& after.f_score == before.f_score.update(node as int, score)
                &&& after.from_map == before.from_map.update(node as int, current)
                &&& after.open == if holds(rest, node) {
                    before.open
                } else {
                    before.open.push((node, score))
                }
            } else {
                after == before
            }
        }),
{
    let shown = neighbours.take(i);
    let more = neighbours.take(i + 1);
    let before = s.relaxed(current, rest, shown);
    let after = s.relaxed(current, rest, more);
    let node = neighbours[i];
    assert(more.drop_last() =~= shown);
    assert(more.last() == node);
    assert(!shown.contains(node)) by {
        if shown.contains(node) {
            let j = choose|j: int| 0 <= j < shown.len() && shown[j] == node;
            assert(neighbours[j] == neighbours[i]);
        }
    }
    assert(more.contains(node)) by {
        assert(more[i] == node);
    }
    assert forall|v: usize| v != node implies shown.contains(v) == more.contains(v) by {
        if shown.contains(v) {
            let j = choose|j: int| 0 <= j < shown.len() && shown[j] == v;
            assert(more[j] == v);
        }
        if more.contains(v) {
            let j = choose|j: int| 0 <= j < more.len() && more[j] == v;
            assert(shown[j] == v);
        }
    }
    lemma_entered(s, current, rest, shown);
    assert(holds(before.open, node) == holds(rest, node)) by {
        let added = s.entered(current, rest, shown);
        if holds(before.open, node) && !holds(rest, node) {
            let j = choose|j: int| 0 <= j < before.open.len() && (#[trigger] before.open[j]).0
                == node;
            if j < rest.len() {
                assert(rest[j].0 == node);
            } else {
                assert(before.open[j] == added[j - rest.len()]);
                assert(s.improves(current, shown, added[j - rest.len()].0));
            }
        }
        if holds(rest, node) {
            let j = choose|j: int| 0 <= j < rest.len() && (#[trigger] rest[j]).0 == node;
            assert(before.open[j].0 == node);
        }
    }
    assert forall|v: usize| v != node implies #[trigger] s.improves(current, shown, v)
        == s.improves(current, more, v) by {
        assert(shown.contains(v) == more.contains(v));
    }
    assert(!s.improves(current, shown, node));
    if node < s.g_score.len() && s.g_score[current as int] + 1 < s.g_score[node as int] {
        let reach = (s.g_score[current as int] + 1) as usize;
        let score = (reach + manhattan(node, s.goal, s.dim)) as usize;
        assert(s.improves(current, more, node));
        assert(after.g_score =~= before.g_score.update(node as int, reach));
        assert(after.f_score =~= before.f_score.update(node as int, score));
        assert(after.from_map =~= before.from_map.update(node as int, current));
        if holds(rest, node) {
            assert(after.open =~= before.open);
        } else {
            assert(after.open =~= before.open.push((node, score)));
        }
    } else {
        assert(!s.improves(current, more, node));
        assert(after.g_score =~= before.g_score);
        assert(after.f_score =~= before.f_score);
        assert(after.from_map =~= before.from_map);
        assert(after.open =~= before.open);
    }
}

/// What is left to gain: the sum of the ways recorded, where a node that is
/// not reached counts for `cap`.
pub open spec fn way_sum(g_score: Seq<usize>, cap: nat) -> nat
    decreases g_score.len(),
{
    if g_score.len() == 0 {
        0
    } else {
        way_sum(g_score.drop_last(), cap) + if g_score.last() == usize::MAX {
            cap
        } else {
            g_score.last() as nat
        }
    }
}

/// Recording a shorter way for one node lowers the sum.
pub proof fn lemma_way_sum_update(g_score: Seq<usize>, cap: nat, i: int, way: usize)
    requires
        0 <= i < g_score.len(),
        way < cap,
        way != usize::MAX,
        way < g_score[i],
        g_score[i] != usize::MAX ==> g_score[i] < cap,
    ensures
        way_sum(g_score.update(i, way), cap) < way_sum(g_score, cap),
    decreases g_score.len(),
{
    let t = g_score.update(i, way);
    if i == g_score.len() - 1 {
        assert(t.drop_last() =~= g_score.drop_last());
    } else {
        assert(t.drop_last() =~= g_score.drop_last().update(i, way));
        lemma_way_sum_update(g_score.drop_last(), cap, i, way);
    }
}

/// What relaxing the first `i` neighbours of a node that left the open set
/// does: the search stays consistent, and either the open set gains no entry
/// or the sum of the recorded ways falls.
pub proof fn lemma_relaxed_keeps_inv<T, W>(s: AStarModel, g: GraphModel<T, W>, k: int, i: int)
    requires
        astar_inv(s, g),
        0 <= k < s.open.len(),
        0 <= i <= g.outgoing(s.open[k].0).len(),
    ensures
        ({
            let after = s.relaxed(s.open[k].0, s.open.remove(k), g.outgoing(s.open[k].0).take(i));
            &&& astar_inv(after, g)
            &&& way_sum(after.g_score, g.count) <= way_sum(s.g_score, g.count)
            &&& after.open.len() >= s.open.len() - 1
            &&& after.open.len() > s.open.len() - 1 ==> way_sum(after.g_score, g.count) < way_sum(
                s.g_score,
                g.count,
            )
            &&& after.g_score[s.open[k].0 as int] == s.g_score[s.open[k].0 as int]
        }),
    decreases i,
{
    let current = s.open[k].0;
    let rest = s.open.remove(k);
    let neighbours = g.outgoing(current);
    let after = s.relaxed(current, rest, neighbours.take(i));
    lemma_inv_bounds(s, g);
    assert(s.reached(current));
    if i == 0 {
        lemma_leave_keeps_inv(s, g, k);
        assert(neighbours.take(0) =~= Seq::<usize>::empty());
        assert(after.g_score =~= s.g_score);
        assert(after.f_score =~= s.f_score);
        assert(after.from_map =~= s.from_map);
        assert(after.open =~= rest);
        assert(after == s.with_open(rest));
    } else {
        lemma_relaxed_keeps_inv(s, g, k, i - 1);
        lemma_neighbours_ascending(g, current);
        lemma_relaxed_step(s, current, rest, neighbours, i - 1);
        let before = s.relaxed(current, rest, neighbours.take(i - 1));
        let node = neighbours[i - 1];
        assert(node < g.count && g.edges.contains_key((current, node)));
        if s.g_score[current as int] + 1 < s.g_score[node as int] {
            let reach = (s.g_score[current as int] + 1) as usize;
            let score = (reach + manhattan(node, s.goal, s.dim)) as usize;
            let is_reached = |score: usize| score != usize::MAX;
            lemma_inv_bounds(before, g);
            assert(before.reached(current));
            lemma_count_update(before.g_score, node as int, reach, is_reached);
            lemma_count_bound(after.g_score, is_reached);
            assert(node != current);
            assert(reach < g.count) by {
                reveal(astar_inv);
                assert(before.g_score[current as int] < reached_total(before.g_score));
                if before.reached(node) {
                    assert(before.g_score[node as int] < reached_total(before.g_score));
                    lemma_count_bound(before.g_score, is_reached);
                }
            }
            if before.reached(node) {
                assert(before.g_score[node as int] < g.count);
            }
            lemma_way_sum_update(before.g_score, g.count, node as int, reach);
            assert(astar_inv(after, g)) by {
                reveal(astar_inv);
                assert forall|v: usize| #[trigger] after.reached(v) implies after.g_score[v as int]
                    < reached_total(after.g_score) by {
                    if v != node {
                        assert(before.reached(v));
                    } else {
                        assert(before.g_score[current as int] < reached_total(before.g_score));
                        if before.reached(node) {
                            assert(before.g_score[node as int] < reached_total(before.g_score));
                        }
                    }
                }
                assert forall|v: usize| #[trigger] after.reached(v) && v != after.root implies came_from(
                    after,
                    g,
                    v,
                ) by {
                    if v != node {
                        assert(before.reached(v));
                        assert(came_from(before, g, v));
                        let pred = before.from_map[v as int];
                        if pred == node {
                            assert(before.reached(node));
                        }
                    } else {
                        assert(after.reached(current));
                    }
                }
                assert forall|j: int| 0 <= j < after.open.len() implies after.reached(
                    (#[trigger] after.open[j]).0,
                ) by {
                    if j < before.open.len() {
                        assert(after.open[j] == before.open[j]);
                        assert(before.reached(before.open[j].0));
                    }
                }
                assert(node != s.root) by {
                    assert(s.g_score[s.root as int] == 0);
                }
            }
        }
    }
}

/// A step keeps the search consistent, and what it does not add to the open
/// set it takes from the sum of the recorded ways.
pub proof fn lemma_step_keeps_inv<T, W>(s: AStarModel, g: GraphModel<T, W>, k: int)
    requires
        astar_inv(s, g),
        0 <= k < s.open.len(),
    ensures
        astar_inv(s.step(k, g), g),
        way_sum(s.step(k, g).g_score, g.count) <= way_sum(s.g_score, g.count),
        s.step(k, g).open.len() >= s.open.len() - 1,
        s.step(k, g).open.len() > s.open.len() - 1 ==> way_sum(s.step(k, g).g_score, g.count)
            < way_sum(s.g_score, g.count),
{
    let neighbours = g.outgoing(s.open[k].0);
    lemma_relaxed_keeps_inv(s, g, k, neighbours.len() as int);
    assert(neighbours.take(neighbours.len() as int) =~= neighbours);
}

/// A step keeps a thorough search thorough.
pub proof fn lemma_step_keeps_thorough<T, W>(s: AStarModel, g: GraphModel<T, W>, k: int)
    requires
        astar_inv(s, g),
        thorough(s, g),
        0 <= k < s.open.len(),
    ensures
        thorough(s.step(k, g), g),
{
    reveal(thorough);
    let current = s.open[k].0;
    let rest = s.open.remove(k);
    let neighbours = g.outgoing(current);
    let after = s.step(k, g);
    let added = s.entered(current, rest, neighbours);
    lemma_inv_bounds(s, g);
    assert(s.reached(current));
    let keep = |to: usize| g.edges.contains_key((current, to));
    lemma_ascending_where(g.count, keep);
    lemma_entered(s, current, rest, neighbours);
    assert forall|u: usize| #[trigger] after.reached(u) implies holds(after.open, u) || settled(
        after,
        g,
        u,
    ) by {
        if u == current {
            assert forall|v: usize|
                v < g.count && #[trigger] g.edges.contains_key((current, v)) implies after.reached(
                v,
            ) && after.g_score[v as int] <= after.g_score[current as int] + 1 by {
                assert(keep(v));
                assert(neighbours.contains(v));
            }
        } else if s.improves(current, neighbours, u) {
            if holds(rest, u) {
                let j = choose|j: int| 0 <= j < rest.len() && (#[trigger] rest[j]).0 == u;
                assert(after.open[j].0 == u);
            } else {
                assert(holds(added, u));
                let j = choose|j: int| 0 <= j < added.len() && (#[trigger] added[j]).0 == u;
                assert(after.open[rest.len() + j].0 == u);
            }
        } else {
            assert(s.reached(u));
            if holds(s.open, u) {
                let j = choose|j: int| 0 <= j < s.open.len() && (#[trigger] s.open[j]).0 == u;
                if j < k {
                    assert(after.open[j] == s.open[j]);
                } else {
                    assert(after.open[j - 1] == s.open[j]);
                }
            } else {
                assert(settled(s, g, u));
                assert forall|v: usize|
                    v < g.count && #[trigger] g.edges.contains_key((u, v)) implies after.reached(v)
                    && after.g_score[v as int] <= after.g_score[u as int] + 1 by {
                    assert(s.reached(v));
                }
            }
        }
    }
}

/// Once the open set of a thorough search is empty, every node to which a
/// walk leads from the root is reached.
pub proof fn lemma_walk_reached<T, W>(s: AStarModel, g: GraphModel<T, W>, walk: Seq<usize>)
    requires
        astar_inv(s, g),
        thorough(s, g),
        s.open.len() == 0,
        g.is_walk(walk),
        walk[0] == s.root,
    ensures
        s.reached(walk.last()),
    decreases walk.len(),
{
    lemma_inv_bounds(s, g);
    if walk.len() > 1 {
        let front = walk.drop_last();
        assert forall|i: int| 0 <= i < front.len() - 1 implies #[trigger] g.joined(front, i) by {
            assert(g.joined(walk, i));
        }
        lemma_walk_reached(s, g, front);
        let u = front.last();
        reveal(thorough);
        assert(s.reached(u));
        assert(settled(s, g, u));
        assert(g.joined(walk, walk.len() - 2));
    }
}

/// A* search from a root to a goal. The graph is handed to each call; it has
/// to be the graph that the search was made for.
pub struct AStarMH {
    root_idx: usize,
    goal_idx: usize,
    open_set: OpenSet,
    g_score: Vec<usize>,
    f_score: Vec<usize>,
    /// The side of the grid.
    dim: usize,
    from_map: Vec<usize>,
    solved: bool,
}

impl AStarMH {
    /// The state of the search.
    pub closed spec fn view(&self) -> AStarModel {
        AStarModel {
            root: self.root_idx,
            goal: self.goal_idx,
            dim: self.dim,
            open: self.open_set@,
            g_score: self.g_score@,
            f_score: self.f_score@,
            from_map: self.from_map@,
            solved: self.solved,
        }
    }

    /// A search in `graph` from `root_idx` to `goal_idx`, on a grid of side
    /// `dim`.
    ///
    /// Fails with `IndexOutOfRange` where the root or the goal is no node of
    /// the graph, or the grid has no cell because `dim` is 0, and with
    /// `CapacityExceeded` where the graph has more than `usize::MAX / 4`
    /// nodes, so that scores might not fit a machine word.
    pub fn new<V, W, G: Graph<V, W>>(
        graph: &G,
        root_idx: usize,
        goal_idx: usize,
        dim: usize,
    ) -> (r: Result<Self, GraphError>)
        requires
            graph.wf(),
        ensures
            r is Ok <==> root_idx < graph@.count && goal_idx < graph@.count && dim > 0
                && graph@.count <= usize::MAX / 4,
            r matches Ok(search) ==> search.fits(graph@) && thorough(search@, graph@) && search@
                == AStarModel::start(root_idx, goal_idx, dim, graph@.count),
            r matches Err(e) ==> e == (if root_idx < graph@.count && goal_idx < graph@.count && dim
                > 0 {
                GraphError::CapacityExceeded
            } else {
                GraphError::IndexOutOfRange
            }),
    {
        let count = graph.node_count();
        if root_idx >= count || goal_idx >= count || dim == 0 {
            return Err(GraphError::IndexOutOfRange);
        }
        if count > usize::MAX / 4 {
            return Err(GraphError::CapacityExceeded);
        }
        let mut g_score = vec![usize::MAX; count];
        g_score[root_idx] = 0;

        let mut f_score = vec![usize::MAX; count];
        f_score[root_idx] = mh_distance(root_idx, goal_idx, dim);

        let mut open_set = OpenSet::new();
        open_set.push(HeapNode { index: root_idx, score: f_score[root_idx] });

        let search = AStarMH {
            root_idx,
            goal_idx,
            open_set,
            g_score,
            f_score,
            dim,
            from_map: vec![usize::MAX; count],
            solved: false,
        };
        proof {
            let start = AStarModel::start(root_idx, goal_idx, dim, graph@.count);
            assert(search@.open =~= start.open);
            assert(search@.g_score =~= start.g_score);
            assert(search@.f_score =~= start.f_score);
            assert(search@.from_map =~= start.from_map);
            lemma_start_inv(root_idx, goal_idx, dim, graph@);
        }
        Ok(search)
    }

    /// Relaxes the neighbours of `current`, whose entry has just left the
    /// open set at position `k` of the state `before`.
    fn relax<V, W, G: Graph<V, W>>(
        &mut self,
        graph: &G,
        current: usize,
        Ghost(before): Ghost<AStarModel>,
        Ghost(k): Ghost<int>,
    )
        requires
            graph.wf(),
            astar_inv(before, graph@),
            0 <= k < before.open.len(),
            before.open[k].0 == current,
            old(self)@ == before.with_open(before.open.remove(k)),
        ensures
            final(self)@ == before.step(k, graph@),
    {
        let ghost g = graph@;
        let ghost rest = before.open.remove(k);
        proof {
            lemma_inv_bounds(before, g);
            assert(before.reached(current));
        }
        let neighbours = match graph.outgoing_edges_of(current) {
            Ok(neighbours) => neighbours,
            Err(_) => Vec::new(),
        };
        proof {
            lemma_neighbours_ascending(g, current);
            assert(neighbours@.take(0) =~= Seq::<usize>::empty());
            let first = before.relaxed(current, rest, neighbours@.take(0));
            assert(first.g_score =~= before.g_score);
            assert(first.f_score =~= before.f_score);
            assert(first.from_map =~= before.from_map);
            assert(first.open =~= rest);
        }
        let mut i: usize = 0;
        while i < neighbours.len()
            invariant
                i <= neighbours.len(),
                neighbours@ == g.outgoing(current),
                neighbours@.no_duplicates(),
                forall|j: int| 0 <= j < neighbours@.len() ==> (#[trigger] neighbours@[j]) < g.count,
                astar_inv(before, g),
                0 <= k < before.open.len(),
                before.open[k].0 == current,
                rest == before.open.remove(k),
                current < g.count,
                before.g_score[current as int] < g.count <= usize::MAX / 4,
                before.g_score.len() == g.count,
                before.f_score.len() == g.count,
                before.from_map.len() == g.count,
                before.goal < g.count,
                before.dim > 0,
                self@ == before.relaxed(current, rest, neighbours@.take(i as int)),
            decreases neighbours.len() - i,
        {
            let idx = neighbours[i];
            proof {
                lemma_relaxed_step(before, current, rest, neighbours@, i as int);
                lemma_manhattan_bound(idx, before.goal, before.dim, g.count);
            }
            let tentative_g_score = self.g_score[current] + 1;
            if tentative_g_score < self.g_score[idx] {
                self.from_map[idx] = current;
                self.g_score[idx] = tentative_g_score;
                self.f_score[idx] = tentative_g_score + mh_distance(
                    idx,
                    self.goal_idx,
                    self.dim,
                );
                let neighbor = HeapNode { index: idx, score: self.f_score[idx] };
                if !self.open_set.contains_index(neighbor.index) {
                    self.open_set.push(neighbor);
                }
            }
            i = i + 1;
        }
        proof {
            assert(neighbours@.take(i as int) =~= neighbours@);
        }
    }
}

impl<V, W> Pathfinder<V, W> for AStarMH {
    open spec fn fits(&self, g: GraphModel<V, W>) -> bool {
        astar_inv(self@, g)
    }

    open spec fn origin(&self) -> usize {
        self@.root
    }

    open spec fn goal(&self) -> usize {
        self@.goal
    }

    open spec fn exhausted(&self) -> bool {
        self@.open.len() == 0
    }

    open spec fn solved(&self) -> bool {
        self@.solved
    }

    open spec fn predecessors(&self) -> Seq<usize> {
        self@.from_map
    }

    /// Takes the entry with the lowest score out of the open set and relaxes
    /// the neighbours of its node. Returns the node, paired with `usize::MAX`,
    /// or `None` where the open set is empty.
    fn next<G: Graph<V, W>>(&mut self, graph: &G) -> (r: Option<(usize, usize)>)
        ensures
            r is None ==> final(self)@ == old(self)@,
            r matches Some(step) ==> leaves_first(old(self)@.open, first_out(old(self)@.open))
                && step == (old(self)@.open[first_out(old(self)@.open)].0, usize::MAX)
                && final(self)@ == old(self)@.step(first_out(old(self)@.open), graph@),
            thorough(old(self)@, graph@) ==> thorough(final(self)@, graph@),
    {
        let ghost before = self@;
        let current = match self.open_set.pop() {
            Some(inner) => inner,
            None => return None,
        };
        let ghost k = choose|k: int|
            leaves_first(before.open, k) && #[trigger] before.open[k] == (
                current.index,
                current.score,
            ) && self.open_set@ == before.open.remove(k);
        self.relax(graph, current.index, Ghost(before), Ghost(k));
        proof {
            lemma_leaves_first_unique(before.open, k);
            lemma_inv_bounds(before, graph@);
            assert(before.reached(before.open[k].0));
            lemma_step_keeps_inv(before, graph@, k);
            if thorough(before, graph@) {
                lemma_step_keeps_thorough(before, graph@, k);
            }
        }
        Some((current.index, usize::MAX))
    }

    /// Takes entries out of the open set, relaxing as `next` does, until the
    /// goal leaves it, and returns the nodes from the root to the goal over
    /// the recorded predecessors. Returns `None` where the open set runs empty
    /// first. `_to_idx` is not consulted: the search is after the goal it was
    /// made for.
    fn path_to<G: Graph<V, W>>(&mut self, graph: &G, _to_idx: usize) -> (r: Option<Vec<usize>>)
        ensures
            r matches Some(path) ==> forall|i: int|
                0 < i < path@.len() ==> path@[i - 1] == final(self)@.from_map[(
                #[trigger] path@[i]) as int],
            r matches Some(path) ==> forall|i: int|
                0 < i < path@.len() ==> (#[trigger] path@[i]) != old(self)@.root,
            r matches Some(path) ==> path@.no_duplicates(),
            exists|fuel: nat| #[trigger] old(self)@.drain(graph@, fuel) == Some((r is Some, final(self)@)),
            holds(old(self)@.open, old(self)@.goal) ==> r is Some,
            thorough(old(self)@, graph@) && !old(self)@.reached(old(self)@.goal) ==> (r is Some
                <==> graph@.reaches(old(self)@.root, old(self)@.goal)),
            r is None && thorough(old(self)@, graph@) ==> thorough(final(self)@, graph@),
    {
        let ghost start = self@;
        let ghost g = graph@;
        let ghost mut steps: nat = 0;
        loop
            invariant
                graph.wf(),
                g == graph@,
                start == old(self)@,
                astar_inv(self@, g),
                self@.root == start.root,
                self@.goal == start.goal,
                self@.solved == start.solved,
                thorough(start, g) ==> thorough(self@, g),
                holds(start.open, start.goal) ==> holds(self@.open, start.goal),
                self@.reached(start.goal) && !start.reached(start.goal) ==> holds(
                    self@.open,
                    start.goal,
                ),
                forall|more: nat| start.drain(g, steps + more) == #[trigger] self@.drain(g, more),
            decreases way_sum(self@.g_score, g.count), self@.open.len(),
        {
            let ghost before = self@;
            let current = match self.open_set.pop() {
                Some(inner) => inner,
                None => {
                    proof {
                        if holds(self@.open, start.goal) {
                            let j = choose|j: int|
                                0 <= j < self@.open.len() && (#[trigger] self@.open[j]).0
                                    == start.goal;
                        }
                        if thorough(start, g) && !start.reached(start.goal) && g.reaches(
                            start.root,
                            start.goal,
                        ) {
                            let walk = choose|walk: Seq<usize>|
                                g.is_walk(walk) && walk[0] == start.root && walk.last()
                                    == start.goal;
                            lemma_walk_reached(self@, g, walk);
                        }
                        assert(self@ == before);
                        assert(start.drain(g, steps + 0) == before.drain(g, 0));
                    }
                    return None;
                },
            };
            let ghost k = choose|k: int|
                leaves_first(before.open, k) && #[trigger] before.open[k] == (
                    current.index,
                    current.score,
                ) && self.open_set@ == before.open.remove(k);
            proof {
                lemma_inv_bounds(before, g);
                assert(before.reached(current.index));
                lemma_leaves_first_unique(before.open, k);
                assert(first_out(before.open) == k);
            }
            if current.index == self.goal_idx {
                proof {
                    lemma_leave_keeps_inv(before, g, k);
                }
                let path = self.trace::<V, W>(Ghost(g));
                proof {
                    assert(g.is_walk(path@) && path@[0] == start.root && path@.last()
                        == start.goal);
                    assert(self@ == before.with_open(before.open.remove(k)));
                    assert(start.drain(g, steps + 0) == before.drain(g, 0));
                }
                return Some(path);
            }
            self.relax(graph, current.index, Ghost(before), Ghost(k));
            proof {
                lemma_step_keeps_inv(before, g, k);
                if thorough(before, g) {
                    lemma_step_keeps_thorough(before, g, k);
                }
                lemma_goal_stays(before, g, k);
                assert forall|more: nat|
                    start.drain(g, steps + 1 + more) == #[trigger] self@.drain(g, more) by {
                    assert(start.drain(g, steps + (more + 1)) == before.drain(g, more + 1));
                }
                steps = steps + 1;
            }
        }
    }

    fn is_solved(&self) -> (solved: bool) {
        self.solved
    }

    fn set_solved(&mut self)
        ensures
            final(self)@ == (AStarModel { solved: true, ..old(self)@ }),
    {
        self.solved = true;
        proof {
            assert forall|g: GraphModel<V, W>| old(self).fits(g) implies self.fits(g) by {
                reveal(astar_inv);
                assert forall|v: usize| #[trigger] self@.reached(v) implies self@.g_score[v as int]
                    < reached_total(self@.g_score) by {
                    assert(old(self)@.reached(v));
                }
                assert forall|v: usize| #[trigger] self@.reached(v) && v != self@.root implies came_from(
                    self@,
                    g,
                    v,
                ) by {
                    assert(old(self)@.reached(v));
                    assert(came_from(old(self)@, g, v));
                }
                assert forall|i: int| 0 <= i < self@.open.len() implies self@.reached(
                    (#[trigger] self@.open[i]).0,
                ) by {
                    assert(old(self)@.reached(old(self)@.open[i].0));
                }
            }
        }
    }

    fn from_index_of(&self, index: usize) -> (r: Result<usize, GraphError>) {
        if index < self.from_map.len() {
            Ok(self.from_map[index])
        } else {
            Err(GraphError::IndexOutOfRange)
        }
    }
}

impl AStarMH {
    /// The nodes from the root to the goal, which is reached, over the
    /// recorded predecessors.
    fn trace<V, W>(&self, Ghost(g): Ghost<GraphModel<V, W>>) -> (path: Vec<usize>)
        requires
            astar_inv(self@, g),
            self@.reached(self@.goal),
        ensures
            g.is_walk(path@),
            path@.no_duplicates(),
            path@[0] == self@.root,
            path@.last() == self@.goal,
            forall|i: int|
                0 < i < path@.len() ==> path@[i - 1] == self@.from_map[(#[trigger] path@[i]) as int],
            forall|i: int| 0 < i < path@.len() ==> (#[trigger] path@[i]) != self@.root,
    {
        let ghost s = self@;
        let mut out: Vec<usize> = Vec::new();
        let mut from_tmp = self.goal_idx;
        out.push(self.goal_idx);
        proof {
            lemma_inv_bounds(s, g);
        }
        loop
            invariant
                s == self@,
                astar_inv(s, g),
                out@.len() >= 1,
                out@[0] == s.goal,
                out@.last() == from_tmp,
                s.reached(from_tmp),
                from_tmp < g.count,
                s.g_score.len() == g.count,
                s.from_map.len() == g.count,
                forall|i: int| 0 <= i < out@.len() ==> (#[trigger] out@[i]) < g.count,
                forall|i: int|
                    0 <= i < out@.len() - 1 ==> #[trigger] crate::search::joined_back(g, out@, i),
                forall|i: int|
                    0 <= i < out@.len() - 1 ==> #[trigger] crate::search::recorded_back(
                        s.from_map,
                        out@,
                        i,
                    ),
                forall|i: int| 0 <= i < out@.len() - 1 ==> (#[trigger] out@[i]) != s.root,
                forall|i: int, j: int|
                    0 <= i < j < out@.len() ==> s.g_score[(#[trigger] out@[j]) as int]
                        < s.g_score[(#[trigger] out@[i]) as int],
            ensures
                from_tmp == s.root,
            decreases s.g_score[from_tmp as int],
        {
            if from_tmp == self.root_idx {
                break ;
            }
            proof {
                lemma_inv_came_from(s, g, from_tmp);
            }
            let from_idx = self.from_map[from_tmp];
            let ghost shown = out@;
            out.push(from_idx);
            proof {
                assert forall|i: int, j: int| 0 <= i < j < out@.len() implies s.g_score[(
                #[trigger] out@[j]) as int] < s.g_score[(#[trigger] out@[i]) as int] by {
                    if j == shown.len() {
                        if i < shown.len() - 1 {
                            assert(s.g_score[shown[shown.len() - 1] as int]
                                < s.g_score[shown[i] as int]);
                        }
                    } else {
                        assert(out@[i] == shown[i] && out@[j] == shown[j]);
                    }
                }
                assert forall|i: int| 0 <= i < out@.len() - 1 implies #[trigger] crate::search::joined_back(
                    g,
                    out@,
                    i,
                ) by {
                    if i < shown.len() - 1 {
                        assert(crate::search::joined_back(g, shown, i));
                    }
                }
                assert forall|i: int| 0 <= i < out@.len() - 1 implies #[trigger] crate::search::recorded_back(
                    s.from_map,
                    out@,
                    i,
                ) by {
                    if i < shown.len() - 1 {
                        assert(crate::search::recorded_back(s.from_map, shown, i));
                    }
                }
            }
            from_tmp = from_idx;
        }
        let path = reversed(out);
        proof {
            let n = out@.len() as int;
            assert forall|i: int, j: int|
                0 <= i < path@.len() && 0 <= j < path@.len() && i != j implies path@[i]
                != path@[j] by {
                assert(path@[i] == out@[n - 1 - i] && path@[j] == out@[n - 1 - j]);
                if i < j {
                    assert(s.g_score[out@[n - 1 - i] as int] < s.g_score[out@[n - 1 - j] as int]);
                } else {
                    assert(s.g_score[out@[n - 1 - j] as int] < s.g_score[out@[n - 1 - i] as int]);
                }
            }
            assert(path@[0] == out@[n - 1]);
            assert(path@[n - 1] == out@[0]);
            assert forall|i: int| 0 <= i < path@.len() implies (#[trigger] path@[i]) < g.count by {
                assert(path@[i] == out@[n - 1 - i]);
            }
            assert forall|i: int| 0 <= i < path@.len() - 1 implies #[trigger] g.joined(path@, i) by {
                assert(path@[i] == out@[n - 1 - i] && path@[i + 1] == out@[n - 2 - i]);
                assert(crate::search::joined_back(g, out@, n - 2 - i));
            }
            assert forall|i: int| 0 < i < path@.len() implies (#[trigger] path@[i]) != s.root by {
                assert(path@[i] == out@[n - 1 - i]);
            }
            assert forall|i: int| 0 < i < path@.len() implies path@[i - 1] == s.from_map[(
            #[trigger] path@[i]) as int] by {
                assert(path@[i] == out@[n - 1 - i] && path@[i - 1] == out@[n - i]);
                assert(crate::search::recorded_back(s.from_map, out@, n - 1 - i));
            }
        }
        path
    }
}

/// Through a step that does not take the goal out of the open set, the goal
/// stays in the open set if it was there, and enters it if it becomes
/// reached.
pub proof fn lemma_goal_stays<T, W>(s: AStarModel, g: GraphModel<T, W>, k: int)
    requires
        astar_inv(s, g),
        0 <= k < s.open.len(),
        s.open[k].0 != s.goal,
    ensures
        holds(s.open, s.goal) ==> holds(s.step(k, g).open, s.goal),
        s.step(k, g).reached(s.goal) && !s.reached(s.goal) ==> holds(s.step(k, g).open, s.goal),
        s.reached(s.goal) ==> s.step(k, g).reached(s.goal),
{
    let current = s.open[k].0;
    let rest = s.open.remove(k);
    let neighbours = g.outgoing(current);
    let after = s.step(k, g);
    let added = s.entered(current, rest, neighbours);
    lemma_inv_bounds(s, g);
    assert(s.reached(current));
    lemma_entered(s, current, rest, neighbours);
    if holds(s.open, s.goal) {
        let j = choose|j: int| 0 <= j < s.open.len() && (#[trigger] s.open[j]).0 == s.goal;
        if j < k {
            assert(after.open[j] == s.open[j]);
        } else {
            assert(after.open[j - 1] == s.open[j]);
        }
    }
    if after.reached(s.goal) && !s.reached(s.goal) {
        assert(s.improves(current, neighbours, s.goal));
        if holds(rest, s.goal) {
            let j = choose|j: int| 0 <= j < rest.len() && (#[trigger] rest[j]).0 == s.goal;
            assert(after.open[j].0 == s.goal);
        } else {
            assert(holds(added, s.goal));
            let j = choose|j: int| 0 <= j < added.len() && (#[trigger] added[j]).0 == s.goal;
            assert(after.open[rest.len() + j].0 == s.goal);
        }
    }
}

} // verus!
