//! Distances in a breadth-first traversal: why the queue hands the nodes out
//! nearest first, and why the first way found to a node is a shortest one.
use crate::model::{lemma_ascending_where, GraphModel};
use crate::search::{
    follows_records, fresh_entries, lemma_fresh_entries, lemma_inv_bounds, lemma_inv_entry,
    lemma_inv_linked, search_inv, SearchModel,
};
use vstd::prelude::*;

verus! {

/// `walk` leads from `from` to `to`.
pub open spec fn joins<T, W>(g: GraphModel<T, W>, walk: Seq<usize>, from: usize, to: usize) -> bool {
    g.is_walk(walk) && walk[0] == from && walk.last() == to
}

/// `node` lies `n` edges from `root`: a walk of `n` edges leads there, and none
/// of fewer.
pub open spec fn at_distance<T, W>(g: GraphModel<T, W>, root: usize, node: usize, n: nat) -> bool {
    &&& exists|walk: Seq<usize>| #[trigger] joins(g, walk, root, node) && walk.len() == n + 1
    &&& forall|walk: Seq<usize>| #[trigger] joins(g, walk, root, node) ==> walk.len() >= n + 1
}

/// The number of edges of the way that a waiting pair stands for: the way to
/// the node from which it comes, and one more.
pub open spec fn rank(s: SearchModel, level: Seq<nat>, entry: (usize, usize)) -> nat {
    if entry.0 == s.root {
        0
    } else {
        level[entry.1 as int] + 1
    }
}

/// A pair waits for `node` with no more than `bound` edges.
pub open spec fn covered(s: SearchModel, level: Seq<nat>, node: usize, bound: nat) -> bool {
    exists|i: int|
        0 <= i < s.frontier.len() && (#[trigger] s.frontier[i]).0 == node && rank(
            s,
            level,
            s.frontier[i],
        ) <= bound
}

/// What holds of a breadth-first traversal from which no waiting pair was
/// taken without a visit to an undiscovered node. `level` gives the distance
/// of every discovered node from the root; the queue is in the order of the
/// ranks of its pairs, which span two values at most; no discovered node lies
/// further than the first pair in the queue; and every neighbour of a
/// discovered node is discovered or waits.
#[verifier::opaque]
pub open spec fn level_inv<T, W>(s: SearchModel, level: Seq<nat>, g: GraphModel<T, W>) -> bool {
    &&& level.len() == g.count
    &&& forall|u: usize|
        #[trigger] s.discovered.contains(u) ==> at_distance(g, s.root, u, level[u as int])
    &&& forall|u: usize|
        #[trigger] s.discovered.contains(u) && u != s.root ==> level[s.from_map[u as int] as int]
            + 1 == level[u as int]
    &&& forall|i: int, j: int|
        0 <= i < j < s.frontier.len() ==> rank(s, level, #[trigger] s.frontier[i]) <= rank(
            s,
            level,
            #[trigger] s.frontier[j],
        )
    &&& forall|i: int|
        0 <= i < s.frontier.len() ==> rank(s, level, #[trigger] s.frontier[i]) <= rank(
            s,
            level,
            s.frontier[0],
        ) + 1
    &&& forall|u: usize|
        #[trigger] s.discovered.contains(u) && s.frontier.len() > 0 ==> level[u as int] <= rank(
            s,
            level,
            s.frontier[0],
        )
    &&& forall|u: usize, w: usize|
        s.discovered.contains(u) && w < g.count && #[trigger] g.edges.contains_key((u, w))
            ==> s.discovered.contains(w) || covered(s, level, w, level[u as int] + 1)
}

/// What the invariant says of a discovered node.
pub proof fn lemma_level<T, W>(s: SearchModel, level: Seq<nat>, g: GraphModel<T, W>, u: usize)
    requires
        level_inv(s, level, g),
        s.discovered.contains(u),
    ensures
        at_distance(g, s.root, u, level[u as int]),
        u != s.root ==> level[s.from_map[u as int] as int] + 1 == level[u as int],
        s.frontier.len() > 0 ==> level[u as int] <= rank(s, level, s.frontier[0]),
{
    reveal(level_inv);
}

/// There is a level for every node.
pub proof fn lemma_level_len<T, W>(s: SearchModel, level: Seq<nat>, g: GraphModel<T, W>)
    requires
        level_inv(s, level, g),
    ensures
        level.len() == g.count,
{
    reveal(level_inv);
}

/// A traversal that has not taken a step is in order.
pub proof fn lemma_start_levels<T, W>(root: usize, g: GraphModel<T, W>)
    requires
        root < g.count,
    ensures
        level_inv(SearchModel::start(root, g.count), Seq::new(g.count, |i: int| 0nat), g),
{
    reveal(level_inv);
}

/// The first `n` nodes of a walk are a walk.
pub proof fn lemma_walk_head<T, W>(g: GraphModel<T, W>, walk: Seq<usize>, n: int)
    requires
        g.is_walk(walk),
        1 <= n <= walk.len(),
    ensures
        g.is_walk(walk.take(n)),
        walk.take(n)[0] == walk[0],
        walk.take(n).last() == walk[n - 1],
        walk.take(n).len() == n,
{
    let head = walk.take(n);
    assert forall|i: int| 0 <= i < head.len() implies (#[trigger] head[i]) < g.count by {
        assert(head[i] == walk[i]);
    }
    assert forall|i: int| 0 <= i < head.len() - 1 implies #[trigger] g.joined(head, i) by {
        assert(g.joined(walk, i));
    }
}

/// A walk with one more node at its end, reached over an edge.
pub proof fn lemma_walk_more<T, W>(g: GraphModel<T, W>, walk: Seq<usize>, node: usize)
    requires
        g.is_walk(walk),
        node < g.count,
        g.edges.contains_key((walk.last(), node)),
    ensures
        g.is_walk(walk.push(node)),
        walk.push(node)[0] == walk[0],
        walk.push(node).last() == node,
{
    let more = walk.push(node);
    assert forall|i: int| 0 <= i < more.len() implies (#[trigger] more[i]) < g.count by {
        if i < walk.len() {
            assert(more[i] == walk[i]);
        }
    }
    assert forall|i: int| 0 <= i < more.len() - 1 implies #[trigger] g.joined(more, i) by {
        if i < walk.len() - 1 {
            assert(g.joined(walk, i));
        }
    }
}

/// Where a walk begins inside a set and ends outside it, it leaves the set at
/// some step.
pub proof fn lemma_first_outside(inside: Set<usize>, walk: Seq<usize>) -> (j: int)
    requires
        walk.len() >= 1,
        inside.contains(walk[0]),
        !inside.contains(walk.last()),
    ensures
        1 <= j < walk.len(),
        inside.contains(walk[j - 1]),
        !inside.contains(walk[j]),
    decreases walk.len(),
{
    if inside.contains(walk[walk.len() - 2]) {
        walk.len() - 1
    } else {
        let head = walk.drop_last();
        let j = lemma_first_outside(inside, head);
        assert(head[j - 1] == walk[j - 1] && head[j] == walk[j]);
        j
    }
}

/// No walk from the root to the undiscovered node of the first pair in the
/// queue has fewer edges than the rank of that pair.
pub proof fn lemma_front_is_nearest<T, W>(
    s: SearchModel,
    turn: Seq<nat>,
    level: Seq<nat>,
    g: GraphModel<T, W>,
    walk: Seq<usize>,
)
    requires
        search_inv(s, turn, g),
        level_inv(s, level, g),
        s.frontier.len() > 0,
        !s.discovered.contains(s.frontier[0].0),
        joins(g, walk, s.root, s.frontier[0].0),
    ensures
        walk.len() >= rank(s, level, s.frontier[0]) + 1,
{
    reveal(level_inv);
    let entry = s.frontier[0];
    lemma_inv_entry(s, turn, g, 0);
    if entry.0 != s.root {
        lemma_inv_linked(s, turn, g, entry.1);
        let j = lemma_first_outside(s.discovered, walk);
        let u = walk[j - 1];
        let w = walk[j];
        lemma_walk_head(g, walk, j);
        assert(joins(g, walk.take(j), s.root, u));
        assert(at_distance(g, s.root, u, level[u as int]));
        assert(level[u as int] + 1 <= j);
        assert(g.joined(walk, j - 1));
        assert(g.edges.contains_key((u, w)));
        assert(covered(s, level, w, level[u as int] + 1));
        let i = choose|i: int|
            0 <= i < s.frontier.len() && (#[trigger] s.frontier[i]).0 == w && rank(
                s,
                level,
                s.frontier[i],
            ) <= level[u as int] + 1;
        if i > 0 {
            assert(rank(s, level, s.frontier[0]) <= rank(s, level, s.frontier[i]));
        }
    }
}

/// Taking the first pair out of the queue without a visit, where its node is
/// discovered, keeps the traversal in order.
pub proof fn lemma_drop_keeps_levels<T, W>(
    s: SearchModel,
    turn: Seq<nat>,
    level: Seq<nat>,
    g: GraphModel<T, W>,
)
    requires
        search_inv(s, turn, g),
        level_inv(s, level, g),
        s.frontier.len() > 0,
        s.discovered.contains(s.frontier[0].0),
    ensures
        level_inv(s.with_frontier(s.frontier.remove(0)), level, g),
{
    reveal(level_inv);
    let rest = s.frontier.remove(0);
    let after = s.with_frontier(rest);
    assert forall|i: int| 0 <= i < rest.len() implies rest[i] == s.frontier[i + 1] by {}
    assert forall|i: int, j: int| 0 <= i < j < rest.len() implies rank(
        after,
        level,
        #[trigger] rest[i],
    ) <= rank(after, level, #[trigger] rest[j]) by {
        assert(rank(s, level, s.frontier[i + 1]) <= rank(s, level, s.frontier[j + 1]));
    }
    assert forall|i: int| 0 <= i < rest.len() implies rank(after, level, #[trigger] rest[i])
        <= rank(after, level, rest[0]) + 1 by {
        assert(rank(s, level, s.frontier[i + 1]) <= rank(s, level, s.frontier[0]) + 1);
        assert(rank(s, level, s.frontier[0]) <= rank(s, level, s.frontier[1]));
    }
    assert forall|u: usize| #[trigger] after.discovered.contains(u) && rest.len() > 0 implies level[u as int]
        <= rank(after, level, rest[0]) by {
        assert(rank(s, level, s.frontier[0]) <= rank(s, level, s.frontier[1]));
    }
    assert forall|u: usize, w: usize|
        after.discovered.contains(u) && w < g.count && #[trigger] g.edges.contains_key(
            (u, w),
        ) implies after.discovered.contains(w) || covered(after, level, w, level[u as int] + 1) by {
        if !s.discovered.contains(w) {
            assert(covered(s, level, w, level[u as int] + 1));
            let i = choose|i: int|
                0 <= i < s.frontier.len() && (#[trigger] s.frontier[i]).0 == w && rank(
                    s,
                    level,
                    s.frontier[i],
                ) <= level[u as int] + 1;
            assert(i > 0);
            assert(after.frontier[i - 1] == s.frontier[i]);
            assert(rank(after, level, after.frontier[i - 1]) == rank(s, level, s.frontier[i]));
        }
    }
}

/// After a visit to the node of the first pair in the queue, every waiting
/// pair has the rank of that pair or one more, and the queue is in the order
/// of the ranks.
proof fn lemma_ranks_after_visit<T, W>(
    s: SearchModel,
    turn: Seq<nat>,
    level: Seq<nat>,
    g: GraphModel<T, W>,
)
    requires
        search_inv(s, turn, g),
        level_inv(s, level, g),
        s.frontier.len() > 0,
        !s.discovered.contains(s.frontier[0].0),
    ensures
        ({
            let far = rank(s, level, s.frontier[0]);
            let after = s.visit(s.frontier[0], s.frontier.remove(0), g);
            let levels = level.update(s.frontier[0].0 as int, far);
            &&& forall|i: int|
                0 <= i < after.frontier.len() ==> far <= rank(
                    after,
                    levels,
                    #[trigger] after.frontier[i],
                ) <= far + 1
            &&& forall|i: int, j: int|
                0 <= i < j < after.frontier.len() ==> rank(
                    after,
                    levels,
                    #[trigger] after.frontier[i],
                ) <= rank(after, levels, #[trigger] after.frontier[j])
            &&& forall|i: int|
                0 <= i < s.frontier.len() - 1 ==> #[trigger] after.frontier[i] == s.frontier[i + 1]
                    && rank(after, levels, after.frontier[i]) == rank(s, level, s.frontier[i + 1])
            &&& forall|i: int|
                s.frontier.len() - 1 <= i < after.frontier.len() ==> rank(
                    after,
                    levels,
                    #[trigger] after.frontier[i],
                ) == far + 1 && (after.frontier[i]).1 == s.frontier[0].0
                    && !after.discovered.contains(after.frontier[i].0)
        }),
{
    let entry = s.frontier[0];
    let node = entry.0;
    let far = rank(s, level, entry);
    let rest = s.frontier.remove(0);
    let after = s.visit(entry, rest, g);
    let levels = level.update(node as int, far);
    let neighbours = g.outgoing(node);
    let added = fresh_entries(neighbours, node, after.discovered);
    lemma_inv_entry(s, turn, g, 0);
    lemma_inv_bounds(s, turn, g);
    lemma_level_len(s, level, g);
    if node != s.root {
        lemma_inv_linked(s, turn, g, entry.1);
    }
    lemma_fresh_entries(neighbours, node, after.discovered);
    assert forall|i: int| 0 <= i < rest.len() implies #[trigger] after.frontier[i] == s.frontier[i
        + 1] && rank(after, levels, after.frontier[i]) == rank(s, level, s.frontier[i + 1]) by {
        assert(after.frontier[i] == rest[i]);
        lemma_inv_entry(s, turn, g, i + 1);
    }
    assert forall|i: int| rest.len() <= i < after.frontier.len() implies rank(
        after,
        levels,
        #[trigger] after.frontier[i],
    ) == far + 1 && (after.frontier[i]).1 == node && !after.discovered.contains(
        after.frontier[i].0,
    ) by {
        assert(after.frontier[i] == added[i - rest.len()]);
    }
    assert forall|i: int| 0 <= i < after.frontier.len() implies far <= rank(
        after,
        levels,
        #[trigger] after.frontier[i],
    ) <= far + 1 by {
        if i < rest.len() {
            lemma_rank_span(s, level, g, i + 1);
        }
    }
    assert forall|i: int, j: int| 0 <= i < j < after.frontier.len() implies rank(
        after,
        levels,
        #[trigger] after.frontier[i],
    ) <= rank(after, levels, #[trigger] after.frontier[j]) by {
        if j < rest.len() {
            lemma_rank_order(s, level, g, i + 1, j + 1);
        }
    }
}

/// The ranks in the queue lie between that of the first pair and one more.
proof fn lemma_rank_span<T, W>(s: SearchModel, level: Seq<nat>, g: GraphModel<T, W>, i: int)
    requires
        level_inv(s, level, g),
        0 <= i < s.frontier.len(),
    ensures
        rank(s, level, s.frontier[0]) <= rank(s, level, s.frontier[i]) <= rank(
            s,
            level,
            s.frontier[0],
        ) + 1,
{
    reveal(level_inv);
    if i > 0 {
        assert(rank(s, level, s.frontier[0]) <= rank(s, level, s.frontier[i]));
    }
}

/// The queue is in the order of the ranks.
proof fn lemma_rank_order<T, W>(s: SearchModel, level: Seq<nat>, g: GraphModel<T, W>, i: int, j: int)
    requires
        level_inv(s, level, g),
        0 <= i <= j < s.frontier.len(),
    ensures
        rank(s, level, s.frontier[i]) <= rank(s, level, s.frontier[j]),
{
    reveal(level_inv);
}

/// What the invariant says of an edge from a discovered node.
proof fn lemma_edge_covered<T, W>(
    s: SearchModel,
    level: Seq<nat>,
    g: GraphModel<T, W>,
    u: usize,
    w: usize,
)
    requires
        level_inv(s, level, g),
        s.discovered.contains(u),
        w < g.count,
        g.edges.contains_key((u, w)),
        !s.discovered.contains(w),
    ensures
        covered(s, level, w, level[u as int] + 1),
{
    reveal(level_inv);
}

/// After a visit to the undiscovered node of the first pair in the queue,
/// every neighbour of a discovered node is discovered or waits.
proof fn lemma_covered_after_visit<T, W>(
    s: SearchModel,
    turn: Seq<nat>,
    level: Seq<nat>,
    g: GraphModel<T, W>,
    u: usize,
    w: usize,
)
    requires
        search_inv(s, turn, g),
        level_inv(s, level, g),
        s.frontier.len() > 0,
        !s.discovered.contains(s.frontier[0].0),
        s.visit(s.frontier[0], s.frontier.remove(0), g).discovered.contains(u),
        w < g.count,
        g.edges.contains_key((u, w)),
        !s.visit(s.frontier[0], s.frontier.remove(0), g).discovered.contains(w),
    ensures
        covered(
            s.visit(s.frontier[0], s.frontier.remove(0), g),
            level.update(s.frontier[0].0 as int, rank(s, level, s.frontier[0])),
            w,
            level.update(s.frontier[0].0 as int, rank(s, level, s.frontier[0]))[u as int] + 1,
        ),
{
    let entry = s.frontier[0];
    let node = entry.0;
    let far = rank(s, level, entry);
    let rest = s.frontier.remove(0);
    let after = s.visit(entry, rest, g);
    let levels = level.update(node as int, far);
    let neighbours = g.outgoing(node);
    let added = fresh_entries(neighbours, node, after.discovered);
    lemma_inv_bounds(s, turn, g);
    lemma_inv_entry(s, turn, g, 0);
    lemma_level_len(s, level, g);
    lemma_ranks_after_visit(s, turn, level, g);
    if u == node {
        let keep = |to: usize| g.edges.contains_key((node, to));
        lemma_ascending_where(g.count, keep);
        assert(keep(w));
        assert(neighbours.contains(w));
        let at = choose|at: int| 0 <= at < neighbours.len() && neighbours[at] == w;
        assert(!after.discovered.contains(neighbours[at]));
        lemma_fresh_entries(neighbours, node, after.discovered);
        let j = choose|j: int| 0 <= j < added.len() && (#[trigger] added[j]).0 == w;
        assert(after.frontier[rest.len() + j] == added[j]);
        assert(rank(after, levels, after.frontier[rest.len() + j]) == far + 1);
        assert(levels[u as int] == far);
        assert(covered(after, levels, w, levels[u as int] + 1));
    } else {
        lemma_edge_covered(s, level, g, u, w);
        let i = choose|i: int|
            0 <= i < s.frontier.len() && (#[trigger] s.frontier[i]).0 == w && rank(
                s,
                level,
                s.frontier[i],
            ) <= level[u as int] + 1;
        assert(i > 0);
        assert(after.frontier[i - 1] == s.frontier[i]);
        assert(rank(after, levels, after.frontier[i - 1]) == rank(s, level, s.frontier[i]));
        assert(s.discovered.contains(u) && u < g.count);
        assert(levels[u as int] == level[u as int]);
        assert(covered(after, levels, w, levels[u as int] + 1));
    }
}

/// The node of the first pair in the queue, where it is undiscovered, lies as
/// far from the root as the rank of the pair says.
pub proof fn lemma_front_distance<T, W>(
    s: SearchModel,
    turn: Seq<nat>,
    level: Seq<nat>,
    g: GraphModel<T, W>,
)
    requires
        search_inv(s, turn, g),
        level_inv(s, level, g),
        s.frontier.len() > 0,
        !s.discovered.contains(s.frontier[0].0),
    ensures
        at_distance(g, s.root, s.frontier[0].0, rank(s, level, s.frontier[0])),
{
    let entry = s.frontier[0];
    let node = entry.0;
    let far = rank(s, level, entry);
    lemma_inv_entry(s, turn, g, 0);
    lemma_inv_bounds(s, turn, g);
    assert forall|walk: Seq<usize>| #[trigger] joins(g, walk, s.root, node) implies walk.len()
        >= far + 1 by {
        lemma_front_is_nearest(s, turn, level, g, walk);
    }
    if node == s.root {
        let walk = seq![s.root];
        assert(joins(g, walk, s.root, node) && walk.len() == far + 1);
    } else {
        lemma_level(s, level, g, entry.1);
        let walk = choose|walk: Seq<usize>| #[trigger]
            joins(g, walk, s.root, entry.1) && walk.len() == level[entry.1 as int] + 1;
        lemma_walk_more(g, walk, node);
        assert(joins(g, walk.push(node), s.root, node) && walk.push(node).len() == far + 1);
    }
}

/// Visiting the undiscovered node of the first pair in the queue keeps the
/// traversal in order: the node lies as far from the root as the rank of the
/// pair says, and no discovered node lies further.
pub proof fn lemma_visit_keeps_levels<T, W>(
    s: SearchModel,
    turn: Seq<nat>,
    level: Seq<nat>,
    g: GraphModel<T, W>,
)
    requires
        search_inv(s, turn, g),
        level_inv(s, level, g),
        s.frontier.len() > 0,
        !s.discovered.contains(s.frontier[0].0),
    ensures
        level_inv(
            s.visit(s.frontier[0], s.frontier.remove(0), g),
            level.update(s.frontier[0].0 as int, rank(s, level, s.frontier[0])),
            g,
        ),
        at_distance(g, s.root, s.frontier[0].0, rank(s, level, s.frontier[0])),
        forall|u: usize|
            #[trigger] s.discovered.contains(u) ==> level[u as int] <= rank(
                s,
                level,
                s.frontier[0],
            ),
{
    let entry = s.frontier[0];
    let node = entry.0;
    let far = rank(s, level, entry);
    let rest = s.frontier.remove(0);
    let after = s.visit(entry, rest, g);
    let levels = level.update(node as int, far);
    lemma_inv_entry(s, turn, g, 0);
    lemma_inv_bounds(s, turn, g);
    lemma_front_distance(s, turn, level, g);
    lemma_ranks_after_visit(s, turn, level, g);
    assert forall|u: usize| #[trigger] s.discovered.contains(u) implies level[u as int] <= far by {
        lemma_level(s, level, g, u);
    }
    assert(level.len() == g.count) by {
        reveal(level_inv);
    }
    assert forall|u: usize| #[trigger] after.discovered.contains(u) implies at_distance(
        g,
        s.root,
        u,
        levels[u as int],
    ) by {
        if u != node {
            lemma_level(s, level, g, u);
        }
    }
    assert forall|u: usize| #[trigger] after.discovered.contains(u) && u != s.root implies levels[after.from_map[u as int] as int]
        + 1 == levels[u as int] by {
        if u != node {
            lemma_level(s, level, g, u);
            lemma_inv_linked(s, turn, g, u);
        } else {
            lemma_inv_linked(s, turn, g, entry.1);
        }
    }
    assert forall|u: usize| #[trigger]
        after.discovered.contains(u) && after.frontier.len() > 0 implies levels[u as int] <= rank(
        after,
        levels,
        after.frontier[0],
    ) by {
        assert(far <= rank(after, levels, after.frontier[0]));
        if u != node {
            assert(s.discovered.contains(u));
        }
    }
    assert forall|i: int| 0 <= i < after.frontier.len() implies rank(
        after,
        levels,
        #[trigger] after.frontier[i],
    ) <= rank(after, levels, after.frontier[0]) + 1 by {
        assert(far <= rank(after, levels, after.frontier[0]));
    }
    assert forall|u: usize, w: usize|
        after.discovered.contains(u) && w < g.count && #[trigger] g.edges.contains_key(
            (u, w),
        ) implies after.discovered.contains(w) || covered(after, levels, w, levels[u as int] + 1) by {
        if !after.discovered.contains(w) {
            lemma_covered_after_visit(s, turn, level, g, u, w);
        }
    }
    reveal(level_inv);
}

/// On a path that follows the recorded predecessors from the root over
/// discovered nodes, every node but the last lies as many edges from the root
/// as it has nodes before it.
pub proof fn lemma_path_level<T, W>(
    s: SearchModel,
    level: Seq<nat>,
    g: GraphModel<T, W>,
    path: Seq<usize>,
    i: int,
)
    requires
        level_inv(s, level, g),
        s.root < g.count,
        path.len() >= 2,
        path[0] == s.root,
        follows_records(s.from_map, path),
        forall|k: int| 0 < k < path.len() - 1 ==> (#[trigger] path[k]) != s.root,
        forall|k: int| 0 <= k < path.len() - 1 ==> s.discovered.contains(#[trigger] path[k]),
        0 <= i <= path.len() - 2,
    ensures
        level[path[i] as int] == i,
    decreases i,
{
    lemma_level(s, level, g, path[i]);
    if i == 0 {
        let alone = seq![s.root];
        assert(joins(g, alone, s.root, s.root));
    } else {
        lemma_path_level(s, level, g, path, i - 1);
        assert(path[i - 1] == s.from_map[path[i] as int]);
    }
}

} // verus!
