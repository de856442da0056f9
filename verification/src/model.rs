//! The mathematical model shared by every storage backend: a node count, the
//! stored node values and a weighted edge relation. Contracts of the graph
//! operations are stated over this model, and the algebraic facts that hold of
//! every backend are proved here once.
use vstd::prelude::*;

verus! {

/// The indices below `n` that satisfy `keep`, in ascending order.
pub open spec fn ascending_where(n: nat, keep: spec_fn(usize) -> bool) -> Seq<usize>
    decreases n,
{
    if n == 0 {
        Seq::empty()
    } else {
        let rest = ascending_where((n - 1) as nat, keep);
        if keep((n - 1) as usize) {
            rest.push((n - 1) as usize)
        } else {
            rest
        }
    }
}

/// Every element is smaller than the one that follows it.
pub open spec fn strictly_ascending(s: Seq<usize>) -> bool {
    forall|i: int, j: int| 0 <= i < j < s.len() ==> s[i] < s[j]
}

/// `s` lists exactly the indices below `n` that satisfy `keep`.
pub open spec fn lists_exactly(s: Seq<usize>, n: nat, keep: spec_fn(usize) -> bool) -> bool {
    &&& forall|i: int| 0 <= i < s.len() ==> (#[trigger] s[i]) < n && keep(s[i])
    &&& forall|x: usize| x < n && keep(x) ==> s.contains(x)
}

/// `ascending_where` is strictly ascending and lists exactly the kept indices.
pub proof fn lemma_ascending_where(n: nat, keep: spec_fn(usize) -> bool)
    requires
        n <= usize::MAX + 1,
    ensures
        strictly_ascending(ascending_where(n, keep)),
        lists_exactly(ascending_where(n, keep), n, keep),
        ascending_where(n, keep).len() <= n,
    decreases n,
{
    if n > 0 {
        let rest = ascending_where((n - 1) as nat, keep);
        lemma_ascending_where((n - 1) as nat, keep);
        let s = ascending_where(n, keep);
        let last = (n - 1) as usize;
        if keep(last) {
            assert(s == rest.push(last));
            assert forall|x: usize| x < n && keep(x) implies s.contains(x) by {
                if x == last {
                    assert(s[rest.len() as int] == x);
                } else {
                    assert(rest.contains(x));
                    let i = choose|i: int| 0 <= i < rest.len() && rest[i] == x;
                    assert(s[i] == x);
                }
            }
        } else {
            assert forall|x: usize| x < n && keep(x) implies s.contains(x) by {
                assert(x != last);
                assert(rest.contains(x));
            }
        }
    }
}

/// Two predicates that agree below `n` keep the same indices.
pub proof fn lemma_ascending_where_agree(
    n: nat,
    keep: spec_fn(usize) -> bool,
    other: spec_fn(usize) -> bool,
)
    requires
        n <= usize::MAX + 1,
        forall|x: usize| x < n ==> #[trigger] keep(x) == other(x),
    ensures
        ascending_where(n, keep) == ascending_where(n, other),
    decreases n,
{
    if n > 0 {
        lemma_ascending_where_agree((n - 1) as nat, keep, other);
    }
}

/// A strictly ascending sequence is determined by its elements: the only one
/// that lists exactly the kept indices below `n` is `ascending_where(n, keep)`.
pub proof fn lemma_ascending_unique(s: Seq<usize>, n: nat, keep: spec_fn(usize) -> bool)
    requires
        n <= usize::MAX + 1,
        strictly_ascending(s),
        lists_exactly(s, n, keep),
    ensures
        s == ascending_where(n, keep),
    decreases n,
{
    if n == 0 {
        if s.len() > 0 {
            assert(s[0] < n);
        }
        assert(s =~= Seq::empty());
    } else {
        let last = (n - 1) as usize;
        if keep(last) {
            assert(s.contains(last));
            let k = choose|k: int| 0 <= k < s.len() && s[k] == last;
            if k < s.len() - 1 {
                assert(s[k] < s[s.len() - 1]);
                assert(s[s.len() - 1] < n);
            }
            let front = s.drop_last();
            assert forall|x: usize| x < n - 1 && keep(x) implies front.contains(x) by {
                assert(s.contains(x));
                let i = choose|i: int| 0 <= i < s.len() && s[i] == x;
                assert(i != k);
                assert(front[i] == x);
            }
            assert forall|i: int| 0 <= i < front.len() implies (#[trigger] front[i]) < n - 1
                && keep(front[i]) by {
                assert(front[i] == s[i]);
                assert(s[i] < s[k]);
            }
            lemma_ascending_unique(front, (n - 1) as nat, keep);
            assert(s =~= front.push(last));
        } else {
            assert forall|i: int| 0 <= i < s.len() implies (#[trigger] s[i]) < n - 1 && keep(
                s[i],
            ) by {
                assert(s[i] < n && keep(s[i]));
            }
            assert forall|x: usize| x < n - 1 && keep(x) implies s.contains(x) by {
                assert(x < n);
            }
            lemma_ascending_unique(s, (n - 1) as nat, keep);
        }
    }
}

/// What a graph is, whatever stores it.
///
/// `count` is the number of nodes, so valid indices are `0..count`; `nodes`
/// holds the values handed to `push_node`, in append order; `edges` maps each
/// ordered pair that is joined by an edge to the edge's weight.
pub struct GraphModel<T, W> {
    pub count: nat,
    pub nodes: Seq<T>,
    pub edges: Map<(usize, usize), W>,
}

impl<T, W> GraphModel<T, W> {
    /// A graph without edges over `nodes`.
    pub open spec fn empty() -> Self {
        GraphModel { count: 0, nodes: Seq::empty(), edges: Map::empty() }
    }

    /// Both indices name a node.
    pub open spec fn in_range(self, from: usize, to: usize) -> bool {
        from < self.count && to < self.count
    }

    /// There is an edge between two existing nodes.
    pub open spec fn has_edge(self, from: usize, to: usize) -> bool {
        self.in_range(from, to) && self.edges.contains_key((from, to))
    }

    /// The graph with the edge `(from, to)` created or overwritten.
    pub open spec fn with_edge(self, from: usize, to: usize, weight: W) -> Self {
        GraphModel { edges: self.edges.insert((from, to), weight), ..self }
    }

    /// The graph after the edge `(from, to)` was created or overwritten
    /// `times` times over.
    pub open spec fn with_edge_repeated(
        self,
        from: usize,
        to: usize,
        weight: W,
        times: nat,
    ) -> Self
        decreases times,
    {
        if times == 0 {
            self
        } else {
            self.with_edge_repeated(from, to, weight, (times - 1) as nat).with_edge(
                from,
                to,
                weight,
            )
        }
    }

    /// The graph with the edge `(from, to)` cleared.
    pub open spec fn without_edge(self, from: usize, to: usize) -> Self {
        GraphModel { edges: self.edges.remove((from, to)), ..self }
    }

    /// The graph with every edge that touches `node` cleared.
    pub open spec fn without_edges_of(self, node: usize) -> Self {
        GraphModel {
            edges: self.edges.remove_keys(
                Set::new(
                    |pair: (usize, usize)|
                        self.in_range(pair.0, pair.1) && (pair.0 == node || pair.1 == node),
                ),
            ),
            ..self
        }
    }

    /// The graph with one more node, holding `value`.
    pub open spec fn with_node(self, value: T) -> Self {
        GraphModel { count: self.count + 1, nodes: self.nodes.push(value), ..self }
    }

    /// The graph with the value of node `index` replaced.
    pub open spec fn with_node_value(self, index: usize, value: T) -> Self {
        GraphModel { nodes: self.nodes.update(index as int, value), ..self }
    }

    /// The graph with its node count forced to `count`.
    pub open spec fn with_count(self, count: nat) -> Self {
        GraphModel { count, ..self }
    }

    /// The index names a node whose value is stored.
    pub open spec fn holds_node(self, index: usize) -> bool {
        index < self.count && index < self.nodes.len()
    }

    /// The nodes that `node` points to, ascending.
    pub open spec fn outgoing(self, node: usize) -> Seq<usize> {
        ascending_where(self.count, |to: usize| self.edges.contains_key((node, to)))
    }

    /// The nodes that point to `node`, ascending.
    pub open spec fn incoming(self, node: usize) -> Seq<usize> {
        ascending_where(self.count, |from: usize| self.edges.contains_key((from, node)))
    }

    /// The edges whose source is below `n`, ordered by source and then by
    /// destination.
    pub open spec fn pairs_below(self, n: nat) -> Seq<(usize, usize)>
        decreases n,
    {
        if n == 0 {
            Seq::empty()
        } else {
            self.pairs_below((n - 1) as nat) + self.outgoing((n - 1) as usize).map_values(
                |to: usize| ((n - 1) as usize, to),
            )
        }
    }

    /// Every edge of the graph, ordered by source and then by destination.
    pub open spec fn all_pairs(self) -> Seq<(usize, usize)> {
        self.pairs_below(self.count)
    }

    /// An edge leads from the node at position `i` of `walk` to the next one.
    pub open spec fn joined(self, walk: Seq<usize>, i: int) -> bool {
        self.edges.contains_key((walk[i], walk[i + 1]))
    }

    /// `walk` is a non-empty sequence of nodes, each joined to the next by an
    /// edge.
    pub open spec fn is_walk(self, walk: Seq<usize>) -> bool {
        &&& walk.len() > 0
        &&& forall|i: int| 0 <= i < walk.len() ==> (#[trigger] walk[i]) < self.count
        &&& forall|i: int| 0 <= i < walk.len() - 1 ==> #[trigger] self.joined(walk, i)
    }

    /// Some walk leads from `from` to `to`; a node reaches itself.
    pub open spec fn reaches(self, from: usize, to: usize) -> bool {
        exists|walk: Seq<usize>| self.is_walk(walk) && walk[0] == from && walk.last() == to
    }
}

/// An added edge is present, and it is absent again once it is removed.
pub proof fn lemma_add_remove_round_trip<T, W>(
    g: GraphModel<T, W>,
    from: usize,
    to: usize,
    weight: W,
)
    requires
        g.in_range(from, to),
    ensures
        g.with_edge(from, to, weight).has_edge(from, to),
        g.with_edge(from, to, weight).edges[(from, to)] == weight,
        !g.with_edge(from, to, weight).without_edge(from, to).has_edge(from, to),
{
}

/// Adding an edge a second time changes nothing: the graph, and with it the
/// neighbours listed for the source, stay as they were after the first time.
pub proof fn lemma_add_edge_idempotent<T, W>(
    g: GraphModel<T, W>,
    from: usize,
    to: usize,
    weight: W,
)
    ensures
        g.with_edge(from, to, weight).with_edge(from, to, weight) == g.with_edge(from, to, weight),
        g.with_edge(from, to, weight).with_edge(from, to, weight).outgoing(from) == g.with_edge(
            from,
            to,
            weight,
        ).outgoing(from),
        g.edges.contains_key((from, to)) ==> g.with_edge(from, to, weight).outgoing(from)
            == g.outgoing(from),
{
    let once = g.with_edge(from, to, weight);
    let twice = once.with_edge(from, to, weight);
    assert(twice.edges =~= once.edges);
    if g.edges.contains_key((from, to)) {
        let before = |x: usize| g.edges.contains_key((from, x));
        let after = |x: usize| once.edges.contains_key((from, x));
        assert(before =~= after);
    }
}

/// However often an edge is added, the graph is as it was after the first
/// time, and so are the neighbours listed for the source.
pub proof fn lemma_add_edge_repeated<T, W>(
    g: GraphModel<T, W>,
    from: usize,
    to: usize,
    weight: W,
    times: nat,
)
    requires
        times >= 1,
    ensures
        g.with_edge_repeated(from, to, weight, times) == g.with_edge(from, to, weight),
        g.with_edge_repeated(from, to, weight, times).outgoing(from) == g.with_edge(
            from,
            to,
            weight,
        ).outgoing(from),
    decreases times,
{
    if times > 1 {
        lemma_add_edge_repeated(g, from, to, weight, (times - 1) as nat);
        lemma_add_edge_idempotent(g, from, to, weight);
    } else {
        assert(g.with_edge_repeated(from, to, weight, 0) == g);
    }
}

/// One pair comes before another in the order of sources and then of
/// destinations.
pub open spec fn pair_before(a: (usize, usize), b: (usize, usize)) -> bool {
    a.0 < b.0 || (a.0 == b.0 && a.1 < b.1)
}

/// The pairs with a source below `n` are exactly the edges between nodes of
/// the graph with such a source, each once, in the order of sources and then
/// of destinations.
pub proof fn lemma_pairs_below<T, W>(g: GraphModel<T, W>, n: nat)
    requires
        n <= g.count <= usize::MAX + 1,
    ensures
        forall|i: int, j: int|
            0 <= i < j < g.pairs_below(n).len() ==> pair_before(
                g.pairs_below(n)[i],
                g.pairs_below(n)[j],
            ),
        forall|i: int|
            0 <= i < g.pairs_below(n).len() ==> (#[trigger] g.pairs_below(n)[i]).0 < n
                && g.has_edge(g.pairs_below(n)[i].0, g.pairs_below(n)[i].1),
        forall|from: usize, to: usize|
            from < n && g.has_edge(from, to) ==> g.pairs_below(n).contains((from, to)),
    decreases n,
{
    if n > 0 {
        let source = (n - 1) as usize;
        let front = g.pairs_below((n - 1) as nat);
        let neighbours = g.outgoing(source);
        let block = neighbours.map_values(|to: usize| (source, to));
        let all = g.pairs_below(n);
        lemma_pairs_below(g, (n - 1) as nat);
        lemma_neighbours_ascending(g, source);
        let keep = |to: usize| g.edges.contains_key((source, to));
        lemma_ascending_where(g.count, keep);
        assert(all == front + block);
        assert forall|i: int, j: int| 0 <= i < j < all.len() implies pair_before(all[i], all[j]) by {
            if j < front.len() {
                assert(all[i] == front[i] && all[j] == front[j]);
            } else if i < front.len() {
                assert(all[i] == front[i]);
                assert(all[j] == block[j - front.len()]);
            } else {
                assert(all[i] == block[i - front.len()]);
                assert(all[j] == block[j - front.len()]);
                assert(neighbours[i - front.len()] < neighbours[j - front.len()]);
            }
        }
        assert forall|i: int| 0 <= i < all.len() implies (#[trigger] all[i]).0 < n && g.has_edge(
            all[i].0,
            all[i].1,
        ) by {
            if i < front.len() {
                assert(all[i] == front[i]);
            } else {
                assert(all[i] == block[i - front.len()]);
                assert(neighbours[i - front.len()] < g.count);
            }
        }
        assert forall|from: usize, to: usize| from < n && g.has_edge(from, to) implies all.contains(
            (from, to),
        ) by {
            if from < n - 1 {
                assert(front.contains((from, to)));
                let i = choose|i: int| 0 <= i < front.len() && front[i] == (from, to);
                assert(all[i] == (from, to));
            } else {
                assert(keep(to));
                assert(neighbours.contains(to));
                let i = choose|i: int| 0 <= i < neighbours.len() && neighbours[i] == to;
                assert(block[i] == (from, to));
                assert(all[front.len() + i] == (from, to));
            }
        }
    }
}

/// `all_pairs` lists exactly the edges between nodes of the graph, each once,
/// in the order of sources and then of destinations.
pub proof fn lemma_all_pairs<T, W>(g: GraphModel<T, W>)
    requires
        g.count <= usize::MAX + 1,
    ensures
        forall|i: int, j: int|
            0 <= i < j < g.all_pairs().len() ==> pair_before(g.all_pairs()[i], g.all_pairs()[j]),
        forall|from: usize, to: usize| g.all_pairs().contains((from, to)) <==> g.has_edge(from, to),
{
    lemma_pairs_below(g, g.count);
    let all = g.all_pairs();
    assert forall|from: usize, to: usize| all.contains((from, to)) implies g.has_edge(from, to) by {
        let i = choose|i: int| 0 <= i < all.len() && all[i] == (from, to);
        assert(g.has_edge(all[i].0, all[i].1));
    }
}

/// For two nodes of the graph, `to` is listed among the outgoing neighbours of
/// `from` exactly when `from` is listed among the incoming neighbours of `to`,
/// and exactly when the edge exists.
pub proof fn lemma_outgoing_mirrors_incoming<T, W>(g: GraphModel<T, W>, from: usize, to: usize)
    requires
        g.count <= usize::MAX + 1,
        g.in_range(from, to),
    ensures
        g.outgoing(from).contains(to) <==> g.incoming(to).contains(from),
        g.outgoing(from).contains(to) <==> g.has_edge(from, to),
{
    let out_keep = |x: usize| g.edges.contains_key((from, x));
    let in_keep = |x: usize| g.edges.contains_key((x, to));
    lemma_ascending_where(g.count, out_keep);
    lemma_ascending_where(g.count, in_keep);
    let out = g.outgoing(from);
    let inc = g.incoming(to);
    if out.contains(to) {
        let i = choose|i: int| 0 <= i < out.len() && out[i] == to;
        assert(out[i] < g.count && out_keep(out[i]));
    }
    if inc.contains(from) {
        let i = choose|i: int| 0 <= i < inc.len() && inc[i] == from;
        assert(inc[i] < g.count && in_keep(inc[i]));
    }
    if g.edges.contains_key((from, to)) {
        assert(out_keep(to));
        assert(in_keep(from));
    }
}

/// The neighbours listed for a node are nodes of the graph, each joined to it
/// by an edge, in strictly ascending order: no index occurs twice.
pub proof fn lemma_neighbours_ascending<T, W>(g: GraphModel<T, W>, node: usize)
    requires
        g.count <= usize::MAX + 1,
    ensures
        strictly_ascending(g.outgoing(node)),
        strictly_ascending(g.incoming(node)),
        g.outgoing(node).no_duplicates(),
        g.incoming(node).no_duplicates(),
        forall|i: int|
            0 <= i < g.outgoing(node).len() ==> (#[trigger] g.outgoing(node)[i]) < g.count
                && g.edges.contains_key((node, g.outgoing(node)[i])),
        forall|i: int|
            0 <= i < g.incoming(node).len() ==> (#[trigger] g.incoming(node)[i]) < g.count
                && g.edges.contains_key((g.incoming(node)[i], node)),
{
    let out_keep = |x: usize| g.edges.contains_key((node, x));
    let in_keep = |x: usize| g.edges.contains_key((x, node));
    lemma_ascending_where(g.count, out_keep);
    lemma_ascending_where(g.count, in_keep);
    let out = g.outgoing(node);
    let inc = g.incoming(node);
    assert forall|i: int, j: int| 0 <= i < out.len() && 0 <= j < out.len() && i != j implies out[i]
        != out[j] by {
        if i < j {
            assert(out[i] < out[j]);
        } else {
            assert(out[j] < out[i]);
        }
    }
    assert forall|i: int, j: int| 0 <= i < inc.len() && 0 <= j < inc.len() && i != j implies inc[i]
        != inc[j] by {
        if i < j {
            assert(inc[i] < inc[j]);
        } else {
            assert(inc[j] < inc[i]);
        }
    }
    assert forall|i: int| 0 <= i < out.len() implies (#[trigger] out[i]) < g.count
        && g.edges.contains_key((node, out[i])) by {
        assert(out[i] < g.count && out_keep(out[i]));
    }
    assert forall|i: int| 0 <= i < inc.len() implies (#[trigger] inc[i]) < g.count
        && g.edges.contains_key((inc[i], node)) by {
        assert(inc[i] < g.count && in_keep(inc[i]));
    }
}

} // verus!
