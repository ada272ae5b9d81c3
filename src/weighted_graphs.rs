use vstd::prelude::*;

use crate::error::GraphError;
use crate::frontier::MinQueue;
use crate::keyed::{describes, keyed_map, lemma_describes_keyed_map, lemma_keyed_map_describes};

verus! {

/// `a` and `b` are joined by an edge.
pub open spec fn joined(g: Map<u64, Map<u64, usize>>, a: u64, b: u64) -> bool {
    g.contains_key(a) && g[a].contains_key(b)
}

/// Every edge is recorded at both endpoints with one weight.
pub open spec fn is_symmetric(g: Map<u64, Map<u64, usize>>) -> bool {
    forall|a: u64, b: u64| #[trigger]
        joined(g, a, b) ==> g.contains_key(b) && g[b].contains_key(a) && g[b][a] == g[a][b]
}

/// The relation after registering `id`: unchanged when `id` is already there.
pub open spec fn with_weighted_node(g: Map<u64, Map<u64, usize>>, id: u64) -> Map<
    u64,
    Map<u64, usize>,
> {
    if g.contains_key(id) {
        g
    } else {
        g.insert(id, Map::empty())
    }
}

/// The relation after writing `w` as the weight between `a` and `b`, at both endpoints.
pub open spec fn with_weighted_edge(g: Map<u64, Map<u64, usize>>, a: u64, b: u64, w: usize) -> Map<
    u64,
    Map<u64, usize>,
> {
    let g1 = g.insert(a, g[a].insert(b, w));
    g1.insert(b, g1[b].insert(a, w))
}

/// `x` clipped to the largest `usize`.
pub open spec fn capped(x: int) -> int {
    if x > usize::MAX {
        usize::MAX as int
    } else {
        x
    }
}

/// A non-empty sequence of registered nodes, each joined to the next.
pub open spec fn is_path(g: Map<u64, Map<u64, usize>>, p: Seq<u64>) -> bool {
    &&& p.len() > 0
    &&& forall|i: int| 0 <= i < p.len() ==> g.contains_key(#[trigger] p[i])
    &&& forall|i: int| 0 <= i < p.len() - 1 ==> #[trigger] joined(g, p[i], p[i + 1])
}

/// The total weight of a path, summed from its start and clipped to the largest `usize`.
pub open spec fn path_weight(g: Map<u64, Map<u64, usize>>, p: Seq<u64>) -> int
    decreases p.len(),
{
    if p.len() <= 1 {
        0
    } else {
        capped(path_weight(g, p.drop_last()) + g[p[p.len() - 2]][p.last()])
    }
}

/// `p` is a path that starts at `a` and ends at `b`.
pub open spec fn connects(g: Map<u64, Map<u64, usize>>, p: Seq<u64>, a: u64, b: u64) -> bool {
    is_path(g, p) && p[0] == a && p.last() == b
}

/// Some path leads from `a` to `b`.
pub open spec fn reachable(g: Map<u64, Map<u64, usize>>, a: u64, b: u64) -> bool {
    exists|p: Seq<u64>| #[trigger] connects(g, p, a, b)
}

/// Some node is joined to itself, or some path through three or more distinct nodes
/// closes back on its start.
pub open spec fn has_undirected_cycle(g: Map<u64, Map<u64, usize>>) -> bool {
    (exists|a: u64| #[trigger] joined(g, a, a)) || exists|p: Seq<u64>|
        #![trigger is_path(g, p)]
        p.len() >= 3 && p.no_duplicates() && is_path(g, p) && joined(g, p.last(), p[0])
}

/// `x` is joined to at least one node.
pub open spec fn has_neighbour(g: Map<u64, Map<u64, usize>>, x: u64) -> bool {
    exists|y: u64| #[trigger] joined(g, x, y)
}

/// `b` is a neighbour of `a` whose edge weighs no more than any other edge of `a`.
pub open spec fn is_lightest(g: Map<u64, Map<u64, usize>>, a: u64, b: u64) -> bool {
    joined(g, a, b) && forall|c: u64| #[trigger] joined(g, a, c) ==> g[a][b] <= g[a][c]
}

/// A neighbour of `a` along one of its lightest edges.
pub open spec fn lightest(g: Map<u64, Map<u64, usize>>, a: u64) -> u64 {
    choose|b: u64| is_lightest(g, a, b)
}

/// No two different edges share a weight.
pub open spec fn distinct_weights(g: Map<u64, Map<u64, usize>>) -> bool {
    forall|a: u64, b: u64, c: u64, d: u64|
        #[trigger] joined(g, a, b) && #[trigger] joined(g, c, d) && g[a][b] == g[c][d] ==> (a == c
            && b == d) || (a == d && b == c)
}

/// The edges that are the lightest edge of at least one of their endpoints, over the
/// nodes that have an edge.
pub open spec fn lightest_edges(g: Map<u64, Map<u64, usize>>) -> Map<u64, Map<u64, usize>> {
    Map::new(
        |x: u64| g.contains_key(x) && has_neighbour(g, x),
        |x: u64|
            Map::new(
                |y: u64| joined(g, x, y) && (is_lightest(g, x, y) || is_lightest(g, y, x)),
                |y: u64| g[x][y],
            ),
    )
}

proof fn lemma_lightest_exists(g: Map<u64, Map<u64, usize>>, a: u64, b: u64)
    requires
        joined(g, a, b),
    ensures
        is_lightest(g, a, lightest(g, a)),
    decreases g[a][b],
{
    if exists|c: u64| #[trigger] joined(g, a, c) && g[a][c] < g[a][b] {
        let c = choose|c: u64| #[trigger] joined(g, a, c) && g[a][c] < g[a][b];
        lemma_lightest_exists(g, a, c);
    } else {
        assert(is_lightest(g, a, b));
    }
}

/// Keeping only the lightest edges a second time keeps them all.
pub proof fn lemma_lightest_edges_idempotent(g: Map<u64, Map<u64, usize>>)
    requires
        is_symmetric(g),
    ensures
        lightest_edges(lightest_edges(g)) == lightest_edges(g),
        distinct_weights(g) ==> distinct_weights(lightest_edges(g)),
{
    let t = lightest_edges(g);
    let tt = lightest_edges(t);
    assert forall|x: u64, y: u64| #[trigger] joined(t, x, y) implies joined(g, x, y) && t[x][y] == g[x][y] by {}
    assert forall|x: u64, y: u64| joined(t, x, y) implies #[trigger] is_lightest(t, x, y)
        || is_lightest(t, y, x) by {
        if is_lightest(g, x, y) {
            assert forall|c: u64| #[trigger] joined(t, x, c) implies t[x][y] <= t[x][c] by {
                assert(joined(g, x, c));
            }
        } else {
            assert(joined(g, y, x));
            assert(joined(t, y, x));
            assert forall|c: u64| #[trigger] joined(t, y, c) implies t[y][x] <= t[y][c] by {
                assert(joined(g, y, c));
            }
        }
    }
    assert forall|x: u64| #[trigger] tt.contains_key(x) <==> t.contains_key(x) by {
        if t.contains_key(x) {
            let y = choose|y: u64| #[trigger] joined(g, x, y);
            lemma_lightest_exists(g, x, y);
            assert(joined(t, x, lightest(g, x)));
        }
    }
    assert forall|x: u64| tt.contains_key(x) implies #[trigger] tt[x] == t[x] by {
        assert(tt[x] =~= t[x]);
    }
    assert(tt =~= t);
    if distinct_weights(g) {
        assert forall|a: u64, b: u64, c: u64, d: u64|
            #[trigger] joined(t, a, b) && #[trigger] joined(t, c, d) && t[a][b] == t[c][d] implies (a
            == c && b == d) || (a == d && b == c) by {
            assert(joined(g, a, b) && joined(g, c, d));
        }
    }
}

/// Every edge of `t` is an edge of `g`, with the same weight.
pub open spec fn is_subgraph(t: Map<u64, Map<u64, usize>>, g: Map<u64, Map<u64, usize>>) -> bool {
    forall|a: u64, b: u64| #[trigger] joined(t, a, b) ==> joined(g, a, b) && t[a][b] == g[a][b]
}

spec fn count_true(s: Seq<bool>) -> nat
    decreases s.len(),
{
    if s.len() == 0 {
        0
    } else {
        count_true(s.drop_last()) + if s.last() {
            1nat
        } else {
            0nat
        }
    }
}

proof fn lemma_count_true_bound(s: Seq<bool>)
    ensures
        count_true(s) <= s.len(),
        count_true(s) == s.len() ==> forall|i: int| 0 <= i < s.len() ==> #[trigger] s[i],
    decreases s.len(),
{
    if s.len() > 0 {
        lemma_count_true_bound(s.drop_last());
        assert forall|i: int| 0 <= i < s.len() && count_true(s) == s.len() implies #[trigger] s[i] by {
            if i < s.len() - 1 {
                assert(s.drop_last()[i] == s[i]);
            }
        }
    }
}

proof fn lemma_count_true_set(s: Seq<bool>, k: int)
    requires
        0 <= k < s.len(),
        !s[k],
    ensures
        count_true(s.update(k, true)) == count_true(s) + 1,
    decreases s.len(),
{
    let t = s.update(k, true);
    if k == s.len() - 1 {
        assert(t.drop_last() =~= s.drop_last());
    } else {
        assert(t.drop_last() =~= s.drop_last().update(k, true));
        lemma_count_true_set(s.drop_last(), k);
    }
}

/// Registering a node a second time changes nothing.
pub proof fn lemma_add_weighted_node_idempotent(g: Map<u64, Map<u64, usize>>, id: u64)
    ensures
        with_weighted_node(with_weighted_node(g, id), id) == with_weighted_node(g, id),
{
}

/// After an edge is written between two registered nodes, each endpoint records the
/// other with exactly that weight, and the relation stays symmetric.
pub proof fn lemma_add_edge_symmetric(g: Map<u64, Map<u64, usize>>, a: u64, b: u64, w: usize)
    requires
        g.contains_key(a),
        g.contains_key(b),
        is_symmetric(g),
    ensures
        with_weighted_edge(g, a, b, w)[a][b] == w,
        with_weighted_edge(g, a, b, w)[b][a] == w,
        is_symmetric(with_weighted_edge(g, a, b, w)),
{
    let g2 = with_weighted_edge(g, a, b, w);
    assert forall|x: u64, y: u64| #[trigger] joined(g2, x, y) implies g2.contains_key(y)
        && g2[y].contains_key(x) && g2[y][x] == g2[x][y] by {
        if !((x == a && y == b) || (x == b && y == a)) {
            assert(joined(g, x, y));
        }
    }
}

/// An edge of a weighted graph, seen from its `from` endpoint.
pub struct Edge {
    from: u64,
    to: u64,
    weight: usize,
}

impl Edge {
    pub closed spec fn source(&self) -> u64 {
        self.from
    }

    pub closed spec fn target(&self) -> u64 {
        self.to
    }

    pub closed spec fn cost(&self) -> usize {
        self.weight
    }

    pub fn new(from: u64, to: u64, weight: usize) -> (r: Self)
        ensures
            r.source() == from,
            r.target() == to,
            r.cost() == weight,
    {
        Edge { from, to, weight }
    }
}

/// A node of a weighted graph: its identity and its edges, keyed by the other endpoint.
pub struct Node {
    value: u64,
    edges: Vec<Edge>,
}

impl Node {
    pub closed spec fn id(&self) -> u64 {
        self.value
    }

    spec fn targets(&self) -> Seq<u64> {
        self.edges@.map_values(|e: Edge| e.to)
    }

    spec fn weights(&self) -> Seq<usize> {
        self.edges@.map_values(|e: Edge| e.weight)
    }

    /// The weight of the edge towards each neighbour.
    pub closed spec fn edge_map(&self) -> Map<u64, usize> {
        keyed_map(self.targets(), self.weights())
    }

    pub closed spec fn wf(&self) -> bool {
        &&& self.targets().no_duplicates()
        &&& forall|i: int| 0 <= i < self.edges@.len() ==> (#[trigger] self.edges@[i]).from == self.value
    }

    pub fn new(value: u64) -> (r: Self)
        ensures
            r.wf(),
            r.id() == value,
            r.edge_map() == Map::<u64, usize>::empty(),
    {
        let r = Node { value, edges: Vec::new() };
        assert(r.edge_map() =~= Map::<u64, usize>::empty());
        r
    }

    fn position(&self, to: u64) -> (r: Option<usize>)
        ensures
            match r {
                Some(i) => i < self.edges@.len() && self.edges@[i as int].to == to,
                None => forall|j: int| 0 <= j < self.edges@.len() ==> self.edges@[j].to != to,
            },
    {
        let mut i: usize = 0;
        while i < self.edges.len()
            invariant
                i <= self.edges@.len(),
                forall|j: int| 0 <= j < i ==> self.edges@[j].to != to,
            decreases self.edges@.len() - i,
        {
            if self.edges[i].to == to {
                return Some(i);
            }
            i = i + 1;
        }
        None
    }

    proof fn lemma_edge_at(&self, k: int)
        requires
            self.wf(),
            0 <= k < self.edges@.len(),
        ensures
            self.edge_map().contains_key(self.edges@[k].to),
            self.edge_map()[self.edges@[k].to] == self.edges@[k].weight,
            self.edges@[k].from == self.value,
    {
        lemma_keyed_map_describes(self.targets(), self.weights());
        assert(self.targets()[k] == self.edges@[k].to);
    }

    proof fn lemma_has_edges(&self, y: u64)
        requires
            self.wf(),
            self.edge_map().contains_key(y),
        ensures
            self.edges@.len() > 0,
    {
        lemma_keyed_map_describes(self.targets(), self.weights());
    }

    /// Writes `weight` as the weight of the edge towards `to`, adding the edge if absent.
    pub fn add_edge(&mut self, to: u64, weight: usize)
        requires
            old(self).wf(),
        ensures
            final(self).wf(),
            final(self).id() == old(self).id(),
            final(self).edge_map() == old(self).edge_map().insert(to, weight),
    {
        let ghost o = *self;
        let ghost m = o.edge_map().insert(to, weight);
        proof {
            lemma_keyed_map_describes(o.targets(), o.weights());
        }
        match self.position(to) {
            Some(i) => {
                self.edges[i].weight = weight;
                proof {
                    assert(o.targets()[i as int] == to);
                    assert(self.targets() =~= o.targets());
                    assert(self.weights() =~= o.weights().update(i as int, weight));
                    assert forall|k: u64| m.contains_key(k) implies self.targets().contains(k) by {
                        if k != to {
                            assert(o.targets().contains(k));
                        } else {
                            assert(self.targets()[i as int] == to);
                        }
                    }
                    assert forall|j: int| 0 <= j < self.targets().len() implies m.contains_key(
                        #[trigger] self.targets()[j],
                    ) && m[self.targets()[j]] == self.weights()[j] by {
                        if j != i {
                            assert(o.targets()[j] != to);
                        }
                    }
                }
            },
            None => {
                self.edges.push(Edge::new(self.value, to, weight));
                proof {
                    assert(self.targets() =~= o.targets().push(to));
                    assert(self.weights() =~= o.weights().push(weight));
                    assert forall|k: u64| m.contains_key(k) implies self.targets().contains(k) by {
                        if k != to {
                            let j = choose|j: int| 0 <= j < o.targets().len() && o.targets()[j] == k;
                            assert(self.targets()[j] == k);
                        } else {
                            assert(self.targets()[o.edges@.len() as int] == to);
                        }
                    }
                    assert forall|j: int| 0 <= j < self.targets().len() implies m.contains_key(
                        #[trigger] self.targets()[j],
                    ) && m[self.targets()[j]] == self.weights()[j] by {
                        if j < o.edges@.len() {
                            assert(o.targets()[j] != to);
                        }
                    }
                }
            },
        }
        proof {
            lemma_describes_keyed_map(self.targets(), self.weights(), m);
        }
    }
}

/// An undirected graph over `u64` identities whose edges carry a weight.
pub struct WeightedGraph {
    nodes: Vec<Node>,
}

impl View for WeightedGraph {
    type V = Map<u64, Map<u64, usize>>;

    closed spec fn view(&self) -> Map<u64, Map<u64, usize>> {
        keyed_map(self.ids(), self.maps())
    }
}

impl WeightedGraph {
    spec fn ids(&self) -> Seq<u64> {
        self.nodes@.map_values(|n: Node| n.value)
    }

    spec fn maps(&self) -> Seq<Map<u64, usize>> {
        self.nodes@.map_values(|n: Node| n.edge_map())
    }

    pub closed spec fn wf(&self) -> bool {
        &&& self.ids().no_duplicates()
        &&& forall|i: int| 0 <= i < self.nodes@.len() ==> (#[trigger] self.nodes@[i]).wf()
        &&& is_symmetric(self@)
    }

    proof fn lemma_view(&self)
        requires
            self.ids().no_duplicates(),
        ensures
            describes(self.ids(), self.maps(), self@),
            forall|i: int|
                0 <= i < self.nodes@.len() ==> self@.contains_key(#[trigger] self.nodes@[i].value)
                    && self@[self.nodes@[i].value] == self.nodes@[i].edge_map(),
            forall|k: u64|
                self@.contains_key(k) ==> exists|i: int|
                    0 <= i < self.nodes@.len() && #[trigger] self.nodes@[i].value == k,
    {
        lemma_keyed_map_describes(self.ids(), self.maps());
        assert forall|i: int| 0 <= i < self.nodes@.len() implies self@.contains_key(
            #[trigger] self.nodes@[i].value,
        ) && self@[self.nodes@[i].value] == self.nodes@[i].edge_map() by {
            assert(self.ids()[i] == self.nodes@[i].value);
        }
        assert forall|k: u64| self@.contains_key(k) implies exists|i: int|
            0 <= i < self.nodes@.len() && #[trigger] self.nodes@[i].value == k by {
            let i = choose|i: int| 0 <= i < self.ids().len() && self.ids()[i] == k;
            assert(self.nodes@[i].value == k);
        }
    }

    pub fn new() -> (r: Self)
        ensures
            r.wf(),
            r@ == Map::<u64, Map<u64, usize>>::empty(),
    {
        let r = WeightedGraph { nodes: Vec::new() };
        assert(r@ =~= Map::<u64, Map<u64, usize>>::empty());
        r
    }

    fn find(&self, value: u64) -> (r: Option<usize>)
        requires
            self.wf(),
        ensures
            r.is_some() == self@.contains_key(value),
            match r {
                Some(i) => i < self.nodes@.len() && self.nodes@[i as int].value == value,
                None => forall|j: int| 0 <= j < self.nodes@.len() ==> self.nodes@[j].value != value,
            },
    {
        proof {
            self.lemma_view();
        }
        let mut i: usize = 0;
        while i < self.nodes.len()
            invariant
                self.wf(),
                i <= self.nodes@.len(),
                forall|j: int| 0 <= j < i ==> self.nodes@[j].value != value,
            decreases self.nodes@.len() - i,
        {
            if self.nodes[i].value == value {
                proof {
                    self.lemma_view();
                }
                return Some(i);
            }
            i = i + 1;
        }
        proof {
            self.lemma_view();
        }
        None
    }

    pub fn is_node_exists(&self, value: u64) -> (r: bool)
        requires
            self.wf(),
        ensures
            r == self@.contains_key(value),
    {
        self.find(value).is_some()
    }

    /// The weight of the edge between `from` and `to`, if they are joined.
    pub fn edge_weight(&self, from: u64, to: u64) -> (r: Option<usize>)
        requires
            self.wf(),
        ensures
            r == (if joined(self@, from, to) {
                Some(self@[from][to])
            } else {
                None
            }),
    {
        match self.find(from) {
            Some(fi) => {
                let node = &self.nodes[fi];
                proof {
                    self.lemma_view();
                    assert(node.wf());
                    lemma_keyed_map_describes(node.targets(), node.weights());
                }
                match node.position(to) {
                    Some(k) => {
                        proof {
                            node.lemma_edge_at(k as int);
                        }
                        Some(node.edges[k].weight)
                    },
                    None => {
                        proof {
                            if node.edge_map().contains_key(to) {
                                let j = choose|j: int| 0 <= j < node.targets().len() && node.targets()[j] == to;
                                assert(node.edges@[j].to == to);
                            }
                        }
                        None
                    },
                }
            },
            None => None,
        }
    }

    pub fn is_empty(&self) -> (r: bool)
        requires
            self.wf(),
        ensures
            r == (self@.dom() == Set::<u64>::empty()),
    {
        proof {
            self.lemma_view();
            if self.nodes@.len() > 0 {
                assert(self@.contains_key(self.nodes@[0].value));
            } else {
                assert(self@.dom() =~= Set::<u64>::empty());
            }
        }
        self.nodes.len() == 0
    }

    pub fn add_node(&mut self, value: u64)
        requires
            old(self).wf(),
        ensures
            final(self).wf(),
            final(self)@ == with_weighted_node(old(self)@, value),
    {
        if self.is_node_exists(value) {
            return ;
        }
        let ghost o = *self;
        self.nodes.push(Node::new(value));
        proof {
            o.lemma_view();
            let m = o@.insert(value, Map::empty());
            assert(self.ids() =~= o.ids().push(value));
            assert(self.maps() =~= o.maps().push(Map::empty()));
            assert(self.ids().no_duplicates());
            assert forall|k: u64| m.contains_key(k) implies self.ids().contains(k) by {
                if k != value {
                    let j = choose|j: int| 0 <= j < o.nodes@.len() && o.nodes@[j].value == k;
                    assert(self.ids()[j] == k);
                } else {
                    assert(self.ids()[o.nodes@.len() as int] == k);
                }
            }
            assert forall|j: int| 0 <= j < self.ids().len() implies m.contains_key(
                #[trigger] self.ids()[j],
            ) && m[self.ids()[j]] == self.maps()[j] by {
                if j < o.nodes@.len() {
                    assert(o.ids()[j] == o.nodes@[j].value);
                }
            }
            lemma_describes_keyed_map(self.ids(), self.maps(), m);
            assert forall|a: u64, b: u64| #[trigger] joined(m, a, b) implies m.contains_key(b)
                && m[b].contains_key(a) && m[b][a] == m[a][b] by {
                assert(joined(o@, a, b));
            }
        }
    }

    /// The graph after one node's edges were replaced, all else kept.
    proof fn lemma_update_one(&self, o: Self, k: int)
        requires
            o.ids().no_duplicates(),
            forall|i: int| 0 <= i < o.nodes@.len() ==> (#[trigger] o.nodes@[i]).wf(),
            0 <= k < o.nodes@.len(),
            self.nodes@.len() == o.nodes@.len(),
            self.nodes@[k].wf(),
            self.nodes@[k].value == o.nodes@[k].value,
            forall|i: int| 0 <= i < o.nodes@.len() && i != k ==> self.nodes@[i] == o.nodes@[i],
        ensures
            self.ids().no_duplicates(),
            forall|i: int| 0 <= i < self.nodes@.len() ==> (#[trigger] self.nodes@[i]).wf(),
            self@ == o@.insert(o.nodes@[k].value, self.nodes@[k].edge_map()),
    {
        o.lemma_view();
        let m = o@.insert(o.nodes@[k].value, self.nodes@[k].edge_map());
        assert(self.ids() =~= o.ids());
        assert forall|k2: u64| m.contains_key(k2) implies self.ids().contains(k2) by {
            if k2 != o.nodes@[k].value {
                let j = choose|j: int| 0 <= j < o.nodes@.len() && o.nodes@[j].value == k2;
                assert(self.ids()[j] == k2);
            } else {
                assert(self.ids()[k] == k2);
            }
        }
        assert forall|j: int| 0 <= j < self.ids().len() implies m.contains_key(
            #[trigger] self.ids()[j],
        ) && m[self.ids()[j]] == self.maps()[j] by {
            if j != k {
                assert(o.ids()[j] != o.ids()[k]);
                assert(o.ids()[j] == o.nodes@[j].value);
            }
        }
        lemma_describes_keyed_map(self.ids(), self.maps(), m);
        assert forall|i: int| 0 <= i < self.nodes@.len() implies (#[trigger] self.nodes@[i]).wf() by {
            if i != k {
                assert(o.nodes@[i].wf());
            }
        }
    }

    /// Joins `from` and `to` with an edge of weight `weight`, replacing any earlier weight.
    pub fn add_edge(&mut self, from: u64, to: u64, weight: usize) -> (r: Result<(), GraphError>)
        requires
            old(self).wf(),
        ensures
            final(self).wf(),
            !old(self)@.contains_key(from) ==> r == Err::<(), GraphError>(
                GraphError::FromNodeNotFound,
            ),
            old(self)@.contains_key(from) && !old(self)@.contains_key(to) ==> r == Err::<
                (),
                GraphError,
            >(GraphError::ToNodeNotFound),
            r.is_ok() == (old(self)@.contains_key(from) && old(self)@.contains_key(to)),
            r.is_ok() ==> final(self)@ == with_weighted_edge(old(self)@, from, to, weight),
            r.is_ok() ==> final(self)@[from][to] == weight && final(self)@[to][from] == weight,
            r.is_err() ==> final(self)@ == old(self)@,
    {
        let fi = match self.find(from) {
            Some(fi) => fi,
            None => {
                return Err(GraphError::FromNodeNotFound);
            },
        };
        let ti = match self.find(to) {
            Some(ti) => ti,
            None => {
                return Err(GraphError::ToNodeNotFound);
            },
        };
        let ghost o = *self;
        let ghost g = o@;
        self.nodes[fi].add_edge(to, weight);
        let ghost mid = *self;
        proof {
            self.lemma_update_one(o, fi as int);
            o.lemma_view();
        }
        self.nodes[ti].add_edge(from, weight);
        proof {
            self.lemma_update_one(mid, ti as int);
            mid.lemma_view();
            assert(mid.nodes@[ti as int].value == to);
            let g1 = g.insert(from, g[from].insert(to, weight));
            let g2 = g1.insert(to, g1[to].insert(from, weight));
            assert(mid@ == g1);
            assert(self@ == g2);
            assert forall|a: u64, b: u64| #[trigger] joined(g2, a, b) implies g2.contains_key(b)
                && g2[b].contains_key(a) && g2[b][a] == g2[a][b] by {
                if !((a == from && b == to) || (a == to && b == from)) {
                    assert(joined(g, a, b));
                }
            }
        }
        Ok(())
    }
}

impl WeightedGraph {
    spec fn idx(&self, k: u64) -> int {
        choose|i: int| 0 <= i < self.nodes@.len() && self.nodes@[i].value == k
    }

    proof fn lemma_idx(&self, k: u64)
        requires
            self.wf(),
            self@.contains_key(k),
        ensures
            0 <= self.idx(k) < self.nodes@.len(),
            self.nodes@[self.idx(k)].value == k,
    {
        self.lemma_view();
    }

    proof fn lemma_idx_of(&self, i: int)
        requires
            self.wf(),
            0 <= i < self.nodes@.len(),
        ensures
            self.idx(self.nodes@[i].value) == i,
    {
        self.lemma_view();
        let k = self.nodes@[i].value;
        self.lemma_idx(k);
        let j = self.idx(k);
        assert(self.ids()[i] == k && self.ids()[j] == k);
    }

    /// The bookkeeping of the shortest-path search, with `level` the distance of the
    /// node settled last.
    spec fn search_inv(
        &self,
        fi: int,
        dist: Seq<Option<usize>>,
        pred: Seq<Option<usize>>,
        settled: Seq<bool>,
        rank: Seq<nat>,
        level: int,
        q: Seq<(usize, u64, u64)>,
    ) -> bool {
        let n = self.nodes@.len();
        let g = self@;
        &&& dist.len() == n && pred.len() == n && settled.len() == n && rank.len() == n
        &&& 0 <= fi < n
        &&& dist[fi] == Some(0usize) && pred[fi].is_none()
        &&& 0 <= level <= usize::MAX
        &&& forall|i: int|
            0 <= i < n && #[trigger] settled[i] ==> dist[i].is_some() && dist[i].unwrap() <= level
                && rank[i] < count_true(settled)
        &&& forall|k: int|
            0 <= k < q.len() ==> (#[trigger] q[k]).1 < n && dist[q[k].1 as int].is_some() && dist[q[k].1 as int].unwrap()
                <= q[k].0 && level <= q[k].0
        &&& forall|i: int|
            0 <= i < n && !settled[i] && (#[trigger] dist[i]).is_some() ==> exists|k: int|
                0 <= k < q.len() && q[k].1 == i && q[k].0 == dist[i].unwrap()
        &&& forall|i: int| 0 <= i < n && (#[trigger] dist[i]).is_none() ==> pred[i].is_none()
        &&& forall|i: int|
            0 <= i < n && i != fi && (#[trigger] dist[i]).is_some() ==> {
                &&& pred[i].is_some()
                &&& pred[i].unwrap() < n
                &&& settled[pred[i].unwrap() as int]
                &&& joined(g, self.nodes@[pred[i].unwrap() as int].value, self.nodes@[i].value)
                &&& dist[i].unwrap() == capped(
                    dist[pred[i].unwrap() as int].unwrap() + g[self.nodes@[pred[i].unwrap() as int].value][self.nodes@[i].value],
                )
                &&& settled[i] ==> rank[pred[i].unwrap() as int] < rank[i]
            }
    }

    /// Every neighbour of `u` has a distance no larger than through `u`.
    spec fn relaxed(&self, dist: Seq<Option<usize>>, u: int) -> bool {
        let g = self@;
        forall|v: int|
            0 <= v < self.nodes@.len() && #[trigger] joined(g, self.nodes@[u].value, self.nodes@[v].value)
                ==> dist[v].is_some() && dist[v].unwrap() <= capped(
                dist[u].unwrap() + g[self.nodes@[u].value][self.nodes@[v].value],
            )
    }

    /// The identities met by following predecessors back from `x`, in path order.
    spec fn pred_chain(&self, pred: Seq<Option<usize>>, rank: Seq<nat>, x: int) -> Seq<u64>
        decreases rank[x],
    {
        match pred[x] {
            Some(p) => if 0 <= p < rank.len() && rank[p as int] < rank[x] {
                self.pred_chain(pred, rank, p as int).push(self.nodes@[x].value)
            } else {
                seq![self.nodes@[x].value]
            },
            None => seq![self.nodes@[x].value],
        }
    }

    proof fn lemma_pred_chain(
        &self,
        fi: int,
        dist: Seq<Option<usize>>,
        pred: Seq<Option<usize>>,
        settled: Seq<bool>,
        rank: Seq<nat>,
        level: int,
        q: Seq<(usize, u64, u64)>,
        x: int,
    )
        requires
            self.wf(),
            self.search_inv(fi, dist, pred, settled, rank, level, q),
            0 <= x < self.nodes@.len(),
            settled[x],
        ensures
            connects(self@, self.pred_chain(pred, rank, x), self.nodes@[fi].value, self.nodes@[x].value),
            path_weight(self@, self.pred_chain(pred, rank, x)) == dist[x].unwrap(),
        decreases rank[x],
    {
        let g = self@;
        self.lemma_view();
        if x != fi {
            let p = pred[x].unwrap() as int;
            self.lemma_pred_chain(fi, dist, pred, settled, rank, level, q, p);
            let c = self.pred_chain(pred, rank, p);
            let c2 = c.push(self.nodes@[x].value);
            assert(self.pred_chain(pred, rank, x) == c2);
            assert(c2.drop_last() =~= c);
            assert forall|i: int| 0 <= i < c2.len() - 1 implies #[trigger] joined(g, c2[i], c2[i + 1]) by {
                if i < c.len() - 1 {
                    assert(joined(g, c[i], c[i + 1]));
                }
            }
            assert forall|i: int| 0 <= i < c2.len() implies g.contains_key(#[trigger] c2[i]) by {
                if i < c.len() {
                    assert(g.contains_key(c[i]));
                }
            }
        }
    }

    proof fn lemma_no_shorter(
        &self,
        fi: int,
        dist: Seq<Option<usize>>,
        path: Seq<u64>,
        i: int,
    )
        requires
            self.wf(),
            0 <= fi < self.nodes@.len(),
            dist.len() == self.nodes@.len(),
            dist[fi] == Some(0usize),
            forall|u: int| 0 <= u < self.nodes@.len() && (#[trigger] dist[u]).is_some() ==> self.relaxed(dist, u),
            is_path(self@, path),
            path[0] == self.nodes@[fi].value,
            0 <= i < path.len(),
        ensures
            dist[self.idx(path[i])].is_some(),
            dist[self.idx(path[i])].unwrap() <= path_weight(self@, path.subrange(0, i + 1)),
        decreases i,
    {
        let g = self@;
        self.lemma_idx(path[i]);
        if i == 0 {
            self.lemma_idx_of(fi);
        } else {
            self.lemma_no_shorter(fi, dist, path, i - 1);
            let u = self.idx(path[i - 1]);
            let v = self.idx(path[i]);
            self.lemma_idx(path[i - 1]);
            assert(joined(g, path[i - 1], path[i]));
            assert(self.relaxed(dist, u));
            assert(joined(g, self.nodes@[u].value, self.nodes@[v].value));
            let s = path.subrange(0, i + 1);
            assert(s.drop_last() =~= path.subrange(0, i));
        }
    }

    fn construct_path(
        &self,
        to: usize,
        pred: &Vec<Option<usize>>,
        Ghost(fi): Ghost<int>,
        Ghost(dist): Ghost<Seq<Option<usize>>>,
        Ghost(settled): Ghost<Seq<bool>>,
        Ghost(rank): Ghost<Seq<nat>>,
        Ghost(level): Ghost<int>,
        Ghost(q): Ghost<Seq<(usize, u64, u64)>>,
    ) -> (r: Vec<u64>)
        requires
            self.wf(),
            self.search_inv(fi, dist, pred@, settled, rank, level, q),
            to < self.nodes@.len(),
            dist[to as int].is_some() ==> settled[to as int],
        ensures
            r@ == self.pred_chain(pred@, rank, to as int),
    {
        let ghost n = self.nodes@.len();
        proof {
            assert forall|x: int|
                0 <= x < n && #[trigger] settled[x] && pred@[x].is_some() implies pred@[x].unwrap() < n
                && settled[pred@[x].unwrap() as int] && rank[pred@[x].unwrap() as int] < rank[x] by {
                assert(dist[x].is_some());
            }
        }
        let mut result: Vec<u64> = Vec::new();
        let mut current: Option<usize> = Some(to);
        while current.is_some()
            invariant
                n == self.nodes@.len(),
                pred@.len() == n,
                rank.len() == n,
                settled.len() == n,
                forall|x: int|
                    0 <= x < n && #[trigger] settled[x] && pred@[x].is_some() ==> pred@[x].unwrap() < n
                        && settled[pred@[x].unwrap() as int] && rank[pred@[x].unwrap() as int] < rank[x],
                match current {
                    Some(c) => c < n && (settled[c as int] || pred@[c as int].is_none())
                        && self.pred_chain(pred@, rank, c as int) + result@.reverse()
                        == self.pred_chain(pred@, rank, to as int),
                    None => result@.reverse() == self.pred_chain(pred@, rank, to as int),
                },
            decreases match current {
                Some(c) => rank[c as int] + 1,
                None => 0,
            },
        {
            let c = current.unwrap();
            let ghost before = result@;
            result.push(self.nodes[c].value);
            proof {
                assert(result@.reverse() =~= seq![self.nodes@[c as int].value] + before.reverse());
            }
            current = pred[c];
            proof {
                match current {
                    Some(p) => {
                        assert(settled[c as int]);
                        assert(self.pred_chain(pred@, rank, c as int) == self.pred_chain(
                            pred@,
                            rank,
                            p as int,
                        ).push(self.nodes@[c as int].value));
                        assert(self.pred_chain(pred@, rank, p as int) + result@.reverse() =~= self.pred_chain(
                            pred@,
                            rank,
                            c as int,
                        ) + before.reverse());
                    },
                    None => {
                        assert(result@.reverse() =~= self.pred_chain(pred@, rank, c as int)
                            + before.reverse());
                    },
                }
            }
        }
        let mut reversed: Vec<u64> = Vec::new();
        let mut k: usize = result.len();
        while k > 0
            invariant
                k <= result@.len(),
                reversed@ =~= result@.reverse().subrange(0, (result@.len() - k) as int),
            decreases k,
        {
            k = k - 1;
            reversed.push(result[k]);
        }
        proof {
            assert(result@.reverse().subrange(0, result@.len() as int) =~= result@.reverse());
        }
        reversed
    }

    /// Offers `vi` the distance through the settled node `u`, keeping the search's bookkeeping.
    fn relax_edge(
        &self,
        u: usize,
        vi: usize,
        du: usize,
        weight: usize,
        dist: &mut Vec<Option<usize>>,
        pred: &mut Vec<Option<usize>>,
        queue: &mut MinQueue,
        settled: &Vec<bool>,
        Ghost(fi): Ghost<int>,
        Ghost(rank): Ghost<Seq<nat>>,
    )
        requires
            self.wf(),
            u < self.nodes@.len(),
            vi < self.nodes@.len(),
            settled@[u as int],
            old(dist)@[u as int] == Some(du),
            joined(self@, self.nodes@[u as int].value, self.nodes@[vi as int].value),
            self@[self.nodes@[u as int].value][self.nodes@[vi as int].value] == weight,
            self.search_inv(fi, old(dist)@, old(pred)@, settled@, rank, du as int, old(queue)@),
            forall|v: int|
                0 <= v < self.nodes@.len() && #[trigger] settled@[v] && v != u ==> self.relaxed(
                    old(dist)@,
                    v,
                ),
        ensures
            self.search_inv(fi, final(dist)@, final(pred)@, settled@, rank, du as int, final(queue)@),
            forall|v: int|
                0 <= v < self.nodes@.len() && #[trigger] settled@[v] && v != u ==> self.relaxed(
                    final(dist)@,
                    v,
                ),
            final(dist)@[u as int] == Some(du),
            final(dist)@[vi as int].is_some(),
            final(dist)@[vi as int].unwrap() <= capped(du + weight),
            forall|v: int|
                0 <= v < self.nodes@.len() && (#[trigger] old(dist)@[v]).is_some() ==> final(dist)@[v].is_some()
                    && final(dist)@[v].unwrap() <= old(dist)@[v].unwrap(),
    {
        let ghost g = self@;
        let ghost n = self.nodes@.len();
        let ghost level = du as int;
        let ghost d0 = dist@;
        let ghost p0 = pred@;
        let ghost qa = queue@;
        if settled[vi] {
            return ;
        }
        let proposed = du.saturating_add(weight);
        let better = match dist[vi] {
            None => true,
            Some(current) => proposed < current,
        };
        if !better {
            return ;
        }
        dist.set(vi, Some(proposed));
        pred.set(vi, Some(u));
        queue.push(proposed, vi as u64, 0);
        proof {
            assert(vi != fi);
            assert(vi != u);
            assert(queue@.last().1 == vi);
            assert forall|j: int| 0 <= j < queue@.len() implies (#[trigger] queue@[j]).1 < n
                && dist@[queue@[j].1 as int].is_some() && dist@[queue@[j].1 as int].unwrap()
                <= queue@[j].0 && level <= queue@[j].0 by {
                if j < qa.len() {
                    assert(queue@[j] == qa[j]);
                }
            }
            assert forall|j: int|
                0 <= j < n && !settled@[j] && (#[trigger] dist@[j]).is_some() implies exists|m: int|
                0 <= m < queue@.len() && queue@[m].1 == j && queue@[m].0 == dist@[j].unwrap() by {
                if j != vi {
                    let m = choose|m: int|
                        0 <= m < qa.len() && qa[m].1 == j && qa[m].0 == d0[j].unwrap();
                    assert(queue@[m] == qa[m]);
                } else {
                    assert(queue@[qa.len() as int].1 == j);
                }
            }
            assert forall|j: int|
                0 <= j < n && j != fi && (#[trigger] dist@[j]).is_some() implies {
                    &&& pred@[j].is_some()
                    &&& pred@[j].unwrap() < n
                    &&& settled@[pred@[j].unwrap() as int]
                    &&& joined(g, self.nodes@[pred@[j].unwrap() as int].value, self.nodes@[j].value)
                    &&& dist@[j].unwrap() == capped(
                        dist@[pred@[j].unwrap() as int].unwrap() + g[self.nodes@[pred@[j].unwrap() as int].value][self.nodes@[j].value],
                    )
                    &&& settled@[j] ==> rank[pred@[j].unwrap() as int] < rank[j]
                } by {
                if j != vi {
                    assert(d0[j].is_some());
                    assert(p0[j].unwrap() != vi);
                }
            }
            assert forall|w: int| 0 <= w < n && #[trigger] settled@[w] && w != u implies self.relaxed(dist@, w) by {
                assert(self.relaxed(d0, w));
                assert forall|v: int|
                    0 <= v < n && #[trigger] joined(g, self.nodes@[w].value, self.nodes@[v].value)
                    implies dist@[v].is_some() && dist@[v].unwrap() <= capped(
                    dist@[w].unwrap() + g[self.nodes@[w].value][self.nodes@[v].value],
                ) by {
                    assert(w != vi);
                }
            }
            assert(self.search_inv(fi, dist@, pred@, settled@, rank, level, queue@));
        }
    }

    /// The lightest path from `from` to `to`, found by a search that settles nodes in
    /// order of distance; when `to` cannot be reached the result is `[to]` alone.
    /// Weights are summed with clipping at the largest `usize`.
    pub fn shortest_path(&self, from: u64, to: u64) -> (r: Result<Vec<u64>, GraphError>)
        requires
            self.wf(),
        ensures
            !self@.contains_key(from) ==> r == Err::<Vec<u64>, GraphError>(
                GraphError::FromNodeNotFound,
            ),
            self@.contains_key(from) && !self@.contains_key(to) ==> r == Err::<
                Vec<u64>,
                GraphError,
            >(GraphError::ToNodeNotFound),
            r.is_ok() == (self@.contains_key(from) && self@.contains_key(to)),
            r.is_ok() && reachable(self@, from, to) ==> connects(self@, r.unwrap()@, from, to),
            r.is_ok() && reachable(self@, from, to) ==> forall|q: Seq<u64>|
                #[trigger] connects(self@, q, from, to) ==> path_weight(self@, r.unwrap()@)
                    <= path_weight(self@, q),
            r.is_ok() && !reachable(self@, from, to) ==> r.unwrap()@ == seq![to],
    {
        let fi = match self.find(from) {
            Some(fi) => fi,
            None => {
                return Err(GraphError::FromNodeNotFound);
            },
        };
        let ti = match self.find(to) {
            Some(ti) => ti,
            None => {
                return Err(GraphError::ToNodeNotFound);
            },
        };
        let ghost g = self@;
        let n = self.nodes.len();
        let mut dist: Vec<Option<usize>> = Vec::new();
        let mut pred: Vec<Option<usize>> = Vec::new();
        let mut settled: Vec<bool> = Vec::new();
        let ghost mut rank: Seq<nat> = Seq::empty();
        let mut i: usize = 0;
        while i < n
            invariant
                n == self.nodes@.len(),
                i <= n,
                dist@.len() == i && pred@.len() == i && settled@.len() == i && rank.len() == i,
                forall|j: int| 0 <= j < i ==> (#[trigger] dist@[j]).is_none(),
                forall|j: int| 0 <= j < i ==> (#[trigger] pred@[j]).is_none(),
                forall|j: int| 0 <= j < i ==> !#[trigger] settled@[j],
            decreases n - i,
        {
            dist.push(None);
            pred.push(None);
            settled.push(false);
            proof {
                rank = rank.push(0);
            }
            i = i + 1;
        }
        let mut queue = MinQueue::new();
        dist.set(fi, Some(0));
        queue.push(0, fi as u64, 0);
        let ghost mut level: int = 0;
        proof {
            lemma_count_zero(settled@);
            assert(queue@[0].1 == fi);
            assert(self.search_inv(fi as int, dist@, pred@, settled@, rank, level, queue@));
        }
        while queue.len() > 0
            invariant
                self.wf(),
                g == self@,
                n == self.nodes@.len(),
                self.search_inv(fi as int, dist@, pred@, settled@, rank, level, queue@),
                forall|u: int| 0 <= u < n && #[trigger] settled@[u] ==> self.relaxed(dist@, u),
            decreases n - count_true(settled@), queue@.len(),
        {
            proof {
                lemma_count_true_bound(settled@);
            }
            let ghost q0 = queue@;
            let idx = queue.min_index();
            let (d, x, _) = queue.take(idx);
            let u = x as usize;
            proof {
                assert(q0[idx as int].1 < n);
                assert forall|k: int| 0 <= k < queue@.len() implies #[trigger] queue@[k] == if k < idx {
                    q0[k]
                } else {
                    q0[k + 1]
                } by {}
            }
            if settled[u] {
                proof {
                    assert forall|j: int|
                        0 <= j < n && !settled@[j] && (#[trigger] dist@[j]).is_some() implies exists|k: int|
                        0 <= k < queue@.len() && queue@[k].1 == j && queue@[k].0 == dist@[j].unwrap() by {
                        let k = choose|k: int|
                            0 <= k < q0.len() && q0[k].1 == j && q0[k].0 == dist@[j].unwrap();
                        if k < idx {
                            assert(queue@[k] == q0[k]);
                        } else {
                            assert(k != idx);
                            assert(queue@[k - 1] == q0[k]);
                        }
                    }
                    assert forall|k: int| 0 <= k < queue@.len() implies (#[trigger] queue@[k]).1 < n
                        && dist@[queue@[k].1 as int].is_some() && dist@[queue@[k].1 as int].unwrap()
                        <= queue@[k].0 && level <= queue@[k].0 by {
                        if k < idx {
                            assert(queue@[k] == q0[k]);
                        } else {
                            assert(queue@[k] == q0[k + 1]);
                        }
                    }
                }
                continue;
            }
            let du = dist[u].unwrap();
            proof {
                let k = choose|k: int| 0 <= k < q0.len() && q0[k].1 == u && q0[k].0 == dist@[u as int].unwrap();
                assert(q0[idx as int].0 <= q0[k].0);
                assert(du == d);
                lemma_count_true_set(settled@, u as int);
                rank = rank.update(u as int, count_true(settled@));
                level = d as int;
            }
            let ghost s0 = settled@;
            settled.set(u, true);
            proof {
                assert forall|j: int|
                    0 <= j < n && #[trigger] settled@[j] implies dist@[j].is_some() && dist@[j].unwrap()
                    <= level && rank[j] < count_true(settled@) by {
                    if j != u {
                        assert(s0[j]);
                        assert(q0[idx as int].0 >= dist@[j].unwrap());
                    }
                }
                assert forall|k: int| 0 <= k < queue@.len() implies (#[trigger] queue@[k]).1 < n
                    && dist@[queue@[k].1 as int].is_some() && dist@[queue@[k].1 as int].unwrap()
                    <= queue@[k].0 && level <= queue@[k].0 by {
                    if k < idx {
                        assert(queue@[k] == q0[k]);
                    } else {
                        assert(queue@[k] == q0[k + 1]);
                    }
                }
                assert forall|j: int|
                    0 <= j < n && !settled@[j] && (#[trigger] dist@[j]).is_some() implies exists|k: int|
                    0 <= k < queue@.len() && queue@[k].1 == j && queue@[k].0 == dist@[j].unwrap() by {
                    assert(!s0[j]);
                    let k = choose|k: int|
                        0 <= k < q0.len() && q0[k].1 == j && q0[k].0 == dist@[j].unwrap();
                    if k < idx {
                        assert(queue@[k] == q0[k]);
                    } else {
                        assert(k != idx);
                        assert(queue@[k - 1] == q0[k]);
                    }
                }
                assert forall|j: int|
                    0 <= j < n && j != fi && (#[trigger] dist@[j]).is_some() && settled@[j] implies
                    rank[pred@[j].unwrap() as int] < rank[j] by {
                    if j == u {
                        assert(s0[pred@[j].unwrap() as int]);
                    }
                }
                assert forall|v: int| 0 <= v < n && #[trigger] settled@[v] && v != u implies self.relaxed(dist@, v) by {
                    assert(s0[v]);
                }
                assert(self.search_inv(fi as int, dist@, pred@, settled@, rank, level, queue@));
            }
            let node = &self.nodes[u];
            let mut k: usize = 0;
            while k < node.edges.len()
                invariant
                    self.wf(),
                    g == self@,
                    n == self.nodes@.len(),
                    u < n,
                    *node == self.nodes@[u as int],
                    k <= node.edges@.len(),
                    settled@[u as int],
                    dist@[u as int] == Some(du),
                    level == du,
                    self.search_inv(fi as int, dist@, pred@, settled@, rank, level, queue@),
                    forall|v: int| 0 <= v < n && #[trigger] settled@[v] && v != u ==> self.relaxed(dist@, v),
                    forall|v: int|
                        0 <= v < n && #[trigger] joined(g, node.value, self.nodes@[v].value) && (exists|j: int|
                            0 <= j < k && node.edges@[j].to == self.nodes@[v].value) ==> dist@[v].is_some()
                            && dist@[v].unwrap() <= capped(du + g[node.value][self.nodes@[v].value]),
                decreases node.edges@.len() - k,
            {
                let edge = &node.edges[k];
                proof {
                    assert(self.nodes@[u as int].wf());
                    node.lemma_edge_at(k as int);
                    self.lemma_view();
                    assert(joined(g, node.value, edge.to));
                }
                let vi = match self.find(edge.to) {
                    Some(vi) => vi,
                    None => {
                        proof {
                            assert(false);
                        }
                        return Err(GraphError::ToNodeNotFound);
                    },
                };
                let ghost d0 = dist@;
                let ghost kk = k as int;
                self.relax_edge(
                    u,
                    vi,
                    du,
                    edge.weight,
                    &mut dist,
                    &mut pred,
                    &mut queue,
                    &settled,
                    Ghost(fi as int),
                    Ghost(rank),
                );
                proof {
                    assert forall|v: int|
                        0 <= v < n && #[trigger] joined(g, node.value, self.nodes@[v].value) && (exists|j: int|
                            0 <= j < kk + 1 && node.edges@[j].to == self.nodes@[v].value) implies dist@[v].is_some()
                        && dist@[v].unwrap() <= capped(du + g[node.value][self.nodes@[v].value]) by {
                        let j = choose|j: int| 0 <= j < kk + 1 && node.edges@[j].to == self.nodes@[v].value;
                        if j == kk {
                            self.lemma_idx_of(v);
                            self.lemma_idx_of(vi as int);
                            assert(v == vi);
                        } else {
                            assert(d0[v].is_some());
                            assert(d0[v].unwrap() <= capped(du + g[node.value][self.nodes@[v].value]));
                        }
                    }
                }
                k = k + 1;
            }
            proof {
                assert(self.nodes@[u as int].wf());
                lemma_keyed_map_describes(node.targets(), node.weights());
                self.lemma_view();
                assert forall|v: int|
                    0 <= v < n && #[trigger] joined(g, self.nodes@[u as int].value, self.nodes@[v].value)
                    implies dist@[v].is_some() && dist@[v].unwrap() <= capped(
                    dist@[u as int].unwrap() + g[self.nodes@[u as int].value][self.nodes@[v].value],
                ) by {
                    let j = choose|j: int| 0 <= j < node.targets().len() && node.targets()[j] == self.nodes@[v].value;
                    assert(node.edges@[j].to == self.nodes@[v].value);
                }
                assert(self.relaxed(dist@, u as int));
            }
        }
        proof {
            assert forall|j: int| 0 <= j < n && (#[trigger] dist@[j]).is_some() implies settled@[j] by {
                if !settled@[j] {
                    let k = choose|k: int| 0 <= k < queue@.len() && queue@[k].1 == j && queue@[k].0 == dist@[j].unwrap();
                }
            }
        }
        let path = self.construct_path(
            ti,
            &pred,
            Ghost(fi as int),
            Ghost(dist@),
            Ghost(settled@),
            Ghost(rank),
            Ghost(level),
            Ghost(queue@),
        );
        proof {
            self.lemma_view();
            if dist@[ti as int].is_some() {
                self.lemma_pred_chain(fi as int, dist@, pred@, settled@, rank, level, queue@, ti as int);
                assert(connects(g, path@, from, to));
                assert forall|q: Seq<u64>| #[trigger] connects(g, q, from, to) implies path_weight(
                    g,
                    path@,
                ) <= path_weight(g, q) by {
                    self.lemma_no_shorter(fi as int, dist@, q, q.len() - 1);
                    self.lemma_idx_of(ti as int);
                    assert(q.subrange(0, q.len() as int) =~= q);
                }
            } else {
                assert(path@ =~= seq![to]);
                if reachable(g, from, to) {
                    let q = choose|q: Seq<u64>| #[trigger] connects(g, q, from, to);
                    self.lemma_no_shorter(fi as int, dist@, q, q.len() - 1);
                    self.lemma_idx_of(ti as int);
                }
            }
        }
        Ok(path)
    }

    spec fn nid(&self, i: int) -> u64 {
        self.nodes@[i].value
    }

    /// The state of the undirected traversal: `stack` holds the nodes in progress from
    /// the root down, `tp` the node each visited node was reached from (or -1), `rank`
    /// the order of the visits; every finished node is joined only to tree neighbours.
    spec fn ucycle_inv(
        &self,
        visited: Seq<bool>,
        stack: Seq<int>,
        tp: Seq<int>,
        rank: Seq<nat>,
        next: nat,
    ) -> bool {
        let n = self.nodes@.len();
        let g = self@;
        &&& visited.len() == n && tp.len() == n && rank.len() == n
        &&& stack.no_duplicates()
        &&& forall|k: int| 0 <= k < stack.len() ==> 0 <= #[trigger] stack[k] < n && visited[stack[k]]
        &&& forall|k: int| 1 <= k < stack.len() ==> tp[#[trigger] stack[k]] == stack[k - 1]
        &&& stack.len() > 0 ==> tp[stack[0]] == -1
        &&& forall|i: int| 0 <= i < n && !#[trigger] visited[i] ==> tp[i] == -1
        &&& forall|i: int| 0 <= i < n && #[trigger] visited[i] ==> rank[i] < next
        &&& forall|i: int|
            0 <= i < n && #[trigger] visited[i] && tp[i] != -1 ==> 0 <= tp[i] < n && visited[tp[i]]
                && rank[tp[i]] < rank[i] && joined(g, self.nid(tp[i]), self.nid(i))
        &&& forall|u: int, v: int|
            0 <= u < n && 0 <= v < n && visited[u] && !stack.contains(u) && #[trigger] joined(
                g,
                self.nid(u),
                self.nid(v),
            ) ==> v == tp[u] || tp[v] == u
    }

    #[verifier::rlimit(100)]
    proof fn lemma_stack_cycle(
        &self,
        visited: Seq<bool>,
        stack: Seq<int>,
        tp: Seq<int>,
        rank: Seq<nat>,
        next: nat,
        current: int,
    )
        requires
            self.wf(),
            self.ucycle_inv(visited, stack, tp, rank, next),
            0 <= current < self.nodes@.len(),
            stack.len() > 0,
            stack.contains(current),
            joined(self@, self.nid(stack.last()), self.nid(current)),
            current != tp[stack.last()],
        ensures
            has_undirected_cycle(self@),
    {
        let g = self@;
        let x = stack.last();
        self.lemma_view();
        if current == x {
            assert(joined(g, self.nid(x), self.nid(x)));
        } else {
            let j = choose|j: int| 0 <= j < stack.len() && stack[j] == current;
            let m = stack.len() as int;
            let seg = stack.subrange(j, m);
            let p = seg.map_values(|i: int| self.nid(i));
            if m - j == 2 {
                assert(tp[stack[m - 1]] == stack[m - 2]);
            }
            assert(p.len() >= 3);
            assert forall|a: int, b: int| 0 <= a < p.len() && 0 <= b < p.len() && a != b implies p[a]
                != p[b] by {
                assert(stack[j + a] != stack[j + b]);
                assert(self.ids()[stack[j + a]] == p[a]);
                assert(self.ids()[stack[j + b]] == p[b]);
            }
            assert forall|i: int| 0 <= i < p.len() implies g.contains_key(#[trigger] p[i]) by {
                assert(0 <= stack[j + i] < self.nodes@.len());
            }
            assert forall|i: int| 0 <= i < p.len() - 1 implies #[trigger] joined(g, p[i], p[i + 1]) by {
                let c = stack[j + i + 1];
                assert(tp[c] == stack[j + i]);
                assert(visited[c]);
            }
            assert(is_path(g, p));
            assert(joined(g, p.last(), p[0]));
        }
    }

    proof fn lemma_forest_is_acyclic(
        &self,
        visited: Seq<bool>,
        tp: Seq<int>,
        rank: Seq<nat>,
        next: nat,
    )
        requires
            self.wf(),
            self.ucycle_inv(visited, Seq::empty(), tp, rank, next),
            forall|i: int| 0 <= i < self.nodes@.len() ==> #[trigger] visited[i],
        ensures
            !has_undirected_cycle(self@),
    {
        let g = self@;
        self.lemma_view();
        let n = self.nodes@.len();
        assert forall|a: u64| !#[trigger] joined(g, a, a) by {
            if joined(g, a, a) {
                self.lemma_idx(a);
                let u = self.idx(a);
                assert(joined(g, self.nid(u), self.nid(u)));
                assert(visited[u]);
            }
        }
        if exists|p: Seq<u64>|
            #![trigger is_path(g, p)]
            p.len() >= 3 && p.no_duplicates() && is_path(g, p) && joined(g, p.last(), p[0]) {
            let p = choose|p: Seq<u64>|
                #![trigger is_path(g, p)]
                p.len() >= 3 && p.no_duplicates() && is_path(g, p) && joined(g, p.last(), p[0]);
            let len = p.len() as int;
            let q = p.map_values(|k: u64| self.idx(k));
            assert forall|i: int| 0 <= i < len implies 0 <= #[trigger] q[i] < n && self.nid(q[i]) == p[i] by {
                assert(g.contains_key(p[i]));
                self.lemma_idx(p[i]);
            }
            let rs = q.map_values(|i: int| rank[i]);
            let m = lemma_argmax(rs);
            let prev = if m == 0 { len - 1 } else { m - 1 };
            let nxt = if m == len - 1 { 0 } else { m + 1 };
            assert(prev != nxt);
            if m == 0 {
                assert(joined(g, p[len - 1], p[0]));
            } else {
                assert(joined(g, p[m - 1], p[(m - 1) + 1]));
            }
            if m == len - 1 {
                assert(joined(g, p.last(), p[0]));
            } else {
                assert(joined(g, p[m], p[m + 1]));
            }
            assert(joined(g, p[prev], p[m]));
            assert(joined(g, p[m], p[nxt]));
            assert(joined(g, p[m], p[prev]));
            let u = q[m];
            assert(q[prev] != u && q[nxt] != u);
            assert(joined(g, self.nid(u), self.nid(q[nxt])));
            assert(joined(g, self.nid(u), self.nid(q[prev])));
            assert(visited[u] && visited[q[nxt]] && visited[q[prev]]);
            assert(rs[nxt] <= rs[m] && rs[prev] <= rs[m]);
            assert(q[nxt] == tp[u]);
            assert(q[prev] == tp[u]);
            assert(p[prev] == p[nxt]);
        }
    }

    fn is_cycle_detected(
        &self,
        current: usize,
        parent: Option<usize>,
        visited: &mut Vec<bool>,
        Ghost(stack): Ghost<Seq<int>>,
        Ghost(tp): Ghost<Seq<int>>,
        Ghost(rank): Ghost<Seq<nat>>,
        Ghost(next): Ghost<nat>,
    ) -> (r: (bool, Ghost<Seq<int>>, Ghost<Seq<nat>>, Ghost<nat>))
        requires
            self.wf(),
            current < self.nodes@.len(),
            self.ucycle_inv(old(visited)@, stack, tp, rank, next),
            match parent {
                Some(x) => stack.len() > 0 && stack.last() == x && joined(
                    self@,
                    self.nid(x as int),
                    self.nid(current as int),
                ) && current != tp[x as int] && tp[current as int] != x,
                None => stack.len() == 0 && !old(visited)@[current as int],
            },
        ensures
            r.0 ==> has_undirected_cycle(self@),
            !r.0 ==> {
                &&& self.ucycle_inv(final(visited)@, stack, r.1@, r.2@, r.3@)
                &&& final(visited)@[current as int]
                &&& next <= r.3@
                &&& r.1@[current as int] == match parent {
                    Some(x) => x as int,
                    None => -1,
                }
                &&& forall|i: int|
                    0 <= i < old(visited)@.len() && #[trigger] old(visited)@[i] ==> final(visited)@[i]
                        && r.1@[i] == tp[i] && r.2@[i] == rank[i]
                &&& forall|i: int|
                    0 <= i < old(visited)@.len() && !old(visited)@[i] && #[trigger] final(visited)@[i] && i
                        != current ==> 0 <= r.1@[i] < old(visited)@.len() && !old(visited)@[r.1@[i]]
            },
        decreases old(visited)@.len() - count_true(old(visited)@),
    {
        let ghost g = self@;
        let ghost n = self.nodes@.len() as int;
        proof {
            self.lemma_view();
            lemma_count_true_bound(visited@);
        }
        if visited[current] {
            proof {
                if stack.contains(current as int) {
                    self.lemma_stack_cycle(visited@, stack, tp, rank, next, current as int);
                } else {
                    let x = parent.unwrap() as int;
                    assert(joined(g, self.nid(current as int), self.nid(x)));
                    if stack.len() >= 2 {
                        assert(tp[stack[stack.len() - 1]] == stack[stack.len() - 2]);
                    }
                }
            }
            return (true, Ghost(tp), Ghost(rank), Ghost(next));
        }
        let ghost v0 = visited@;
        visited.set(current, true);
        proof {
            lemma_count_true_set(v0, current as int);
        }
        let ghost pv: int = match parent {
            Some(x) => x as int,
            None => -1,
        };
        let ghost stack2 = stack.push(current as int);
        let ghost mut tp2 = tp.update(current as int, pv);
        let ghost mut rank2 = rank.update(current as int, next);
        let ghost mut next2 = next + 1;
        proof {
            assert(!stack.contains(current as int));
            assert forall|y: int| #[trigger] stack2.contains(y) <==> stack.contains(y) || y == current by {
                if stack.contains(y) {
                    let k = choose|k: int| 0 <= k < stack.len() && stack[k] == y;
                    assert(stack2[k] == y);
                }
                if stack2.contains(y) && y != current {
                    let k = choose|k: int| 0 <= k < stack2.len() && stack2[k] == y;
                    assert(stack[k] == y);
                }
                if y == current {
                    assert(stack2[stack.len() as int] == y);
                }
            }
            assert forall|k: int| 1 <= k < stack2.len() implies tp2[#[trigger] stack2[k]] == stack2[k - 1] by {
                if k < stack.len() {
                    assert(stack[k] != current);
                }
            }
            assert(stack.len() > 0 ==> stack[0] != current);
            assert forall|i: int|
                0 <= i < n && #[trigger] visited@[i] && tp2[i] != -1 implies 0 <= tp2[i] < n && visited@[tp2[i]]
                && rank2[tp2[i]] < rank2[i] && joined(g, self.nid(tp2[i]), self.nid(i)) by {
                if i == current {
                    let x = parent.unwrap() as int;
                    assert(x == stack.last());
                    assert(visited@[x]);
                    assert(x != current);
                } else {
                    assert(v0[i]);
                    assert(tp[i] != current);
                }
            }
            assert forall|u: int, v: int|
                0 <= u < n && 0 <= v < n && visited@[u] && !stack2.contains(u) && #[trigger] joined(
                    g,
                    self.nid(u),
                    self.nid(v),
                ) implies v == tp2[u] || tp2[v] == u by {
                assert(u != current);
                assert(v0[u] && !stack.contains(u));
                if v == current {
                    assert(tp[v] == -1);
                }
            }
            assert(stack2.no_duplicates());
            assert(self.ucycle_inv(visited@, stack2, tp2, rank2, next2));
            assert forall|c: int| 0 <= c < n implies #[trigger] tp2[c] != current by {
                if c != current && tp[c] != -1 {
                    assert(v0[c]);
                    assert(v0[tp[c]]);
                }
            }
        }
        let node = &self.nodes[current];
        let mut k: usize = 0;
        while k < node.edges.len()
            invariant
                self.wf(),
                g == self@,
                n == self.nodes@.len(),
                current < n,
                *node == self.nodes@[current as int],
                k <= node.edges@.len(),
                stack2 == stack.push(current as int),
                !stack.contains(current as int),
                self.ucycle_inv(visited@, stack2, tp2, rank2, next2),
                visited@[current as int],
                tp2[current as int] == pv,
                pv == match parent {
                    Some(x) => x as int,
                    None => -1,
                },
                next < next2,
                v0 == old(visited)@,
                v0.len() == n,
                !v0[current as int],
                count_true(visited@) > count_true(v0),
                forall|i: int|
                    0 <= i < n && #[trigger] v0[i] ==> visited@[i] && tp2[i] == tp[i] && rank2[i] == rank[i],
                forall|i: int|
                    0 <= i < n && !v0[i] && #[trigger] visited@[i] && i != current ==> 0 <= tp2[i] < n
                        && !v0[tp2[i]],
                forall|c: int|
                    0 <= c < n && #[trigger] tp2[c] == current ==> exists|j: int|
                        0 <= j < k && node.edges@[j].to == self.nid(c),
                forall|v: int|
                    0 <= v < n && #[trigger] joined(g, self.nid(current as int), self.nid(v)) && (exists|j: int|
                        0 <= j < k && node.edges@[j].to == self.nid(v)) ==> v == tp2[current as int]
                        || tp2[v] == current,
            decreases node.edges@.len() - k,
        {
            let edge = &node.edges[k];
            proof {
                assert(self.nodes@[current as int].wf());
                node.lemma_edge_at(k as int);
                self.lemma_view();
                assert(g[node.value] == node.edge_map());
                assert(joined(g, node.value, edge.to));
            }
            let ri = match self.find(edge.to) {
                Some(ri) => ri,
                None => {
                    proof {
                        assert(false);
                    }
                    return (true, Ghost(tp), Ghost(rank), Ghost(next));
                },
            };
            let ghost kk = k as int;
            if parent == Some(ri) {
                proof {
                    assert forall|v: int|
                        0 <= v < n && #[trigger] joined(g, self.nid(current as int), self.nid(v)) && (exists|j: int|
                            0 <= j < kk + 1 && node.edges@[j].to == self.nid(v)) implies v == tp2[current as int]
                        || tp2[v] == current by {
                        let j = choose|j: int| 0 <= j < kk + 1 && node.edges@[j].to == self.nid(v);
                        if j == kk {
                            self.lemma_idx_of(v);
                            self.lemma_idx_of(ri as int);
                        }
                    }
                }
            } else {
                proof {
                    if tp2[ri as int] == current {
                        let j = choose|j: int| 0 <= j < kk && node.edges@[j].to == self.nid(ri as int);
                        assert(node.targets()[j] == node.targets()[kk]);
                    }
                    assert(stack2.last() == current);
                    lemma_count_true_bound(visited@);
                }
                let ghost vb = visited@;
                let res = self.is_cycle_detected(
                    ri,
                    Some(current),
                    visited,
                    Ghost(stack2),
                    Ghost(tp2),
                    Ghost(rank2),
                    Ghost(next2),
                );
                if res.0 {
                    return (true, Ghost(tp), Ghost(rank), Ghost(next));
                }
                let ghost tpb = tp2;
                proof {
                    tp2 = res.1@;
                    rank2 = res.2@;
                    next2 = res.3@;
                    lemma_count_true_mono(vb, visited@);
                    assert forall|i: int|
                        0 <= i < n && #[trigger] v0[i] implies visited@[i] && tp2[i] == tp[i] && rank2[i] == rank[i] by {
                        assert(vb[i]);
                    }
                    assert forall|i: int|
                        0 <= i < n && !v0[i] && #[trigger] visited@[i] && i != current implies 0 <= tp2[i] < n
                        && !v0[tp2[i]] by {
                        if vb[i] {
                        } else if i != ri {
                            assert(!vb[tp2[i]]);
                        }
                    }
                    assert forall|c: int|
                        0 <= c < n && #[trigger] tp2[c] == current implies exists|j: int|
                        0 <= j < kk + 1 && node.edges@[j].to == self.nid(c) by {
                        if vb[c] {
                            assert(tpb[c] == current);
                            let j = choose|j: int| 0 <= j < kk && node.edges@[j].to == self.nid(c);
                        } else if c != ri {
                            assert(visited@[c]);
                            assert(!vb[tp2[c]]);
                            assert(vb[current as int]);
                        } else {
                            self.lemma_idx_of(ri as int);
                            assert(node.edges@[kk].to == self.nid(c));
                        }
                    }
                    assert forall|v: int|
                        0 <= v < n && #[trigger] joined(g, self.nid(current as int), self.nid(v)) && (exists|j: int|
                            0 <= j < kk + 1 && node.edges@[j].to == self.nid(v)) implies v == tp2[current as int]
                        || tp2[v] == current by {
                        let j = choose|j: int| 0 <= j < kk + 1 && node.edges@[j].to == self.nid(v);
                        assert(vb[current as int]);
                        if j == kk {
                            self.lemma_idx_of(v);
                            self.lemma_idx_of(ri as int);
                        } else {
                            if tpb[v] == current {
                                assert(vb[v]);
                            }
                        }
                    }
                }
            }
            k = k + 1;
        }
        proof {
            assert(self.nodes@[current as int].wf());
            lemma_keyed_map_describes(node.targets(), node.weights());
            assert forall|u: int, v: int|
                0 <= u < n && 0 <= v < n && visited@[u] && !stack.contains(u) && #[trigger] joined(
                    g,
                    self.nid(u),
                    self.nid(v),
                ) implies v == tp2[u] || tp2[v] == u by {
                if u == current {
                    let j = choose|j: int| 0 <= j < node.targets().len() && node.targets()[j] == self.nid(v);
                    assert(node.edges@[j].to == self.nid(v));
                } else {
                    assert(!stack2.contains(u));
                }
            }
            assert forall|kk: int| 0 <= kk < stack.len() implies 0 <= #[trigger] stack[kk] < n && visited@[stack[kk]] by {
                assert(stack2[kk] == stack[kk]);
            }
            assert forall|kk: int| 1 <= kk < stack.len() implies tp2[#[trigger] stack[kk]] == stack[kk - 1] by {
                assert(stack2[kk] == stack[kk]);
            }
            assert(stack.len() > 0 ==> stack2[0] == stack[0]);
            assert(stack2.subrange(0, stack.len() as int) =~= stack);
            assert(self.ucycle_inv(visited@, stack, tp2, rank2, next2));
        }
        (false, Ghost(tp2), Ghost(rank2), Ghost(next2))
    }

    /// Whether the graph, taken as undirected, has a cycle.
    pub fn has_cycle(&self) -> (r: bool)
        requires
            self.wf(),
        ensures
            r == has_undirected_cycle(self@),
    {
        let n = self.nodes.len();
        let mut visited: Vec<bool> = Vec::new();
        let ghost mut tp: Seq<int> = Seq::empty();
        let ghost mut rank: Seq<nat> = Seq::empty();
        let mut i: usize = 0;
        while i < n
            invariant
                n == self.nodes@.len(),
                i <= n,
                visited@.len() == i && tp.len() == i && rank.len() == i,
                forall|j: int| 0 <= j < i ==> !#[trigger] visited@[j],
                forall|j: int| 0 <= j < i ==> #[trigger] tp[j] == -1,
            decreases n - i,
        {
            visited.push(false);
            proof {
                tp = tp.push(-1);
                rank = rank.push(0);
            }
            i = i + 1;
        }
        let ghost mut next: nat = 0;
        let mut i: usize = 0;
        while i < n
            invariant
                self.wf(),
                n == self.nodes@.len(),
                i <= n,
                self.ucycle_inv(visited@, Seq::empty(), tp, rank, next),
                forall|j: int| 0 <= j < i ==> #[trigger] visited@[j],
            decreases n - i,
        {
            if !visited[i] {
                let ghost vb = visited@;
                let res = self.is_cycle_detected(
                    i,
                    None,
                    &mut visited,
                    Ghost(Seq::empty()),
                    Ghost(tp),
                    Ghost(rank),
                    Ghost(next),
                );
                if res.0 {
                    return true;
                }
                proof {
                    tp = res.1@;
                    rank = res.2@;
                    next = res.3@;
                    assert forall|j: int| 0 <= j < i implies #[trigger] visited@[j] by {
                        assert(vb[j]);
                    }
                }
            }
            i = i + 1;
        }
        proof {
            self.lemma_forest_is_acyclic(visited@, tp, rank, next);
        }
        false
    }

    /// The queue entry standing for the `e`-th edge of a node.
    spec fn entry_of(node: Node, e: int) -> (usize, u64, u64) {
        (node.edges@[e].weight, node.edges@[e].from, node.edges@[e].to)
    }

    fn push_edges(node: &Node, queue: &mut MinQueue)
        ensures
            final(queue)@.len() == old(queue)@.len() + node.edges@.len(),
            forall|m: int| 0 <= m < old(queue)@.len() ==> #[trigger] final(queue)@[m] == old(queue)@[m],
            forall|e: int|
                0 <= e < node.edges@.len() ==> final(queue)@[old(queue)@.len() + e] == Self::entry_of(
                    *node,
                    e,
                ),
    {
        let mut k: usize = 0;
        while k < node.edges.len()
            invariant
                k <= node.edges@.len(),
                queue@.len() == old(queue)@.len() + k,
                forall|m: int| 0 <= m < old(queue)@.len() ==> #[trigger] queue@[m] == old(queue)@[m],
                forall|e: int| 0 <= e < k ==> queue@[old(queue)@.len() + e] == Self::entry_of(*node, e),
            decreases node.edges@.len() - k,
        {
            let edge = &node.edges[k];
            queue.push(edge.weight, edge.from, edge.to);
            k = k + 1;
        }
    }

    /// A queue holding every edge of the graph once from each endpoint.
    fn collect_edges(&self) -> (r: MinQueue)
        requires
            self.wf(),
        ensures
            forall|m: int|
                0 <= m < r@.len() ==> joined(self@, #[trigger] r@[m].1, r@[m].2) && self@[r@[m].1][r@[m].2]
                    == r@[m].0,
            forall|j: int|
                0 <= j < self.nodes@.len() && #[trigger] has_neighbour(self@, self.nodes@[j].value)
                    ==> exists|m: int|
                    0 <= m < r@.len() && r@[m].1 == self.nodes@[j].value && r@[m].2 == lightest(
                        self@,
                        self.nodes@[j].value,
                    ),
    {
        let ghost g = self@;
        let mut queue = MinQueue::new();
        let mut i: usize = 0;
        while i < self.nodes.len()
            invariant
                self.wf(),
                g == self@,
                i <= self.nodes@.len(),
                forall|m: int|
                    0 <= m < queue@.len() ==> joined(g, #[trigger] queue@[m].1, queue@[m].2)
                        && g[queue@[m].1][queue@[m].2] == queue@[m].0,
                forall|j: int|
                    0 <= j < i && #[trigger] has_neighbour(g, self.nodes@[j].value) ==> exists|m: int|
                        0 <= m < queue@.len() && queue@[m].1 == self.nodes@[j].value && queue@[m].2
                            == lightest(g, self.nodes@[j].value),
            decreases self.nodes@.len() - i,
        {
            let ghost q0 = queue@;
            Self::push_edges(&self.nodes[i], &mut queue);
            proof {
                let node = self.nodes@[i as int];
                self.lemma_view();
                assert(node.wf());
                assert forall|m: int| 0 <= m < queue@.len() implies joined(g, #[trigger] queue@[m].1, queue@[m].2)
                    && g[queue@[m].1][queue@[m].2] == queue@[m].0 by {
                    if m >= q0.len() {
                        let e = m - q0.len();
                        assert(queue@[q0.len() + e] == Self::entry_of(node, e));
                        node.lemma_edge_at(e);
                    }
                }
                assert forall|j: int|
                    0 <= j < i + 1 && #[trigger] has_neighbour(g, self.nodes@[j].value) implies exists|m: int|
                    0 <= m < queue@.len() && queue@[m].1 == self.nodes@[j].value && queue@[m].2
                        == lightest(g, self.nodes@[j].value) by {
                    if j < i {
                        let m = choose|m: int|
                            0 <= m < q0.len() && q0[m].1 == self.nodes@[j].value && q0[m].2
                                == lightest(g, self.nodes@[j].value);
                        assert(queue@[m] == q0[m]);
                    } else {
                        let x = node.value;
                        let y = choose|y: u64| #[trigger] joined(g, x, y);
                        lemma_lightest_exists(g, x, y);
                        let l = lightest(g, x);
                        assert(joined(g, x, l));
                        assert(g[x] == node.edge_map());
                        lemma_keyed_map_describes(node.targets(), node.weights());
                        let e = choose|e: int| 0 <= e < node.targets().len() && node.targets()[e] == l;
                        node.lemma_edge_at(e);
                        assert(queue@[q0.len() + e] == Self::entry_of(node, e));
                        let m = q0.len() + e;
                        assert(queue@[m].1 == x && queue@[m].2 == l);
                    }
                }
            }
            i = i + 1;
        }
        queue
    }

    /// The bookkeeping of the spanning-tree construction over tree `t`.
    spec fn mst_inv(&self, t: WeightedGraph, visited: Seq<bool>, count: nat, q: Seq<(usize, u64, u64)>) -> bool {
        let g = self@;
        let n = self.nodes@.len();
        &&& t.wf()
        &&& visited.len() == n
        &&& count == count_true(visited)
        &&& forall|j: int| 0 <= j < n && #[trigger] visited[j] ==> t@.contains_key(self.nodes@[j].value)
        &&& forall|m: int|
            0 <= m < q.len() ==> joined(g, #[trigger] q[m].1, q[m].2) && g[q[m].1][q[m].2] == q[m].0
        &&& is_subgraph(t@, g)
        &&& forall|x: u64| #[trigger] t@.contains_key(x) ==> g.contains_key(x) && has_neighbour(g, x)
        &&& forall|j: int|
            0 <= j < n && #[trigger] has_neighbour(g, self.nodes@[j].value) && !visited[j] ==> exists|m: int|
                0 <= m < q.len() && q[m].1 == self.nodes@[j].value && q[m].2 == lightest(g, self.nodes@[j].value)
        &&& distinct_weights(g) ==> forall|j: int|
            0 <= j < n && #[trigger] visited[j] ==> joined(t@, self.nodes@[j].value, lightest(g, self.nodes@[j].value))
        &&& distinct_weights(g) ==> forall|x: u64, y: u64| #[trigger]
            joined(t@, x, y) ==> is_lightest(g, x, y) || is_lightest(g, y, x)
    }

    /// Takes the lightest queued edge and adds it to the tree unless its `from` endpoint is marked.
    #[verifier::rlimit(100)]
    fn take_lightest(
        &self,
        queue: &mut MinQueue,
        visited: &mut Vec<bool>,
        visited_count: &mut usize,
        tree: &mut WeightedGraph,
    )
        requires
            self.wf(),
            old(queue)@.len() > 0,
            self.mst_inv(*old(tree), old(visited)@, *old(visited_count) as nat, old(queue)@),
        ensures
            self.mst_inv(*final(tree), final(visited)@, *final(visited_count) as nat, final(queue)@),
            final(queue)@.len() < old(queue)@.len(),
    {
        let ghost g = self@;
        let ghost n = self.nodes@.len();
        let ghost q0 = queue@;
        let ghost t0 = tree@;
        let ghost v0 = visited@;
        let n_nodes = self.nodes.len();
        let idx = queue.min_index();
        let (weight, from, to) = queue.take(idx);
        proof {
            self.lemma_view();
            assert(joined(g, q0[idx as int].1, q0[idx as int].2));
            assert forall|k: int| 0 <= k < queue@.len() implies #[trigger] queue@[k] == if k < idx {
                q0[k]
            } else {
                q0[k + 1]
            } by {}
        }
        let fi = match self.find(from) {
            Some(fi) => fi,
            None => {
                proof {
                    assert(false);
                }
                return ;
            },
        };
        if !visited[fi] {
            proof {
                lemma_lightest_exists(g, from, to);
                assert(has_neighbour(g, self.nodes@[fi as int].value));
                let m = choose|m: int|
                    0 <= m < q0.len() && q0[m].1 == from && q0[m].2 == lightest(g, from);
                assert(q0[idx as int].0 <= q0[m].0);
                if distinct_weights(g) {
                    assert(joined(g, from, lightest(g, from)));
                    assert(to == lightest(g, from));
                }
            }
            tree.add_node(from);
            tree.add_node(to);
            match tree.add_edge(from, to, weight) {
                Ok(()) => {},
                Err(_) => {
                    proof {
                        assert(false);
                    }
                    return ;
                },
            }
            proof {
                lemma_count_true_set(visited@, fi as int);
                lemma_count_true_bound(visited@.update(fi as int, true));
                assert(count_true(visited@.update(fi as int, true)) <= n);
            }
            let count = *visited_count;
            proof {
                assert(count == count_true(visited@));
                assert(count < n);
            }
            visited.set(fi, true);
            *visited_count = count + 1;
            proof {
                let t = tree@;
                assert(joined(g, from, to));
                assert(g[to][from] == g[from][to]);
                assert(has_neighbour(g, from));
                assert(joined(g, to, from));
                assert(has_neighbour(g, to));
                assert forall|a: u64, b: u64| #[trigger] joined(t0, a, b) implies joined(t, a, b) by {}
                assert forall|a: u64, b: u64| #[trigger] joined(t, a, b) implies joined(g, a, b)
                    && t[a][b] == g[a][b] by {
                    if !((a == from && b == to) || (a == to && b == from)) {
                        assert(joined(t0, a, b));
                    }
                }
                assert forall|x: u64| #[trigger] t.contains_key(x) implies g.contains_key(x)
                    && has_neighbour(g, x) by {
                    if x != from && x != to {
                        assert(t0.contains_key(x));
                    }
                }
                if distinct_weights(g) {
                    assert forall|x: u64, y: u64| #[trigger] joined(t, x, y) implies is_lightest(g, x, y)
                        || is_lightest(g, y, x) by {
                        if !((x == from && y == to) || (x == to && y == from)) {
                            assert(joined(t0, x, y));
                        }
                    }
                    assert forall|j: int| 0 <= j < n && #[trigger] visited@[j] implies joined(
                        t,
                        self.nodes@[j].value,
                        lightest(g, self.nodes@[j].value),
                    ) by {
                        if j != fi {
                            assert(v0[j]);
                        }
                    }
                }
                assert forall|j: int| 0 <= j < n && #[trigger] visited@[j] implies t.contains_key(
                    self.nodes@[j].value,
                ) by {
                    if j != fi {
                        assert(v0[j]);
                    }
                }
            }
        }
        proof {
            assert forall|j: int|
                0 <= j < n && #[trigger] has_neighbour(g, self.nodes@[j].value) && !visited@[j] implies exists|m: int|
                0 <= m < queue@.len() && queue@[m].1 == self.nodes@[j].value && queue@[m].2 == lightest(
                    g,
                    self.nodes@[j].value,
                ) by {
                assert(!v0[j]);
                let m = choose|m: int|
                    0 <= m < q0.len() && q0[m].1 == self.nodes@[j].value && q0[m].2 == lightest(
                        g,
                        self.nodes@[j].value,
                    );
                assert(j != fi);
                assert(self.ids()[j] != self.ids()[fi as int]);
                if m < idx {
                    assert(queue@[m] == q0[m]);
                } else {
                    assert(m != idx);
                    assert(queue@[m - 1] == q0[m]);
                }
            }
            assert forall|k: int| 0 <= k < queue@.len() implies joined(g, #[trigger] queue@[k].1, queue@[k].2)
                && g[queue@[k].1][queue@[k].2] == queue@[k].0 by {
                if k < idx {
                    assert(queue@[k] == q0[k]);
                } else {
                    assert(queue@[k] == q0[k + 1]);
                }
            }
        }
    }

    /// Builds a new graph from the edges taken lightest first, accepting an edge only
    /// while its `from` endpoint has not yet been marked; only that endpoint is marked.
    /// The result keeps every node that has an edge, and only edges of this graph, but
    /// it need not be minimal nor free of cycles. When no two edges share a weight it
    /// holds exactly the edges that are the lightest at one of their endpoints.
    #[verifier::rlimit(100)]
    pub fn minimum_spanning_tree(&self) -> (r: Result<WeightedGraph, GraphError>)
        requires
            self.wf(),
        ensures
            r.is_ok(),
            r.is_ok() ==> {
                let t = r.unwrap();
                &&& t.wf()
                &&& forall|x: u64| #[trigger]
                    t@.contains_key(x) <==> self@.contains_key(x) && has_neighbour(self@, x)
                &&& is_subgraph(t@, self@)
                &&& distinct_weights(self@) ==> t@ == lightest_edges(self@)
            },
    {
        let ghost g = self@;
        let mut spanning_tree = WeightedGraph::new();
        if self.is_empty() {
            proof {
                assert forall|x: u64| #[trigger] spanning_tree@.contains_key(x) <==> g.contains_key(x)
                    && has_neighbour(g, x) by {
                    assert(!g.dom().contains(x));
                }
                assert(lightest_edges(g) =~= spanning_tree@);
            }
            return Ok(spanning_tree);
        }
        let mut queue = self.collect_edges();
        let mut visited: Vec<bool> = Vec::new();
        let mut i: usize = 0;
        while i < self.nodes.len()
            invariant
                i <= self.nodes@.len(),
                visited@.len() == i,
                forall|j: int| 0 <= j < i ==> !#[trigger] visited@[j],
            decreases self.nodes@.len() - i,
        {
            visited.push(false);
            i = i + 1;
        }
        let mut visited_count: usize = 0;
        proof {
            lemma_count_zero(visited@);
            assert(self.mst_inv(spanning_tree, visited@, 0, queue@));
        }
        while visited_count != self.nodes.len() && queue.len() > 0
            invariant
                self.wf(),
                g == self@,
                self.mst_inv(spanning_tree, visited@, visited_count as nat, queue@),
            decreases queue@.len(),
        {
            self.take_lightest(&mut queue, &mut visited, &mut visited_count, &mut spanning_tree);
        }
        proof {
            let t = spanning_tree@;
            let n = self.nodes@.len();
            self.lemma_view();
            lemma_count_true_bound(visited@);
            assert forall|j: int| 0 <= j < n && #[trigger] has_neighbour(g, self.nodes@[j].value) implies visited@[j] by {
                if queue@.len() == 0 && !visited@[j] {
                    let m = choose|m: int|
                        0 <= m < queue@.len() && queue@[m].1 == self.nodes@[j].value;
                }
            }
            assert forall|x: u64| #[trigger] t.contains_key(x) <==> g.contains_key(x) && has_neighbour(g, x) by {
                if g.contains_key(x) && has_neighbour(g, x) {
                    let j = choose|j: int| 0 <= j < n && #[trigger] self.nodes@[j].value == x;
                    assert(visited@[j]);
                }
            }
            if distinct_weights(g) {
                let l = lightest_edges(g);
                assert forall|x: u64, y: u64| #[trigger] joined(l, x, y) implies joined(t, x, y) by {
                    if is_lightest(g, x, y) {
                        let j = choose|j: int| 0 <= j < n && #[trigger] self.nodes@[j].value == x;
                        assert(has_neighbour(g, x));
                        assert(visited@[j]);
                        assert(joined(t, x, lightest(g, x)));
                        lemma_lightest_exists(g, x, y);
                        assert(y == lightest(g, x));
                    } else {
                        assert(is_lightest(g, y, x));
                        let j = choose|j: int| 0 <= j < n && #[trigger] self.nodes@[j].value == y;
                        assert(has_neighbour(g, y));
                        assert(visited@[j]);
                        assert(joined(t, y, lightest(g, y)));
                        lemma_lightest_exists(g, y, x);
                        assert(x == lightest(g, y));
                        assert(joined(t, y, x));
                    }
                }
                assert forall|x: u64| t.contains_key(x) implies #[trigger] t[x] =~= l[x] by {
                    assert forall|y: u64| #[trigger] t[x].contains_key(y) <==> l[x].contains_key(y) by {
                        if t[x].contains_key(y) {
                            assert(joined(t, x, y));
                        }
                        if l[x].contains_key(y) {
                            assert(joined(l, x, y));
                        }
                    }
                    assert forall|y: u64| t[x].contains_key(y) implies #[trigger] t[x][y] == l[x][y] by {
                        assert(joined(t, x, y));
                    }
                }
                assert(t =~= l);
            }
        }
        Ok(spanning_tree)
    }
}

proof fn lemma_count_true_mono(a: Seq<bool>, b: Seq<bool>)
    requires
        a.len() == b.len(),
        forall|i: int| 0 <= i < a.len() && a[i] ==> b[i],
    ensures
        count_true(a) <= count_true(b),
    decreases a.len(),
{
    if a.len() > 0 {
        lemma_count_true_mono(a.drop_last(), b.drop_last());
    }
}

proof fn lemma_argmax(s: Seq<nat>) -> (m: int)
    requires
        s.len() > 0,
    ensures
        0 <= m < s.len(),
        forall|i: int| 0 <= i < s.len() ==> s[i] <= s[m],
    decreases s.len(),
{
    if s.len() == 1 {
        0
    } else {
        let m = lemma_argmax(s.drop_last());
        assert forall|i: int| 0 <= i < s.len() - 1 implies s[i] <= s[m] by {
            assert(s.drop_last()[i] == s[i]);
        }
        if s[m] >= s.last() {
            m
        } else {
            s.len() - 1
        }
    }
}

proof fn lemma_count_zero(s: Seq<bool>)
    requires
        forall|j: int| 0 <= j < s.len() ==> !#[trigger] s[j],
    ensures
        count_true(s) == 0,
    decreases s.len(),
{
    if s.len() > 0 {
        lemma_count_zero(s.drop_last());
    }
}

} // verus!
