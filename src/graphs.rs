use vstd::prelude::*;

use crate::error::GraphError;

verus! {

/// `b` is one of the nodes that `a` points at.
pub open spec fn has_edge(g: Map<u64, Set<u64>>, a: u64, b: u64) -> bool {
    g.contains_key(a) && g[a].contains(b)
}

/// Every adjacency target is itself a registered node.
pub open spec fn is_closed(g: Map<u64, Set<u64>>) -> bool {
    forall|a: u64, b: u64| #[trigger] has_edge(g, a, b) ==> g.contains_key(b)
}

/// A non-empty sequence of registered nodes, each pointing at the next.
pub open spec fn is_walk(g: Map<u64, Set<u64>>, p: Seq<u64>) -> bool {
    &&& p.len() > 0
    &&& forall|i: int| 0 <= i < p.len() ==> g.contains_key(#[trigger] p[i])
    &&& forall|i: int| 0 <= i < p.len() - 1 ==> #[trigger] g[p[i]].contains(p[i + 1])
}

/// Some walk leads from its last node back to its first.
pub open spec fn has_directed_cycle(g: Map<u64, Set<u64>>) -> bool {
    exists|p: Seq<u64>| #[trigger] is_walk(g, p) && g[p.last()].contains(p[0])
}

/// The relation after registering `id`: unchanged when `id` is already there.
pub open spec fn with_node(g: Map<u64, Set<u64>>, id: u64) -> Map<u64, Set<u64>> {
    if g.contains_key(id) {
        g
    } else {
        g.insert(id, Set::empty())
    }
}

/// The relation after dropping `id` and every edge that points at it.
pub open spec fn without_node(g: Map<u64, Set<u64>>, id: u64) -> Map<u64, Set<u64>> {
    g.remove(id).map_values(|s: Set<u64>| s.remove(id))
}

/// The relation after adding the edge `from -> to`.
pub open spec fn with_edge(g: Map<u64, Set<u64>>, from: u64, to: u64) -> Map<u64, Set<u64>> {
    g.insert(from, g[from].insert(to))
}

/// The relation after dropping the edge `from -> to`; unchanged when an endpoint is missing.
pub open spec fn without_edge(g: Map<u64, Set<u64>>, from: u64, to: u64) -> Map<u64, Set<u64>> {
    if g.contains_key(from) && g.contains_key(to) {
        g.insert(from, g[from].remove(to))
    } else {
        g
    }
}

/// `order` lists every node exactly once, each after all the nodes it points at.
pub open spec fn is_dependency_order(g: Map<u64, Set<u64>>, order: Seq<u64>) -> bool {
    &&& order.no_duplicates()
    &&& order.to_set() == g.dom()
    &&& forall|i: int, j: int|
        0 <= i < order.len() && 0 <= j < order.len() && #[trigger] has_edge(
            g,
            order[i],
            order[j],
        ) ==> j < i
}

/// Registering a node a second time changes nothing.
pub proof fn lemma_add_node_idempotent(g: Map<u64, Set<u64>>, id: u64)
    ensures
        with_node(with_node(g, id), id) == with_node(g, id),
{
}

/// After `b` is removed, no remaining node points at `b`, and `b` itself is gone.
pub proof fn lemma_remove_node_purges(g: Map<u64, Set<u64>>, b: u64)
    ensures
        !without_node(g, b).contains_key(b),
        forall|a: u64| #[trigger]
            without_node(g, b).contains_key(a) ==> !without_node(g, b)[a].contains(b),
        forall|a: u64| #[trigger]
            without_node(g, b).contains_key(a) ==> g.contains_key(a) && without_node(g, b)[a]
                == g[a].remove(b),
{
}

/// A node of a directed graph: its identity and the identities it points at.
pub struct Node {
    value: u64,
    relatives: Vec<u64>,
}

impl Node {
    pub closed spec fn wf(&self) -> bool {
        self.relatives@.no_duplicates()
    }

    pub closed spec fn id(&self) -> u64 {
        self.value
    }

    pub closed spec fn relative_set(&self) -> Set<u64> {
        self.relatives@.to_set()
    }

    pub fn new(value: u64) -> (r: Self)
        ensures
            r.wf(),
            r.id() == value,
            r.relative_set() == Set::<u64>::empty(),
    {
        let r = Node { value, relatives: Vec::new() };
        assert(r.relatives@.to_set() =~= Set::<u64>::empty());
        r
    }

    fn position(&self, value: u64) -> (r: Option<usize>)
        ensures
            match r {
                Some(i) => i < self.relatives@.len() && self.relatives@[i as int] == value,
                None => !self.relatives@.contains(value),
            },
    {
        let mut i: usize = 0;
        while i < self.relatives.len()
            invariant
                i <= self.relatives@.len(),
                forall|j: int| 0 <= j < i ==> self.relatives@[j] != value,
            decreases self.relatives@.len() - i,
        {
            if self.relatives[i] == value {
                return Some(i);
            }
            i = i + 1;
        }
        None
    }

    pub fn add_relative(&mut self, value: u64)
        requires
            old(self).wf(),
        ensures
            final(self).wf(),
            final(self).id() == old(self).id(),
            final(self).relative_set() == old(self).relative_set().insert(value),
    {
        if self.position(value).is_none() {
            self.relatives.push(value);
            proof {
                let o = old(self).relatives@;
                let n = self.relatives@;
                assert(n =~= o.push(value));
                assert forall|x: u64| n.contains(x) <==> o.contains(x) || x == value by {
                    if o.contains(x) {
                        let k = choose|k: int| 0 <= k < o.len() && o[k] == x;
                        assert(n[k] == x);
                    }
                    if x == value {
                        assert(n[o.len() as int] == x);
                    }
                }
                assert(n.to_set() =~= o.to_set().insert(value));
            }
        } else {
            assert(old(self).relatives@.to_set().insert(value) =~= old(self).relatives@.to_set());
        }
    }

    pub fn remove_relative(&mut self, value: u64)
        requires
            old(self).wf(),
        ensures
            final(self).wf(),
            final(self).id() == old(self).id(),
            final(self).relative_set() == old(self).relative_set().remove(value),
    {
        match self.position(value) {
            Some(i) => {
                self.relatives.remove(i);
                proof {
                    let o = old(self).relatives@;
                    let n = self.relatives@;
                    assert(n =~= o.remove(i as int));
                    assert forall|x: u64| n.contains(x) <==> o.contains(x) && x != value by {
                        if n.contains(x) {
                            let k = choose|k: int| 0 <= k < n.len() && n[k] == x;
                            if k < i {
                                assert(o[k] == x);
                            } else {
                                assert(o[k + 1] == x);
                            }
                        }
                        if o.contains(x) && x != value {
                            let k = choose|k: int| 0 <= k < o.len() && o[k] == x;
                            if k < i {
                                assert(n[k] == x);
                            } else {
                                assert(n[k - 1] == x);
                            }
                        }
                    }
                    assert(n.to_set() =~= o.to_set().remove(value));
                    assert(n.no_duplicates()) by {
                        assert forall|a: int, b: int|
                            0 <= a < n.len() && 0 <= b < n.len() && a != b implies n[a] != n[b] by {
                            let a2 = if a < i { a } else { a + 1 };
                            let b2 = if b < i { b } else { b + 1 };
                            assert(n[a] == o[a2] && n[b] == o[b2]);
                        }
                    }
                }
            },
            None => {
                assert(old(self).relatives@.to_set().remove(value) =~= old(
                    self,
                ).relatives@.to_set());
            },
        }
    }

    pub fn has_relative(&self, value: u64) -> (r: bool)
        ensures
            r == self.relative_set().contains(value),
    {
        self.position(value).is_some()
    }
}

/// No two nodes of the sequence share an identity.
pub open spec fn ids_unique(nodes: Seq<Node>) -> bool {
    forall|i: int, j: int|
        0 <= i < nodes.len() && 0 <= j < nodes.len() && i != j ==> #[trigger] nodes[i].id()
            != #[trigger] nodes[j].id()
}

/// The adjacency relation that a sequence of nodes stands for.
pub open spec fn nodes_view(nodes: Seq<Node>) -> Map<u64, Set<u64>> {
    Map::new(
        |k: u64| exists|i: int| 0 <= i < nodes.len() && nodes[i].id() == k,
        |k: u64| nodes[choose|i: int| 0 <= i < nodes.len() && nodes[i].id() == k].relative_set(),
    )
}

/// `m` holds exactly the nodes of the sequence, each with its relatives.
pub open spec fn represents(nodes: Seq<Node>, m: Map<u64, Set<u64>>) -> bool {
    &&& forall|i: int|
        0 <= i < nodes.len() ==> m.contains_key(#[trigger] nodes[i].id()) && m[nodes[i].id()]
            == nodes[i].relative_set()
    &&& forall|k: u64| m.contains_key(k) ==> exists|i: int| 0 <= i < nodes.len() && nodes[i].id() == k
}

proof fn lemma_represents(nodes: Seq<Node>, m: Map<u64, Set<u64>>)
    requires
        ids_unique(nodes),
        represents(nodes, m),
    ensures
        nodes_view(nodes) == m,
{
    let v = nodes_view(nodes);
    assert forall|k: u64| #[trigger] v.contains_key(k) <==> m.contains_key(k) by {
        if v.contains_key(k) {
            let i = choose|i: int| 0 <= i < nodes.len() && nodes[i].id() == k;
            assert(m.contains_key(nodes[i].id()));
        }
    }
    assert forall|k: u64| v.contains_key(k) implies #[trigger] v[k] == m[k] by {
        let i = choose|i: int| 0 <= i < nodes.len() && nodes[i].id() == k;
        assert(m[nodes[i].id()] == nodes[i].relative_set());
    }
    assert(v =~= m);
}

proof fn lemma_view_represents(nodes: Seq<Node>)
    requires
        ids_unique(nodes),
    ensures
        represents(nodes, nodes_view(nodes)),
{
    let v = nodes_view(nodes);
    assert forall|i: int| 0 <= i < nodes.len() implies v.contains_key(#[trigger] nodes[i].id())
        && v[nodes[i].id()] == nodes[i].relative_set() by {
        let k = nodes[i].id();
        assert(v.contains_key(k));
        let j = choose|j: int| 0 <= j < nodes.len() && nodes[j].id() == k;
        assert(i == j);
    }
}

/// Where a depth-first traversal stands with one node.
#[derive(Clone, Copy, PartialEq, Eq, Structural)]
enum Visit {
    Unvisited,
    Visiting,
    Done,
}

spec fn unvisited_count(s: Seq<Visit>) -> nat
    decreases s.len(),
{
    if s.len() == 0 {
        0
    } else {
        unvisited_count(s.drop_last()) + if s.last() == Visit::Unvisited {
            1nat
        } else {
            0nat
        }
    }
}

proof fn lemma_unvisited_count_mono(a: Seq<Visit>, b: Seq<Visit>)
    requires
        a.len() == b.len(),
        forall|i: int| 0 <= i < a.len() && b[i] == Visit::Unvisited ==> a[i] == Visit::Unvisited,
    ensures
        unvisited_count(b) <= unvisited_count(a),
    decreases a.len(),
{
    if a.len() > 0 {
        lemma_unvisited_count_mono(a.drop_last(), b.drop_last());
    }
}

proof fn lemma_unvisited_count_mark(a: Seq<Visit>, k: int, v: Visit)
    requires
        0 <= k < a.len(),
        a[k] == Visit::Unvisited,
        v != Visit::Unvisited,
    ensures
        unvisited_count(a.update(k, v)) < unvisited_count(a),
    decreases a.len(),
{
    let b = a.update(k, v);
    if k == a.len() - 1 {
        assert(b.drop_last() =~= a.drop_last());
    } else {
        assert(b.drop_last() =~= a.drop_last().update(k, v));
        lemma_unvisited_count_mark(a.drop_last(), k, v);
    }
}

/// A rank that every edge strictly lowers rules out any cycle.
proof fn lemma_ranked_is_acyclic(g: Map<u64, Set<u64>>, rank: Map<u64, nat>)
    requires
        rank.dom() == g.dom(),
        forall|a: u64, b: u64| #[trigger] has_edge(g, a, b) ==> rank[b] < rank[a],
    ensures
        !has_directed_cycle(g),
{
    if has_directed_cycle(g) {
        let p = choose|p: Seq<u64>| #[trigger] is_walk(g, p) && g[p.last()].contains(p[0]);
        lemma_rank_along_walk(g, rank, p, p.len() - 1);
        assert(has_edge(g, p.last(), p[0]));
    }
}

proof fn lemma_rank_along_walk(g: Map<u64, Set<u64>>, rank: Map<u64, nat>, p: Seq<u64>, i: int)
    requires
        is_walk(g, p),
        0 <= i < p.len(),
        forall|a: u64, b: u64| #[trigger] has_edge(g, a, b) ==> rank[b] < rank[a],
    ensures
        rank[p[i]] + i <= rank[p[0]],
    decreases i,
{
    if i > 0 {
        lemma_rank_along_walk(g, rank, p, i - 1);
        assert(g.contains_key(p[i - 1]));
        assert(g[p[i - 1]].contains(p[(i - 1) + 1]));
        assert(has_edge(g, p[i - 1], p[i]));
    }
}

/// A walk on the traversal stack that leads back to one of its own nodes closes a cycle.
proof fn lemma_stack_cycle(g: Map<u64, Set<u64>>, stack: Seq<u64>, id: u64)
    requires
        stack.len() > 0,
        forall|k: int| 0 <= k < stack.len() ==> g.contains_key(#[trigger] stack[k]),
        forall|k: int| 0 <= k < stack.len() - 1 ==> #[trigger] g[stack[k]].contains(stack[k + 1]),
        g[stack.last()].contains(id),
        stack.contains(id),
    ensures
        has_directed_cycle(g),
{
    let k = choose|k: int| 0 <= k < stack.len() && stack[k] == id;
    let p = stack.subrange(k, stack.len() as int);
    assert(p.last() == stack.last());
    assert forall|i: int| 0 <= i < p.len() - 1 implies #[trigger] g[p[i]].contains(p[i + 1]) by {
        assert(g[stack[k + i]].contains(stack[k + i + 1]));
    }
    assert(is_walk(g, p));
}

/// A directed graph over `u64` identities.
pub struct Graph {
    nodes: Vec<Node>,
}

impl View for Graph {
    type V = Map<u64, Set<u64>>;

    closed spec fn view(&self) -> Map<u64, Set<u64>> {
        nodes_view(self.nodes@)
    }
}

impl Graph {
    pub closed spec fn wf(&self) -> bool {
        &&& ids_unique(self.nodes@)
        &&& forall|i: int| 0 <= i < self.nodes@.len() ==> (#[trigger] self.nodes@[i]).wf()
        &&& is_closed(self@)
    }

    pub fn new() -> (r: Self)
        ensures
            r.wf(),
            r@ == Map::<u64, Set<u64>>::empty(),
    {
        let r = Graph { nodes: Vec::new() };
        assert(r@ =~= Map::<u64, Set<u64>>::empty());
        r
    }

    fn find(&self, value: u64) -> (r: Option<usize>)
        requires
            self.wf(),
        ensures
            r.is_some() == self@.contains_key(value),
            match r {
                Some(i) => i < self.nodes@.len() && self.nodes@[i as int].id() == value,
                None => forall|j: int| 0 <= j < self.nodes@.len() ==> self.nodes@[j].id() != value,
            },
    {
        proof {
            lemma_view_represents(self.nodes@);
        }
        let mut i: usize = 0;
        while i < self.nodes.len()
            invariant
                i <= self.nodes@.len(),
                forall|j: int| 0 <= j < i ==> self.nodes@[j].id() != value,
            decreases self.nodes@.len() - i,
        {
            if self.nodes[i].value == value {
                return Some(i);
            }
            i = i + 1;
        }
        None
    }

    pub fn is_node_exists(&self, value: u64) -> (r: bool)
        requires
            self.wf(),
        ensures
            r == self@.contains_key(value),
    {
        self.find(value).is_some()
    }

    /// Whether `from` points at `to`.
    pub fn is_edge_exists(&self, from: u64, to: u64) -> (r: bool)
        requires
            self.wf(),
        ensures
            r == has_edge(self@, from, to),
    {
        match self.find(from) {
            Some(fi) => {
                proof {
                    lemma_view_represents(self.nodes@);
                }
                self.nodes[fi].has_relative(to)
            },
            None => false,
        }
    }

    pub fn add_node(&mut self, value: u64)
        requires
            old(self).wf(),
        ensures
            final(self).wf(),
            final(self)@ == with_node(old(self)@, value),
    {
        if self.find(value).is_none() {
            let ghost o = self.nodes@;
            self.nodes.push(Node::new(value));
            proof {
                let n = self.nodes@;
                let m = nodes_view(o).insert(value, Set::empty());
                lemma_view_represents(o);
                assert(n =~= o.push(n.last()));
                assert(ids_unique(n));
                assert forall|k: u64| m.contains_key(k) implies exists|i: int|
                    0 <= i < n.len() && n[i].id() == k by {
                    if k == value {
                        assert(n[o.len() as int].id() == k);
                    } else {
                        let i = choose|i: int| 0 <= i < o.len() && o[i].id() == k;
                        assert(n[i].id() == k);
                    }
                }
                assert(represents(n, m));
                lemma_represents(n, m);
                assert forall|a: u64, b: u64| #[trigger] has_edge(m, a, b) implies m.contains_key(b) by {
                    if a != value {
                        assert(has_edge(nodes_view(o), a, b));
                    }
                }
            }
        }
    }

    pub fn remove_node(&mut self, value: u64) -> (r: Result<(), GraphError>)
        requires
            old(self).wf(),
        ensures
            final(self).wf(),
            r.is_ok() == old(self)@.contains_key(value),
            r.is_ok() ==> final(self)@ == without_node(old(self)@, value),
            r.is_err() ==> r == Err::<(), GraphError>(GraphError::NodeNotFound) && final(self)@
                == old(self)@,
    {
        let idx = match self.find(value) {
            Some(idx) => idx,
            None => {
                return Err(GraphError::NodeNotFound);
            },
        };
        let ghost o = self.nodes@;
        proof {
            lemma_view_represents(o);
        }
        let mut i: usize = 0;
        while i < self.nodes.len()
            invariant
                self.nodes@.len() == o.len(),
                i <= o.len(),
                forall|j: int| 0 <= j < o.len() ==> (#[trigger] self.nodes@[j]).wf(),
                forall|j: int| 0 <= j < o.len() ==> (#[trigger] self.nodes@[j]).id() == o[j].id(),
                forall|j: int|
                    0 <= j < i ==> (#[trigger] self.nodes@[j]).relative_set() == o[j].relative_set().remove(
                        value,
                    ),
                forall|j: int| i <= j < o.len() ==> (#[trigger] self.nodes@[j]) == o[j],
            decreases o.len() - i,
        {
            self.nodes[i].remove_relative(value);
            i = i + 1;
        }
        let ghost p = self.nodes@;
        self.nodes.remove(idx);
        proof {
            let n = self.nodes@;
            let g = nodes_view(o);
            let m = without_node(g, value);
            assert(n =~= p.remove(idx as int));
            assert forall|j: int| 0 <= j < n.len() implies #[trigger] n[j] == (if j < idx {
                p[j]
            } else {
                p[j + 1]
            }) by {}
            assert(ids_unique(n)) by {
                assert forall|a: int, b: int|
                    0 <= a < n.len() && 0 <= b < n.len() && a != b implies #[trigger] n[a].id()
                    != #[trigger] n[b].id() by {
                    let a2 = if a < idx { a } else { a + 1 };
                    let b2 = if b < idx { b } else { b + 1 };
                    assert(o[a2].id() != o[b2].id());
                }
            }
            assert forall|j: int| 0 <= j < n.len() implies m.contains_key(#[trigger] n[j].id())
                && m[n[j].id()] == n[j].relative_set() by {
                let j2 = if j < idx { j } else { j + 1 };
                assert(g.contains_key(o[j2].id()));
                assert(o[j2].id() != value);
            }
            assert forall|k: u64| m.contains_key(k) implies exists|j: int|
                0 <= j < n.len() && n[j].id() == k by {
                let j2 = choose|j: int| 0 <= j < o.len() && o[j].id() == k;
                assert(j2 != idx);
                if j2 < idx {
                    assert(n[j2].id() == k);
                } else {
                    assert(n[j2 - 1].id() == k);
                }
            }
            assert(represents(n, m));
            lemma_represents(n, m);
            assert forall|a: u64, b: u64| #[trigger] has_edge(m, a, b) implies m.contains_key(b) by {
                assert(has_edge(g, a, b));
            }
        }
        Ok(())
    }

    pub fn add_edge(&mut self, from: u64, to: u64) -> (r: Result<(), GraphError>)
        requires
            old(self).wf(),
        ensures
            final(self).wf(),
            !old(self)@.contains_key(from) ==> r == Err::<(), GraphError>(
                GraphError::FromNodeNotFound,
            ),
            old(self)@.contains_key(from) && !old(self)@.contains_key(to) ==> r == Err::<
                (),
                GraphError,
            >(GraphError::ToNodeNotFound),
            r.is_ok() == (old(self)@.contains_key(from) && old(self)@.contains_key(to)),
            r.is_ok() ==> final(self)@ == with_edge(old(self)@, from, to),
            r.is_err() ==> final(self)@ == old(self)@,
    {
        let fi = match self.find(from) {
            Some(fi) => fi,
            None => {
                return Err(GraphError::FromNodeNotFound);
            },
        };
        if !self.is_node_exists(to) {
            return Err(GraphError::ToNodeNotFound);
        }
        let ghost o = self.nodes@;
        self.nodes[fi].add_relative(to);
        proof {
            lemma_view_represents(o);
            self.lemma_update_one(o, fi as int);
        }
        Ok(())
    }

    pub fn remove_edge(&mut self, from: u64, to: u64)
        requires
            old(self).wf(),
        ensures
            final(self).wf(),
            final(self)@ == without_edge(old(self)@, from, to),
    {
        let fi = match self.find(from) {
            Some(fi) => fi,
            None => {
                return ;
            },
        };
        if !self.is_node_exists(to) {
            return ;
        }
        let ghost o = self.nodes@;
        self.nodes[fi].remove_relative(to);
        proof {
            lemma_view_represents(o);
            self.lemma_update_one(o, fi as int);
        }
    }

    /// The traversal state agrees with the stack of nodes in progress and with the
    /// finishing ranks of the nodes already done.
    spec fn cycle_inv(&self, state: Seq<Visit>, stack: Seq<u64>, rank: Map<u64, nat>, next: nat) -> bool {
        let g = self@;
        &&& state.len() == self.nodes@.len()
        &&& forall|i: int|
            0 <= i < state.len() ==> ((#[trigger] state[i] == Visit::Visiting) == stack.contains(
                self.nodes@[i].id(),
            ))
        &&& forall|i: int|
            0 <= i < state.len() ==> ((#[trigger] state[i] == Visit::Done) == rank.contains_key(
                self.nodes@[i].id(),
            ))
        &&& forall|a: u64| #[trigger] rank.contains_key(a) ==> g.contains_key(a)
        &&& forall|k: int| 0 <= k < stack.len() ==> g.contains_key(#[trigger] stack[k])
        &&& forall|k: int| 0 <= k < stack.len() - 1 ==> #[trigger] g[stack[k]].contains(stack[k + 1])
        &&& forall|a: u64| #[trigger] rank.contains_key(a) ==> rank[a] < next
        &&& forall|a: u64, b: u64|
            rank.contains_key(a) && #[trigger] has_edge(g, a, b) ==> rank.contains_key(b) && rank[b]
                < rank[a]
    }

    fn is_cycle_detected(
        &self,
        current: usize,
        state: &mut Vec<Visit>,
        Ghost(stack): Ghost<Seq<u64>>,
        Ghost(rank): Ghost<Map<u64, nat>>,
        Ghost(next): Ghost<nat>,
    ) -> (r: (bool, Ghost<Map<u64, nat>>, Ghost<nat>))
        requires
            self.wf(),
            self.cycle_inv(old(state)@, stack, rank, next),
            current < self.nodes@.len(),
            stack.len() > 0 ==> self@[stack.last()].contains(self.nodes@[current as int].id()),
        ensures
            r.0 ==> has_directed_cycle(self@),
            !r.0 ==> {
                &&& self.cycle_inv(final(state)@, stack, r.1@, r.2@)
                &&& final(state)@[current as int] == Visit::Done
                &&& next <= r.2@
                &&& forall|a: u64| #[trigger] rank.contains_key(a) ==> r.1@.contains_key(a)
                    && r.1@[a] == rank[a]
                &&& forall|i: int|
                    0 <= i < old(state)@.len() && old(state)@[i] != Visit::Unvisited
                        ==> #[trigger] final(state)@[i] == old(state)@[i]
            },
        decreases unvisited_count(old(state)@),
    {
        let ghost g = self@;
        let ghost id = self.nodes@[current as int].id();
        proof {
            lemma_view_represents(self.nodes@);
        }
        if state[current] == Visit::Done {
            return (false, Ghost(rank), Ghost(next));
        }
        if state[current] == Visit::Visiting {
            proof {
                lemma_stack_cycle(g, stack, id);
            }
            return (true, Ghost(rank), Ghost(next));
        }
        let ghost start = state@;
        state[current] = Visit::Visiting;
        proof {
            lemma_unvisited_count_mark(start, current as int, Visit::Visiting);
        }
        let ghost stack2 = stack.push(id);
        proof {
            assert(stack2.last() == id);
            assert forall|x: u64| stack2.contains(x) <==> stack.contains(x) || x == id by {
                if stack.contains(x) {
                    let k = choose|k: int| 0 <= k < stack.len() && stack[k] == x;
                    assert(stack2[k] == x);
                }
                if stack2.contains(x) && x != id {
                    let k = choose|k: int| 0 <= k < stack2.len() && stack2[k] == x;
                    assert(stack[k] == x);
                }
            }
            assert forall|i: int| 0 <= i < state@.len() implies ((#[trigger] state@[i]
                == Visit::Visiting) == stack2.contains(self.nodes@[i].id())) by {
                if i != current {
                    assert(self.nodes@[i].id() != id);
                }
            }
            assert forall|k: int| 0 <= k < stack2.len() - 1 implies #[trigger] g[stack2[k]].contains(
                stack2[k + 1],
            ) by {
                if k < stack.len() - 1 {
                    assert(g[stack[k]].contains(stack[k + 1]));
                }
            }
            assert forall|k: int| 0 <= k < stack2.len() implies g.contains_key(#[trigger] stack2[k]) by {
                if k < stack.len() {
                    assert(g.contains_key(stack[k]));
                }
            }
            assert(self.cycle_inv(state@, stack2, rank, next));
        }
        let ghost mut rank2 = rank;
        let ghost mut next2 = next;
        let node = &self.nodes[current];
        let mut k: usize = 0;
        while k < node.relatives.len()
            invariant
                self.wf(),
                g == self@,
                *node == self.nodes@[current as int],
                id == node.id(),
                current < self.nodes@.len(),
                k <= node.relatives@.len(),
                self.cycle_inv(state@, stack2, rank2, next2),
                state@[current as int] == Visit::Visiting,
                next <= next2,
                forall|a: u64| #[trigger] rank.contains_key(a) ==> rank2.contains_key(a) && rank2[a]
                    == rank[a],
                forall|i: int|
                    0 <= i < start.len() && start[i] != Visit::Unvisited ==> #[trigger] state@[i]
                        == start[i],
                forall|i: int| 0 <= i < start.len() && state@[i] == Visit::Unvisited ==> #[trigger] start[i]
                    == Visit::Unvisited,
                start == old(state)@,
                stack2 == stack.push(id),
                state@.len() == start.len(),
                unvisited_count(state@) < unvisited_count(start),
                forall|j: int| 0 <= j < k ==> rank2.contains_key(#[trigger] node.relatives@[j]),
            decreases node.relatives@.len() - k,
        {
            let relative = node.relatives[k];
            proof {
                assert(node.relatives@.to_set().contains(relative));
                assert(has_edge(g, id, relative));
            }
            if let Some(ri) = self.find(relative) {
                proof {
                    assert(stack2.last() == id);
                    assert(self@[stack2.last()].contains(self.nodes@[ri as int].id()));
                }
                let ghost before = state@;
                let res = self.is_cycle_detected(ri, state, Ghost(stack2), Ghost(rank2), Ghost(next2));
                if res.0 {
                    return (true, Ghost(rank), Ghost(next));
                }
                proof {
                    rank2 = res.1@;
                    next2 = res.2@;
                    assert forall|i: int| 0 <= i < before.len() && state@[i] == Visit::Unvisited
                        implies before[i] == Visit::Unvisited by {
                        if before[i] != Visit::Unvisited {
                            assert(state@[i] == before[i]);
                        }
                    }
                    lemma_unvisited_count_mono(before, state@);
                }
            }
            k = k + 1;
        }
        state[current] = Visit::Done;
        let ghost rank3 = rank2.insert(id, next2);
        proof {
            assert forall|b: u64| #[trigger] has_edge(g, id, b) implies rank2.contains_key(b) by {
                assert(node.relatives@.contains(b));
            }
        }
        (false, Ghost(rank3), Ghost(next2 + 1))
    }

    /// Whether some walk of the graph returns to where it started.
    pub fn has_cycle(&self) -> (r: bool)
        requires
            self.wf(),
        ensures
            r == has_directed_cycle(self@),
    {
        let mut state: Vec<Visit> = Vec::new();
        let mut i: usize = 0;
        while i < self.nodes.len()
            invariant
                i <= self.nodes@.len(),
                state@.len() == i,
                forall|j: int| 0 <= j < i ==> #[trigger] state@[j] == Visit::Unvisited,
            decreases self.nodes@.len() - i,
        {
            state.push(Visit::Unvisited);
            i = i + 1;
        }
        let ghost mut rank: Map<u64, nat> = Map::empty();
        let ghost mut next: nat = 0;
        let mut i: usize = 0;
        while i < self.nodes.len()
            invariant
                self.wf(),
                i <= self.nodes@.len(),
                self.cycle_inv(state@, Seq::empty(), rank, next),
                forall|j: int| 0 <= j < i ==> #[trigger] state@[j] == Visit::Done,
            decreases self.nodes@.len() - i,
        {
            let res = self.is_cycle_detected(i, &mut state, Ghost(Seq::empty()), Ghost(rank), Ghost(next));
            if res.0 {
                return true;
            }
            proof {
                rank = res.1@;
                next = res.2@;
            }
            i = i + 1;
        }
        proof {
            let g = self@;
            lemma_view_represents(self.nodes@);
            assert forall|a: u64| g.contains_key(a) <==> #[trigger] rank.contains_key(a) by {
                if g.contains_key(a) {
                    let j = choose|j: int| 0 <= j < self.nodes@.len() && self.nodes@[j].id() == a;
                    assert(state@[j] == Visit::Done);
                }
            }
            assert(rank.dom() =~= g.dom());
            lemma_ranked_is_acyclic(g, rank);
        }
        false
    }

    /// The traversal state agrees with the stack of nodes in progress and with the
    /// nodes already placed, each placed after what it points at unless a cycle exists.
    spec fn sort_inv(&self, state: Seq<Visit>, stack: Seq<u64>, sorted: Seq<u64>) -> bool {
        let g = self@;
        &&& state.len() == self.nodes@.len()
        &&& forall|i: int|
            0 <= i < state.len() ==> ((#[trigger] state[i] == Visit::Visiting) == stack.contains(
                self.nodes@[i].id(),
            ))
        &&& forall|i: int|
            0 <= i < state.len() ==> ((#[trigger] state[i] == Visit::Done) == sorted.contains(
                self.nodes@[i].id(),
            ))
        &&& sorted.no_duplicates()
        &&& forall|k: int| 0 <= k < sorted.len() ==> g.contains_key(#[trigger] sorted[k])
        &&& forall|k: int| 0 <= k < stack.len() ==> g.contains_key(#[trigger] stack[k])
        &&& forall|k: int| 0 <= k < stack.len() - 1 ==> #[trigger] g[stack[k]].contains(stack[k + 1])
        &&& forall|a: int, b: u64|
            0 <= a < sorted.len() && #[trigger] has_edge(g, sorted[a], b) ==> has_directed_cycle(g)
                || exists|c: int| 0 <= c < a && sorted[c] == b
    }

    fn traverse_for_sort(
        &self,
        current: usize,
        sorted: &mut Vec<u64>,
        state: &mut Vec<Visit>,
        Ghost(stack): Ghost<Seq<u64>>,
    )
        requires
            self.wf(),
            self.sort_inv(old(state)@, stack, old(sorted)@),
            current < self.nodes@.len(),
            stack.len() > 0 ==> self@[stack.last()].contains(self.nodes@[current as int].id()),
        ensures
            self.sort_inv(final(state)@, stack, final(sorted)@),
            final(state)@[current as int] == Visit::Done || has_directed_cycle(self@),
            stack.len() == 0 ==> final(state)@[current as int] == Visit::Done,
            old(sorted)@.len() <= final(sorted)@.len(),
            forall|k: int| 0 <= k < old(sorted)@.len() ==> #[trigger] final(sorted)@[k] == old(sorted)@[k],
            forall|i: int|
                0 <= i < old(state)@.len() && old(state)@[i] != Visit::Unvisited
                    ==> #[trigger] final(state)@[i] == old(state)@[i],
        decreases unvisited_count(old(state)@),
    {
        let ghost g = self@;
        let ghost id = self.nodes@[current as int].id();
        proof {
            lemma_view_represents(self.nodes@);
        }
        if state[current] == Visit::Done {
            return ;
        }
        if state[current] == Visit::Visiting {
            proof {
                lemma_stack_cycle(g, stack, id);
            }
            return ;
        }
        let ghost start = state@;
        let ghost sorted0 = sorted@;
        state[current] = Visit::Visiting;
        proof {
            lemma_unvisited_count_mark(start, current as int, Visit::Visiting);
        }
        let ghost stack2 = stack.push(id);
        proof {
            assert(stack2.last() == id);
            assert forall|x: u64| stack2.contains(x) <==> stack.contains(x) || x == id by {
                if stack.contains(x) {
                    let k = choose|k: int| 0 <= k < stack.len() && stack[k] == x;
                    assert(stack2[k] == x);
                }
                if stack2.contains(x) && x != id {
                    let k = choose|k: int| 0 <= k < stack2.len() && stack2[k] == x;
                    assert(stack[k] == x);
                }
            }
            assert forall|i: int| 0 <= i < state@.len() implies ((#[trigger] state@[i]
                == Visit::Visiting) == stack2.contains(self.nodes@[i].id())) by {
                if i != current {
                    assert(self.nodes@[i].id() != id);
                }
            }
            assert forall|k: int| 0 <= k < stack2.len() - 1 implies #[trigger] g[stack2[k]].contains(
                stack2[k + 1],
            ) by {
                if k < stack.len() - 1 {
                    assert(g[stack[k]].contains(stack[k + 1]));
                }
            }
            assert forall|k: int| 0 <= k < stack2.len() implies g.contains_key(#[trigger] stack2[k]) by {
                if k < stack.len() {
                    assert(g.contains_key(stack[k]));
                }
            }
            assert(self.sort_inv(state@, stack2, sorted@));
        }
        let node = &self.nodes[current];
        let mut k: usize = 0;
        while k < node.relatives.len()
            invariant
                self.wf(),
                g == self@,
                *node == self.nodes@[current as int],
                id == node.id(),
                current < self.nodes@.len(),
                k <= node.relatives@.len(),
                self.sort_inv(state@, stack2, sorted@),
                state@[current as int] == Visit::Visiting,
                start == old(state)@,
                stack2 == stack.push(id),
                state@.len() == start.len(),
                sorted0.len() <= sorted@.len(),
                forall|j: int| 0 <= j < sorted0.len() ==> #[trigger] sorted@[j] == sorted0[j],
                forall|i: int|
                    0 <= i < start.len() && start[i] != Visit::Unvisited ==> #[trigger] state@[i]
                        == start[i],
                unvisited_count(state@) < unvisited_count(start),
                forall|j: int|
                    0 <= j < k ==> sorted@.contains(#[trigger] node.relatives@[j])
                        || has_directed_cycle(g),
            decreases node.relatives@.len() - k,
        {
            let relative = node.relatives[k];
            proof {
                assert(node.relatives@.to_set().contains(relative));
                assert(has_edge(g, id, relative));
            }
            if let Some(ri) = self.find(relative) {
                proof {
                    assert(stack2.last() == id);
                    assert(self@[stack2.last()].contains(self.nodes@[ri as int].id()));
                }
                let ghost before = state@;
                let ghost sorted1 = sorted@;
                self.traverse_for_sort(ri, sorted, state, Ghost(stack2));
                proof {
                    assert forall|i: int| 0 <= i < before.len() && state@[i] == Visit::Unvisited
                        implies before[i] == Visit::Unvisited by {
                        if before[i] != Visit::Unvisited {
                            assert(state@[i] == before[i]);
                        }
                    }
                    lemma_unvisited_count_mono(before, state@);
                    assert forall|j: int| 0 <= j < k implies sorted@.contains(
                        #[trigger] node.relatives@[j],
                    ) || has_directed_cycle(g) by {
                        if sorted1.contains(node.relatives@[j]) {
                            let c = choose|c: int| 0 <= c < sorted1.len() && sorted1[c] == node.relatives@[j];
                            assert(sorted@[c] == sorted1[c]);
                        }
                    }
                    if state@[ri as int] == Visit::Done {
                        assert(sorted@.contains(relative));
                    }
                }
            }
            k = k + 1;
        }
        let ghost sorted2 = sorted@;
        state[current] = Visit::Done;
        sorted.push(self.nodes[current].value);
        proof {
            let n = sorted@;
            assert(n =~= sorted2.push(id));
            assert(!sorted2.contains(id));
            assert forall|x: u64| n.contains(x) <==> sorted2.contains(x) || x == id by {
                if sorted2.contains(x) {
                    let c = choose|c: int| 0 <= c < sorted2.len() && sorted2[c] == x;
                    assert(n[c] == x);
                }
                if n.contains(x) && x != id {
                    let c = choose|c: int| 0 <= c < n.len() && n[c] == x;
                    assert(sorted2[c] == x);
                }
                if x == id {
                    assert(n[sorted2.len() as int] == x);
                }
            }
            assert forall|i: int| 0 <= i < state@.len() implies ((#[trigger] state@[i]
                == Visit::Visiting) == stack.contains(self.nodes@[i].id())) by {
                if i != current {
                    assert(self.nodes@[i].id() != id);
                    assert(stack2.contains(self.nodes@[i].id()) == stack.contains(self.nodes@[i].id()));
                }
            }
            assert forall|i: int| 0 <= i < state@.len() implies ((#[trigger] state@[i]
                == Visit::Done) == n.contains(self.nodes@[i].id())) by {
                if i != current {
                    assert(self.nodes@[i].id() != id);
                }
            }
            assert forall|a: int, b: u64|
                0 <= a < n.len() && #[trigger] has_edge(g, n[a], b) implies has_directed_cycle(g)
                    || exists|c: int| 0 <= c < a && n[c] == b by {
                if a < sorted2.len() {
                    assert(has_edge(g, sorted2[a], b));
                    if !has_directed_cycle(g) {
                        let c = choose|c: int| 0 <= c < a && sorted2[c] == b;
                        assert(n[c] == b);
                    }
                } else {
                    assert(node.relatives@.contains(b));
                    let j = choose|j: int| 0 <= j < node.relatives@.len() && node.relatives@[j] == b;
                    if !has_directed_cycle(g) {
                        assert(sorted2.contains(node.relatives@[j]));
                        let c = choose|c: int| 0 <= c < sorted2.len() && sorted2[c] == b;
                        assert(n[c] == b);
                    }
                }
            }
            assert(n.no_duplicates());
            assert(forall|k: int| 0 <= k < n.len() ==> g.contains_key(#[trigger] n[k]));
            assert(self.sort_inv(state@, stack, n));
        }
    }

    /// Every node in post-order of a depth-first traversal: each node comes after the
    /// nodes it points at, as long as the graph has no cycle.
    pub fn topological_sort(&self) -> (r: Vec<u64>)
        requires
            self.wf(),
        ensures
            r@.no_duplicates(),
            r@.to_set() == self@.dom(),
            !has_directed_cycle(self@) ==> is_dependency_order(self@, r@),
    {
        let mut state: Vec<Visit> = Vec::new();
        let mut i: usize = 0;
        while i < self.nodes.len()
            invariant
                i <= self.nodes@.len(),
                state@.len() == i,
                forall|j: int| 0 <= j < i ==> #[trigger] state@[j] == Visit::Unvisited,
            decreases self.nodes@.len() - i,
        {
            state.push(Visit::Unvisited);
            i = i + 1;
        }
        let mut sorted: Vec<u64> = Vec::new();
        let mut i: usize = 0;
        while i < self.nodes.len()
            invariant
                self.wf(),
                i <= self.nodes@.len(),
                self.sort_inv(state@, Seq::empty(), sorted@),
                forall|j: int| 0 <= j < i ==> #[trigger] state@[j] == Visit::Done,
            decreases self.nodes@.len() - i,
        {
            self.traverse_for_sort(i, &mut sorted, &mut state, Ghost(Seq::empty()));
            i = i + 1;
        }
        proof {
            let g = self@;
            let s = sorted@;
            lemma_view_represents(self.nodes@);
            assert forall|a: u64| g.contains_key(a) <==> #[trigger] s.to_set().contains(a) by {
                if g.contains_key(a) {
                    let j = choose|j: int| 0 <= j < self.nodes@.len() && self.nodes@[j].id() == a;
                    assert(state@[j] == Visit::Done);
                }
                if s.contains(a) {
                    let c = choose|c: int| 0 <= c < s.len() && s[c] == a;
                    assert(g.contains_key(s[c]));
                }
            }
            assert(s.to_set() =~= g.dom());
            if !has_directed_cycle(g) {
                assert forall|i: int, j: int|
                    0 <= i < s.len() && 0 <= j < s.len() && #[trigger] has_edge(g, s[i], s[j]) implies j < i by {
                    let c = choose|c: int| 0 <= c < i && s[c] == s[j];
                }
            }
        }
        sorted
    }

    /// Replacing the relatives of one node changes only that node's entry.
    proof fn lemma_update_one(&self, o: Seq<Node>, k: int)
        requires
            ids_unique(o),
            forall|i: int| 0 <= i < o.len() ==> (#[trigger] o[i]).wf(),
            is_closed(nodes_view(o)),
            0 <= k < o.len(),
            self.nodes@.len() == o.len(),
            self.nodes@[k].wf(),
            self.nodes@[k].id() == o[k].id(),
            self.nodes@[k].relative_set().subset_of(
                o[k].relative_set().union(nodes_view(o).dom()),
            ),
            forall|i: int| 0 <= i < o.len() && i != k ==> self.nodes@[i] == o[i],
        ensures
            self.wf(),
            self@ == nodes_view(o).insert(o[k].id(), self.nodes@[k].relative_set()),
    {
        let n = self.nodes@;
        let g = nodes_view(o);
        let m = g.insert(o[k].id(), n[k].relative_set());
        lemma_view_represents(o);
        assert(ids_unique(n)) by {
            assert forall|a: int, b: int|
                0 <= a < n.len() && 0 <= b < n.len() && a != b implies #[trigger] n[a].id()
                != #[trigger] n[b].id() by {
                assert(o[a].id() != o[b].id());
            }
        }
        assert forall|k2: u64| m.contains_key(k2) implies exists|j: int|
            0 <= j < n.len() && n[j].id() == k2 by {
            if k2 != o[k].id() {
                let j = choose|j: int| 0 <= j < o.len() && o[j].id() == k2;
                assert(n[j].id() == k2);
            } else {
                assert(n[k].id() == k2);
            }
        }
        assert forall|j: int| 0 <= j < n.len() implies m.contains_key(#[trigger] n[j].id())
            && m[n[j].id()] == n[j].relative_set() by {
            if j != k {
                assert(o[j].id() != o[k].id());
                assert(g.contains_key(o[j].id()));
            }
        }
        lemma_represents(n, m);
        assert forall|a: u64, b: u64| #[trigger] has_edge(m, a, b) implies m.contains_key(b) by {
            if a != o[k].id() {
                assert(has_edge(g, a, b));
            } else {
                assert(g[o[k].id()] == o[k].relative_set());
                if o[k].relative_set().contains(b) {
                    assert(has_edge(g, a, b));
                } else {
                    assert(g.dom().contains(b));
                }
            }
        }
        assert(is_closed(m));
        assert forall|i: int| 0 <= i < n.len() implies (#[trigger] n[i]).wf() by {
            if i != k {
                assert(o[i].wf());
            }
        }
    }
}

} // verus!
