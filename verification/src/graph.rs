//! The graph store: an undirected simple graph over the vertices `0..size`,
//! kept as one neighbour list per vertex.

use vstd::prelude::*;

verus! {

/// Whether `v` stands in the neighbour list of `u`.
pub open spec fn adjacent(adj: Seq<Seq<usize>>, u: usize, v: usize) -> bool {
    u < adj.len() && adj[u as int].contains(v)
}

/// The neighbour lists describe an undirected simple graph: every neighbour is
/// a vertex, no vertex neighbours itself, the relation is symmetric, and no
/// list names a vertex twice.
pub open spec fn well_formed(adj: Seq<Seq<usize>>) -> bool {
    &&& forall|u: usize, v: usize| #[trigger]
        adjacent(adj, u, v) ==> v < adj.len() && u != v && adjacent(adj, v, u)
    &&& forall|u: int| 0 <= u < adj.len() ==> #[trigger] adj[u].no_duplicates()
}

/// The number of vertices and the length of each neighbour list are numbers of the machine.
pub open spec fn fits(adj: Seq<Seq<usize>>) -> bool {
    &&& adj.len() <= usize::MAX
    &&& forall|u: int| 0 <= u < adj.len() ==> (#[trigger] adj[u]).len() <= usize::MAX
}

/// Position of `v` in `list`, or the length of `list` where `v` does not occur.
pub open spec fn position(list: Seq<usize>, v: usize) -> int
    decreases list.len(),
{
    if list.len() == 0 || list[0] == v {
        0
    } else {
        1 + position(list.drop_first(), v)
    }
}

/// The position of `v` is the first index at which `list` holds `v`.
pub proof fn lemma_position(list: Seq<usize>, v: usize)
    ensures
        0 <= position(list, v) <= list.len(),
        forall|k: int| 0 <= k < position(list, v) ==> list[k] != v,
        position(list, v) < list.len() ==> list[position(list, v)] == v,
        position(list, v) < list.len() <==> list.contains(v),
    decreases list.len(),
{
    if list.len() == 0 || list[0] == v {
    } else {
        let rest = list.drop_first();
        lemma_position(rest, v);
        assert forall|k: int| 0 <= k < position(list, v) implies list[k] != v by {
            if k > 0 {
                assert(list[k] == rest[k - 1]);
            }
        }
        if list.contains(v) {
            let k = choose|k: int| 0 <= k < list.len() && list[k] == v;
            assert(rest[k - 1] == v);
        }
    }
}

/// An undirected simple graph over the vertices `0..size`.
pub struct Graph {
    adjacency: Vec<Vec<usize>>,
}

impl View for Graph {
    type V = Seq<Seq<usize>>;

    /// The neighbour lists, by vertex, each in its order.
    closed spec fn view(&self) -> Seq<Seq<usize>> {
        Seq::new(self.adjacency@.len(), |u: int| self.adjacency@[u]@)
    }
}

impl Graph {
    /// The neighbour lists describe an undirected simple graph.
    pub open spec fn wf(&self) -> bool {
        well_formed(self@)
    }

    /// The edges, each in both directions.
    pub open spec fn edges(&self) -> Set<(usize, usize)> {
        Set::new(|e: (usize, usize)| adjacent(self@, e.0, e.1))
    }

    /// The neighbour lists of a graph fit the machine.
    pub proof fn lemma_fits(&self)
        ensures
            fits(self@),
    {
        assert(self.adjacency.len() <= usize::MAX);
        assert forall|u: int| 0 <= u < self@.len() implies (#[trigger] self@[u]).len()
            <= usize::MAX by {
            assert(self.adjacency@[u].len() <= usize::MAX);
        }
    }

    /// A graph of `size` vertices and no edges.
    pub fn new(size: usize) -> (graph: Graph)
        ensures
            graph.wf(),
            graph@.len() == size,
            forall|u: int| 0 <= u < size ==> #[trigger] graph@[u] == Seq::<usize>::empty(),
    {
        let mut adjacency: Vec<Vec<usize>> = Vec::new();
        let mut u: usize = 0;
        while u < size
            invariant
                u <= size,
                adjacency@.len() == u,
                forall|w: int| 0 <= w < u ==> #[trigger] adjacency@[w]@ == Seq::<usize>::empty(),
            decreases size - u,
        {
            adjacency.push(Vec::new());
            u += 1;
        }
        let graph = Graph { adjacency };
        assert forall|w: int| 0 <= w < size implies #[trigger] graph@[w] == Seq::<usize>::empty() by {
            assert(graph@[w] == adjacency@[w]@);
        }
        graph
    }

    /// The number of vertices.
    pub fn size(&self) -> (n: usize)
        ensures
            n == self@.len(),
    {
        self.adjacency.len()
    }

    /// The neighbours of `u`.
    pub fn neighbors(&self, u: usize) -> (list: &Vec<usize>)
        requires
            u < self@.len(),
        ensures
            list@ == self@[u as int],
    {
        &self.adjacency[u]
    }

    /// Whether `u` and `v` are joined by an edge. A pair that names no vertex is not.
    pub fn has_edge(&self, u: usize, v: usize) -> (found: bool)
        ensures
            found == adjacent(self@, u, v),
    {
        if u >= self.adjacency.len() {
            return false;
        }
        let list = &self.adjacency[u];
        let mut k: usize = 0;
        while k < list.len()
            invariant
                u < self@.len(),
                list@ == self@[u as int],
                k <= list@.len(),
                forall|j: int| 0 <= j < k ==> list@[j] != v,
            decreases list@.len() - k,
        {
            if list[k] == v {
                assert(self@[u as int][k as int] == v);
                return true;
            }
            k += 1;
        }
        false
    }

    /// Joins `u` and `v`, which are two vertices not yet joined: each is
    /// appended to the other's neighbour list.
    pub fn add_edge(&mut self, u: usize, v: usize)
        requires
            old(self).wf(),
            u < old(self)@.len(),
            v < old(self)@.len(),
            u != v,
            !adjacent(old(self)@, u, v),
        ensures
            final(self).wf(),
            final(self)@ == old(self)@.update(u as int, old(self)@[u as int].push(v)).update(
                v as int,
                old(self)@[v as int].push(u),
            ),
            forall|a: usize, b: usize| #[trigger]
                adjacent(final(self)@, a, b) <==> adjacent(old(self)@, a, b) || (a == u && b == v)
                    || (a == v && b == u),
            final(self).edges() == old(self).edges().insert((u, v)).insert((v, u)),
    {
        self.adjacency[u].push(v);
        self.adjacency[v].push(u);
        proof {
            let before = old(self)@;
            let after = self@;
            assert(after =~= before.update(u as int, before[u as int].push(v)).update(
                v as int,
                before[v as int].push(u),
            ));
            assert(before[u as int].push(v) =~= before[u as int].insert(
                before[u as int].len() as int,
                v,
            ));
            assert(before[v as int].push(u) =~= before[v as int].insert(
                before[v as int].len() as int,
                u,
            ));
            lemma_adjacent_after_insert(
                before,
                u,
                v,
                before[u as int].len() as int,
                before[v as int].len() as int,
            );
            assert(self.edges() =~= old(self).edges().insert((u, v)).insert((v, u)));
        }
    }

    /// Joins `u` and `v`, which are two vertices not yet joined: `v` is put at
    /// the place `at_u` of the neighbour list of `u`, and `u` at the place
    /// `at_v` of that of `v`.
    pub fn insert_edge(&mut self, u: usize, v: usize, at_u: usize, at_v: usize)
        requires
            old(self).wf(),
            u < old(self)@.len(),
            v < old(self)@.len(),
            u != v,
            !adjacent(old(self)@, u, v),
            at_u <= old(self)@[u as int].len(),
            at_v <= old(self)@[v as int].len(),
        ensures
            final(self).wf(),
            final(self)@ == old(self)@.update(
                u as int,
                old(self)@[u as int].insert(at_u as int, v),
            ).update(v as int, old(self)@[v as int].insert(at_v as int, u)),
            forall|a: usize, b: usize| #[trigger]
                adjacent(final(self)@, a, b) <==> adjacent(old(self)@, a, b) || (a == u && b == v)
                    || (a == v && b == u),
            final(self).edges() == old(self).edges().insert((u, v)).insert((v, u)),
    {
        self.adjacency[u].insert(at_u, v);
        self.adjacency[v].insert(at_v, u);
        proof {
            let before = old(self)@;
            let after = self@;
            assert(after =~= before.update(u as int, before[u as int].insert(at_u as int, v)).update(
                v as int,
                before[v as int].insert(at_v as int, u),
            ));
            lemma_adjacent_after_insert(before, u, v, at_u as int, at_v as int);
            assert(self.edges() =~= old(self).edges().insert((u, v)).insert((v, u)));
        }
    }

    /// Parts `u` and `v`, which are joined: each leaves the other's neighbour
    /// list, and the lists keep their order otherwise.
    pub fn remove_edge(&mut self, u: usize, v: usize)
        requires
            old(self).wf(),
            adjacent(old(self)@, u, v),
        ensures
            final(self).wf(),
            final(self)@ == old(self)@.update(
                u as int,
                old(self)@[u as int].remove(position(old(self)@[u as int], v)),
            ).update(v as int, old(self)@[v as int].remove(position(old(self)@[v as int], u))),
            forall|a: usize, b: usize| #[trigger]
                adjacent(final(self)@, a, b) <==> adjacent(old(self)@, a, b) && !(a == u && b == v)
                    && !(a == v && b == u),
            final(self).edges() == old(self).edges().remove((u, v)).remove((v, u)),
    {
        proof {
            lemma_position(self@[u as int], v);
            lemma_position(self@[v as int], u);
        }
        let i = self.locate(u, v);
        self.adjacency[u].remove(i);
        let j = self.locate(v, u);
        self.adjacency[v].remove(j);
        proof {
            let before = old(self)@;
            let after = self@;
            assert(after =~= before.update(
                u as int,
                before[u as int].remove(position(before[u as int], v)),
            ).update(v as int, before[v as int].remove(position(before[v as int], u))));
            lemma_adjacent_after_remove(before, u, v);
            assert(self.edges() =~= old(self).edges().remove((u, v)).remove((v, u)));
        }
    }

    /// The place of `v` in the neighbour list of `u`, which holds it.
    pub fn locate(&self, u: usize, v: usize) -> (k: usize)
        requires
            adjacent(self@, u, v),
        ensures
            k == position(self@[u as int], v),
            k < self@[u as int].len(),
    {
        let list = &self.adjacency[u];
        proof {
            lemma_position(list@, v);
        }
        let mut k: usize = 0;
        while k < list.len() && list[k] != v
            invariant
                u < self@.len(),
                list@ == self@[u as int],
                k <= position(list@, v) < list@.len(),
            decreases list@.len() - k,
        {
            proof {
                lemma_position(list@, v);
            }
            k += 1;
        }
        proof {
            lemma_position(list@, v);
        }
        k
    }
}

/// What `adjacent` says after `v` is put into the list of `u` and `u` into that of `v`.
#[verifier::rlimit(50)]
pub proof fn lemma_adjacent_after_insert(
    adj: Seq<Seq<usize>>,
    u: usize,
    v: usize,
    at_u: int,
    at_v: int,
)
    requires
        well_formed(adj),
        u < adj.len(),
        v < adj.len(),
        u != v,
        !adjacent(adj, u, v),
        0 <= at_u <= adj[u as int].len(),
        0 <= at_v <= adj[v as int].len(),
    ensures
        ({
            let next = adj.update(u as int, adj[u as int].insert(at_u, v)).update(
                v as int,
                adj[v as int].insert(at_v, u),
            );
            &&& well_formed(next)
            &&& forall|a: usize, b: usize| #[trigger]
                adjacent(next, a, b) <==> adjacent(adj, a, b) || (a == u && b == v) || (a == v && b
                    == u)
        }),
{
    let next = adj.update(u as int, adj[u as int].insert(at_u, v)).update(
        v as int,
        adj[v as int].insert(at_v, u),
    );
    assert(!adjacent(adj, v, u));
    assert(adj[u as int].no_duplicates());
    assert(adj[v as int].no_duplicates());
    assert forall|a: usize, b: usize| #[trigger]
        adjacent(next, a, b) <==> adjacent(adj, a, b) || (a == u && b == v) || (a == v && b
            == u) by {
        if a < adj.len() && (a == u || a == v) {
            let come = if a == u { v } else { u };
            let at = if a == u { at_u } else { at_v };
            let old_list = adj[a as int];
            let new_list = next[a as int];
            assert(new_list == old_list.insert(at, come));
            assert(new_list[at] == come);
            if old_list.contains(b) {
                let k = choose|k: int| 0 <= k < old_list.len() && old_list[k] == b;
                if k < at {
                    assert(new_list[k] == b);
                } else {
                    assert(new_list[k + 1] == b);
                }
            }
            if new_list.contains(b) && b != come {
                let k = choose|k: int| 0 <= k < new_list.len() && new_list[k] == b;
                if k < at {
                    assert(old_list[k] == b);
                } else {
                    assert(old_list[k - 1] == b);
                }
            }
        }
    }
    assert forall|a: int| 0 <= a < next.len() implies #[trigger] next[a].no_duplicates() by {
        assert(adj[a].no_duplicates());
        if a == u || a == v {
            let come = if a == u { v } else { u };
            let at = if a == u { at_u } else { at_v };
            let old_list = adj[a];
            let new_list = next[a];
            assert(new_list == old_list.insert(at, come));
            assert(!old_list.contains(come));
            assert forall|x: int, y: int| 0 <= x < new_list.len() && 0 <= y < new_list.len() && x
                != y implies new_list[x] != new_list[y] by {
                let ox = if x < at { x } else { x - 1 };
                let oy = if y < at { y } else { y - 1 };
                if x != at && y != at {
                    assert(new_list[x] == old_list[ox]);
                    assert(new_list[y] == old_list[oy]);
                } else if x == at {
                    assert(new_list[y] == old_list[oy]);
                } else {
                    assert(new_list[x] == old_list[ox]);
                }
            }
        }
    }
}

/// What `adjacent` says after `v` leaves the list of `u` and `u` that of `v`.
#[verifier::rlimit(50)]
pub proof fn lemma_adjacent_after_remove(adj: Seq<Seq<usize>>, u: usize, v: usize)
    requires
        well_formed(adj),
        adjacent(adj, u, v),
    ensures
        ({
            let next = adj.update(
                u as int,
                adj[u as int].remove(position(adj[u as int], v)),
            ).update(v as int, adj[v as int].remove(position(adj[v as int], u)));
            &&& well_formed(next)
            &&& forall|a: usize, b: usize| #[trigger]
                adjacent(next, a, b) <==> adjacent(adj, a, b) && !(a == u && b == v) && !(a == v
                    && b == u)
        }),
{
    let next = adj.update(u as int, adj[u as int].remove(position(adj[u as int], v))).update(
        v as int,
        adj[v as int].remove(position(adj[v as int], u)),
    );
    assert(adjacent(adj, v, u));
    lemma_position(adj[u as int], v);
    lemma_position(adj[v as int], u);
    assert(adj[u as int].no_duplicates());
    assert(adj[v as int].no_duplicates());
    assert forall|a: usize, b: usize| #[trigger]
        adjacent(next, a, b) <==> adjacent(adj, a, b) && !(a == u && b == v) && !(a == v && b
            == u) by {
        if a < adj.len() && (a == u || a == v) {
            let gone = if a == u { v } else { u };
            let old_list = adj[a as int];
            let new_list = next[a as int];
            let p = position(old_list, gone);
            assert(new_list == old_list.remove(p));
            if new_list.contains(b) {
                let k = choose|k: int| 0 <= k < new_list.len() && new_list[k] == b;
                if k < p {
                    assert(old_list[k] == b);
                } else {
                    assert(old_list[k + 1] == b);
                }
            }
            if old_list.contains(b) && b != gone {
                let k = choose|k: int| 0 <= k < old_list.len() && old_list[k] == b;
                if k < p {
                    assert(new_list[k] == b);
                } else {
                    assert(new_list[k - 1] == b);
                }
            }
        }
    }
    assert forall|a: int| 0 <= a < next.len() implies #[trigger] next[a].no_duplicates() by {
        assert(adj[a].no_duplicates());
    }
}

} // verus!
