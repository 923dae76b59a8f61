//! The graph store: an adjacency-list representation of an undirected graph
//! over signed integer vertex identifiers.
//!
//! Entries are kept in insertion order, so every traversal of the vertex set
//! is deterministic for a fixed sequence of `add_edge` calls. The adjacency
//! relation is kept symmetric by construction: `add_edge` appends each
//! endpoint to the other's neighbor list. Parallel edges duplicate entries
//! and self-loops are kept as given.

use vstd::prelude::*;

verus! {

/// Appending an element to a sequence adds exactly that element to its
/// membership.
pub(crate) proof fn lemma_push_contains(s: Seq<i32>, x: i32, y: i32)
    ensures
        s.push(x).contains(y) <==> (s.contains(y) || x == y),
{
    if s.contains(y) {
        let k = choose|k: int| 0 <= k < s.len() && s[k] == y;
        assert(s.push(x)[k] == y);
    }
    if x == y {
        assert(s.push(x)[s.len() as int] == y);
    }
    if s.push(x).contains(y) {
        let k = choose|k: int| 0 <= k < s.push(x).len() && s.push(x)[k] == y;
        if k < s.len() {
            assert(s[k] == y);
        }
    }
}

/// An undirected graph: each entry pairs a vertex with its neighbor list.
/// Only vertices that occur as an endpoint of at least one edge are present.
pub struct Graph {
    adj: Vec<(i32, Vec<i32>)>,
}

impl Graph {
    /// The vertices of the graph, in insertion order.
    pub closed spec fn vertex_seq(&self) -> Seq<i32> {
        self.adj@.map_values(|p: (i32, Vec<i32>)| p.0)
    }

    /// Whether `v` occurs as an endpoint of some edge.
    pub open spec fn has_vertex(&self, v: i32) -> bool {
        self.vertex_seq().contains(v)
    }

    /// The position of vertex `v` in the vertex sequence (meaningful only
    /// when `has_vertex(v)` holds and the keys are unique).
    pub closed spec fn idx_of(&self, v: i32) -> int {
        choose|i: int| 0 <= i < self.adj@.len() && self.adj@[i].0 == v
    }

    /// The neighbor list of `v`, empty when `v` is not a vertex.
    pub closed spec fn nbrs(&self, v: i32) -> Seq<i32> {
        if self.has_vertex(v) {
            self.adj@[self.idx_of(v)].1@
        } else {
            Seq::empty()
        }
    }

    /// Well-formedness: each vertex has exactly one adjacency entry, and
    /// adjacency is symmetric — whenever `w` is listed as a neighbor of `v`,
    /// `v` is listed as a neighbor of `w`.
    pub open spec fn wf(&self) -> bool {
        &&& self.vertex_seq().no_duplicates()
        &&& forall|v: i32, w: i32|
            #[trigger] self.nbrs(v).contains(w) ==> self.nbrs(w).contains(v)
    }

    /// For a graph with unique keys, position `i` and the vertex stored
    /// there determine each other.
    pub proof fn lemma_entry(&self, i: int)
        requires
            self.vertex_seq().no_duplicates(),
            0 <= i < self.vertex_seq().len(),
        ensures
            self.has_vertex(self.vertex_seq()[i]),
            self.idx_of(self.vertex_seq()[i]) == i,
    {
        let v = self.vertex_seq()[i];
        assert(self.adj@[i].0 == v);
        assert(self.vertex_seq().contains(v));
        let j = self.idx_of(v);
        assert(0 <= j < self.adj@.len() && self.adj@[j].0 == v);
        assert(self.vertex_seq()[j] == v);
        assert(j == i);
    }

    /// In a well-formed graph a listed neighbor is itself a vertex, and
    /// lists the other endpoint in turn.
    pub proof fn lemma_nbr_is_vertex(&self, v: i32, w: i32)
        requires
            self.wf(),
            self.nbrs(v).contains(w),
        ensures
            self.has_vertex(w),
            self.nbrs(w).contains(v),
    {
        assert(self.nbrs(w).contains(v));
        assert(self.nbrs(w).len() > 0);
        if !self.has_vertex(w) {
            assert(self.nbrs(w) =~= Seq::empty());
        }
    }

    /// The number of vertices.
    pub fn len(&self) -> (n: usize)
        ensures
            n == self.vertex_seq().len(),
    {
        self.adj.len()
    }

    /// The vertex stored at position `i` of the vertex sequence.
    pub fn vertex_at(&self, i: usize) -> (v: i32)
        requires
            i < self.vertex_seq().len(),
        ensures
            v == self.vertex_seq()[i as int],
    {
        self.adj[i].0
    }

    /// The position of vertex `v`, or `None` when `v` is not in the graph.
    pub(crate) fn find_index(&self, v: i32) -> (r: Option<usize>)
        requires
            self.vertex_seq().no_duplicates(),
        ensures
            match r {
                Some(i) => i < self.vertex_seq().len() && self.vertex_seq()[i as int] == v
                    && i == self.idx_of(v),
                None => !self.has_vertex(v),
            },
    {
        let n = self.adj.len();
        let mut k: usize = 0;
        while k < n
            invariant
                n == self.vertex_seq().len(),
                k <= n,
                self.vertex_seq().no_duplicates(),
                forall|m: int| 0 <= m < k ==> self.vertex_seq()[m] != v,
            decreases n - k,
        {
            if self.adj[k].0 == v {
                proof {
                    assert(self.vertex_seq()[k as int] == v);
                    self.lemma_entry(k as int);
                }
                return Some(k);
            }
            assert(self.vertex_seq()[k as int] != v);
            k = k + 1;
        }
        proof {
            if self.has_vertex(v) {
                let j = choose|j: int|
                    0 <= j < self.vertex_seq().len() && self.vertex_seq()[j] == v;
                assert(self.vertex_seq()[j] != v);
            }
        }
        None
    }

    /// The neighbor list of `v`, or `None` when `v` has never been an
    /// endpoint of any edge.
    pub fn neighbors(&self, v: i32) -> (r: Option<&Vec<i32>>)
        requires
            self.vertex_seq().no_duplicates(),
        ensures
            match r {
                Some(list) => self.has_vertex(v) && list@ == self.nbrs(v),
                None => !self.has_vertex(v) && self.nbrs(v) == Seq::<i32>::empty(),
            },
    {
        match self.find_index(v) {
            Some(i) => {
                proof {
                    self.lemma_entry(i as int);
                }
                Some(&self.adj[i].1)
            },
            None => {
                proof {
                    assert(self.nbrs(v) =~= Seq::<i32>::empty());
                }
                None
            },
        }
    }

    /// The neighbor list of the vertex at position `i`.
    pub(crate) fn nbrs_at(&self, i: usize) -> (r: &Vec<i32>)
        requires
            self.vertex_seq().no_duplicates(),
            i < self.vertex_seq().len(),
        ensures
            r@ == self.nbrs(self.vertex_seq()[i as int]),
    {
        proof {
            self.lemma_entry(i as int);
        }
        &self.adj[i].1
    }

    /// Appends `w` to the neighbor list of the vertex at position `i`,
    /// leaving the vertex sequence and every other neighbor list unchanged.
    fn push_neighbor(&mut self, i: usize, w: i32)
        requires
            old(self).vertex_seq().no_duplicates(),
            i < old(self).vertex_seq().len(),
        ensures
            final(self).vertex_seq() == old(self).vertex_seq(),
            final(self).nbrs(old(self).vertex_seq()[i as int])
                == old(self).nbrs(old(self).vertex_seq()[i as int]).push(w),
            forall|v: i32| v != old(self).vertex_seq()[i as int]
                ==> final(self).nbrs(v) == old(self).nbrs(v),
    {
        let ghost g0 = *self;
        let ghost u = self.adj@[i as int].0;
        let mut entry = self.adj.remove(i);
        entry.1.push(w);
        self.adj.insert(i, entry);
        proof {
            assert(self.adj@ =~= g0.adj@.update(i as int, (u, entry.1)));
            assert(self.vertex_seq() =~= g0.vertex_seq());
            g0.lemma_entry(i as int);
            self.lemma_entry(i as int);
            assert(self.nbrs(u) =~= g0.nbrs(u).push(w));
            assert forall|v: i32| v != u implies self.nbrs(v) == g0.nbrs(v) by {
                assert(self.has_vertex(v) == g0.has_vertex(v));
                if g0.has_vertex(v) {
                    let j = choose|j: int|
                        0 <= j < g0.vertex_seq().len() && g0.vertex_seq()[j] == v;
                    g0.lemma_entry(j);
                    self.lemma_entry(j);
                    assert(j != i);
                    assert(self.nbrs(v) =~= g0.nbrs(v));
                } else {
                    assert(self.nbrs(v) =~= Seq::<i32>::empty());
                    assert(g0.nbrs(v) =~= Seq::<i32>::empty());
                }
            }
        }
    }

    /// Returns the position of `v`, first creating an entry with an empty
    /// neighbor list when `v` is not yet present.
    fn ensure_vertex(&mut self, v: i32) -> (i: usize)
        requires
            old(self).vertex_seq().no_duplicates(),
        ensures
            final(self).vertex_seq().no_duplicates(),
            old(self).has_vertex(v) ==> final(self).vertex_seq() == old(self).vertex_seq(),
            !old(self).has_vertex(v)
                ==> final(self).vertex_seq() == old(self).vertex_seq().push(v),
            forall|w: i32| final(self).nbrs(w) == old(self).nbrs(w),
            i < final(self).vertex_seq().len(),
            final(self).vertex_seq()[i as int] == v,
    {
        let ghost g0 = *self;
        match self.find_index(v) {
            Some(i) => i,
            None => {
                let i = self.adj.len();
                self.adj.push((v, Vec::new()));
                proof {
                    assert(self.vertex_seq() =~= g0.vertex_seq().push(v));
                    assert(self.vertex_seq()[i as int] == v);
                    assert forall|k: int, m: int|
                        0 <= k < m < self.vertex_seq().len()
                        implies self.vertex_seq()[k] != self.vertex_seq()[m] by {
                        if m < i {
                            assert(g0.vertex_seq()[k] != g0.vertex_seq()[m]);
                        } else {
                            assert(self.vertex_seq()[m] == v);
                            assert(g0.vertex_seq()[k] == self.vertex_seq()[k]);
                            if self.vertex_seq()[k] == v {
                                assert(g0.has_vertex(v));
                            }
                        }
                    }
                    assert(self.vertex_seq().no_duplicates());
                    assert forall|w: i32| self.nbrs(w) == g0.nbrs(w) by {
                        if w == v {
                            self.lemma_entry(i as int);
                            assert(self.nbrs(v) =~= Seq::<i32>::empty());
                            assert(g0.nbrs(v) =~= Seq::<i32>::empty());
                        } else {
                            assert(self.has_vertex(w) == g0.has_vertex(w)) by {
                                if self.has_vertex(w) {
                                    let j = choose|j: int|
                                        0 <= j < self.vertex_seq().len()
                                        && self.vertex_seq()[j] == w;
                                    assert(j != i);
                                    assert(g0.vertex_seq()[j] == w);
                                }
                                if g0.has_vertex(w) {
                                    let j = choose|j: int|
                                        0 <= j < g0.vertex_seq().len()
                                        && g0.vertex_seq()[j] == w;
                                    assert(self.vertex_seq()[j] == w);
                                }
                            }
                            if g0.has_vertex(w) {
                                let j = choose|j: int|
                                    0 <= j < g0.vertex_seq().len() && g0.vertex_seq()[j] == w;
                                g0.lemma_entry(j);
                                self.lemma_entry(j);
                                assert(self.nbrs(w) =~= g0.nbrs(w));
                            } else {
                                assert(self.nbrs(w) =~= Seq::<i32>::empty());
                                assert(g0.nbrs(w) =~= Seq::<i32>::empty());
                            }
                        }
                    }
                }
                i
            },
        }
    }

    /// Records the undirected edge `(from, to)`: `to` is appended to
    /// `from`'s neighbor list and `from` to `to`'s, creating entries for
    /// endpoints not seen before. Parallel edges and self-loops are kept;
    /// a self-loop appends the vertex to its own list twice.
    pub fn add_edge(&mut self, from: i32, to: i32)
        requires
            old(self).wf(),
        ensures
            final(self).wf(),
            final(self).has_vertex(from),
            final(self).has_vertex(to),
            final(self).vertex_seq() == old(self).vertex_seq()
                + (if old(self).has_vertex(from) { Seq::<i32>::empty() } else { seq![from] })
                + (if old(self).has_vertex(to) || to == from { Seq::<i32>::empty() } else {
                    seq![to]
                }),
            from != to ==> final(self).nbrs(from) == old(self).nbrs(from).push(to),
            from != to ==> final(self).nbrs(to) == old(self).nbrs(to).push(from),
            from == to ==> final(self).nbrs(from) == old(self).nbrs(from).push(to).push(from),
            forall|v: i32| v != from && v != to ==> final(self).nbrs(v) == old(self).nbrs(v),
    {
        let ghost g0 = *self;
        let i = self.ensure_vertex(from);
        self.push_neighbor(i, to);
        let j = self.ensure_vertex(to);
        self.push_neighbor(j, from);
        proof {
            assert(self.vertex_seq() == g0.vertex_seq()
                + (if g0.has_vertex(from) { Seq::<i32>::empty() } else { seq![from] })
                + (if g0.has_vertex(to) || to == from { Seq::<i32>::empty() } else {
                    seq![to]
                })) by {
                lemma_push_contains(g0.vertex_seq(), from, to);
                lemma_push_contains(g0.vertex_seq(), from, from);
                if g0.has_vertex(from) {
                    if g0.has_vertex(to) || to == from {
                        assert(self.vertex_seq() =~= g0.vertex_seq() + Seq::<i32>::empty()
                            + Seq::<i32>::empty());
                    } else {
                        assert(self.vertex_seq() =~= g0.vertex_seq() + Seq::<i32>::empty()
                            + seq![to]);
                    }
                } else {
                    if g0.has_vertex(to) || to == from {
                        assert(self.vertex_seq() =~= g0.vertex_seq() + seq![from]
                            + Seq::<i32>::empty());
                    } else {
                        assert(self.vertex_seq() =~= g0.vertex_seq() + seq![from] + seq![to]);
                    }
                }
            }
            assert(self.has_vertex(from));
            assert(self.has_vertex(to));
            if from != to {
                assert(self.nbrs(from) == g0.nbrs(from).push(to));
                assert(self.nbrs(to) == g0.nbrs(to).push(from));
            } else {
                assert(self.nbrs(from) == g0.nbrs(from).push(to).push(from));
            }
            assert(forall|v: i32| v != from && v != to ==> self.nbrs(v) == g0.nbrs(v));
            assert forall|x: i32, y: i32| g0.nbrs(x).contains(y)
                implies #[trigger] self.nbrs(x).contains(y) by {
                if x == from {
                    lemma_push_contains(g0.nbrs(from), to, y);
                    if from == to {
                        lemma_push_contains(g0.nbrs(from).push(to), from, y);
                    }
                } else if x == to {
                    lemma_push_contains(g0.nbrs(to), from, y);
                }
            }
            assert forall|v: i32, w: i32| #[trigger] self.nbrs(v).contains(w)
                implies self.nbrs(w).contains(v) by {
                if v == from && from == to {
                    lemma_push_contains(g0.nbrs(from), to, w);
                    lemma_push_contains(g0.nbrs(from).push(to), from, w);
                    if g0.nbrs(v).contains(w) {
                        assert(g0.nbrs(w).contains(v));
                    } else {
                        assert(w == from);
                        lemma_push_contains(g0.nbrs(from).push(to), from, from);
                    }
                } else if v == from {
                    lemma_push_contains(g0.nbrs(from), to, w);
                    if g0.nbrs(v).contains(w) {
                        assert(g0.nbrs(w).contains(v));
                    } else {
                        assert(w == to);
                        lemma_push_contains(g0.nbrs(to), from, from);
                    }
                } else if v == to {
                    lemma_push_contains(g0.nbrs(to), from, w);
                    if g0.nbrs(v).contains(w) {
                        assert(g0.nbrs(w).contains(v));
                    } else {
                        assert(w == from);
                        lemma_push_contains(g0.nbrs(from), to, to);
                    }
                } else {
                    assert(self.nbrs(v) == g0.nbrs(v));
                    assert(g0.nbrs(w).contains(v));
                }
            }
        }
    }

    /// A vertex that is not in the graph has no neighbors.
    pub proof fn lemma_absent_no_nbrs(&self, v: i32)
        requires
            !self.has_vertex(v),
        ensures
            self.nbrs(v) == Seq::<i32>::empty(),
    {
        assert(self.nbrs(v) =~= Seq::<i32>::empty());
    }

    /// Creates an empty graph.
    pub fn new() -> (g: Graph)
        ensures
            g.vertex_seq() == Seq::<i32>::empty(),
            forall|v: i32| #[trigger] g.nbrs(v) == Seq::<i32>::empty(),
            g.wf(),
    {
        let g = Graph { adj: Vec::new() };
        proof {
            assert(g.vertex_seq() =~= Seq::<i32>::empty());
            assert(forall|v: i32| !g.has_vertex(v));
            assert forall|v: i32| #[trigger] g.nbrs(v) == Seq::<i32>::empty() by {
                assert(g.nbrs(v) =~= Seq::<i32>::empty());
            }
            assert(forall|v: i32, w: i32| !(#[trigger] g.nbrs(v).contains(w)));
        }
        g
    }
}

} // verus!
