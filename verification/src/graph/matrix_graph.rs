//! A graph kept in an adjacency matrix: the vertices have places, and the matrix says for
//! each pair of places whether an edge joins them.

use crate::cloning::{clones_of, exact_clone, lemma_exact_clones};
use crate::graph::reach::{
    lemma_closed_set_holds_all, lemma_places_fit, lemma_reaches_further, lemma_reaches_itself,
    picked, reaches, visits_all,
};
use std::collections::VecDeque;
use vstd::prelude::*;

verus! {

pub struct GraphAdjMatrix<T> {
    pub vertices: Vec<T>,
    pub adj_mat: Vec<Vec<i32>>,
}

/// The places that a queue of places holds.
pub open spec fn places(queue: Seq<usize>) -> Seq<int> {
    queue.map_values(|place: usize| place as int)
}

/// `seen` names the places that are marked, each once: the first place first, and none that
/// cannot be reached from it.
pub open spec fn seen_so_far(
    edge: spec_fn(int, int) -> bool,
    n: int,
    visited: Seq<bool>,
    seen: Seq<int>,
) -> bool {
    &&& seen.no_duplicates()
    &&& seen.len() > 0
    &&& seen[0] == 0
    &&& forall|k: int| 0 <= k < seen.len() ==> 0 <= #[trigger] seen[k] && seen[k] < n
    &&& forall|k: int| 0 <= k < seen.len() ==> reaches(edge, 0, #[trigger] seen[k])
    &&& forall|v: int| 0 <= v < n ==> (#[trigger] visited[v] <==> seen.contains(v))
}

/// What is one edge behind one of the first `done` places of `order` is marked.
pub open spec fn closed_so_far(
    edge: spec_fn(int, int) -> bool,
    n: int,
    visited: Seq<bool>,
    order: Seq<int>,
    done: int,
) -> bool {
    forall|k: int, v: int|
        0 <= k < done && 0 <= v < n && #[trigger] edge(order[k], v) ==> visited[v]
}

/// What is one edge behind one of the places of `order` from place `from` on is marked.
pub open spec fn closed_from(
    edge: spec_fn(int, int) -> bool,
    n: int,
    visited: Seq<bool>,
    order: Seq<int>,
    from: int,
) -> bool {
    forall|k: int, v: int|
        from <= k < order.len() && 0 <= v < n && #[trigger] edge(order[k], v) ==> visited[v]
}

/// `order` names the places that are marked, each once, and none that cannot be reached
/// from the first place.
pub open spec fn marked(
    edge: spec_fn(int, int) -> bool,
    n: int,
    visited: Seq<bool>,
    order: Seq<int>,
) -> bool {
    &&& visited.len() == n
    &&& order.no_duplicates()
    &&& forall|k: int| 0 <= k < order.len() ==> 0 <= #[trigger] order[k] && order[k] < n
    &&& forall|k: int| 0 <= k < order.len() ==> reaches(edge, 0, #[trigger] order[k])
    &&& forall|v: int| 0 <= v < n ==> (#[trigger] visited[v] <==> order.contains(v))
}

/// Once what is one edge behind a place of `order` is marked for all of them, `order`
/// names all that can be reached.
pub proof fn lemma_visited_all(
    edge: spec_fn(int, int) -> bool,
    n: int,
    visited: Seq<bool>,
    order: Seq<int>,
)
    requires
        visited.len() == n,
        seen_so_far(edge, n, visited, order),
        closed_so_far(edge, n, visited, order, order.len() as int),
        forall|u: int, v: int| #[trigger] edge(u, v) ==> 0 <= u < n && 0 <= v < n,
    ensures
        visits_all(edge, 0, order),
{
    let set = order.to_set();
    assert(order.contains(order[0]));
    assert forall|u: int, v: int| set.contains(u) && #[trigger] edge(u, v) implies set.contains(
        v,
    ) by {
        let k = choose|k: int| 0 <= k < order.len() && order[k] == u;
        assert(edge(order[k], v));
        assert(visited[v]);
    }
    assert forall|v: int| order.contains(v) <==> reaches(edge, 0, v) by {
        if order.contains(v) {
            let k = choose|k: int| 0 <= k < order.len() && order[k] == v;
            assert(reaches(edge, 0, order[k]));
        }
        if reaches(edge, 0, v) {
            lemma_closed_set_holds_all(edge, 0, set, v);
        }
    }
}

impl<T> GraphAdjMatrix<T> {
    /// The matrix has a row and a column for each vertex.
    pub open spec fn wf(&self) -> bool {
        &&& self.adj_mat@.len() == self.vertices@.len()
        &&& forall|i: int|
            0 <= i < self.adj_mat@.len() ==> (#[trigger] self.adj_mat@[i])@.len()
                == self.vertices@.len()
    }

    /// An edge leads from place `i` to place `j`.
    pub open spec fn edge(&self, i: int, j: int) -> bool {
        &&& 0 <= i < self.vertices@.len()
        &&& 0 <= j < self.vertices@.len()
        &&& self.adj_mat@[i]@[j] != 0
    }

    /// The edges as a relation between places.
    pub open spec fn edges(&self) -> spec_fn(int, int) -> bool {
        |i: int, j: int| self.edge(i, j)
    }
}

impl<T: Clone> GraphAdjMatrix<T> {
    /// The graph of the given vertices and edges; an edge names the places of its two ends,
    /// which must be two places of `vertices`.
    pub fn new(vertices: Vec<T>, edges: Vec<[usize; 2]>) -> (graph: Self)
        requires
            forall|k: int|
                0 <= k < edges@.len() ==> (#[trigger] edges@[k])[0] < vertices@.len()
                    && edges@[k][1] < vertices@.len() && edges@[k][0] != edges@[k][1],
        ensures
            graph.wf(),
            graph.vertices@ == vertices@,
            forall|i: int, j: int|
                graph.edge(i, j) <==> 0 <= i < vertices@.len() && 0 <= j < vertices@.len()
                    && exists|k: int|
                    0 <= k < edges@.len() && ((#[trigger] edges@[k])[0] == i && edges@[k][1] == j
                        || edges@[k][0] == j && edges@[k][1] == i),
    {
        let mut graph = Self { vertices: Vec::new(), adj_mat: Vec::new() };
        let ghost wanted = vertices@;
        let n = vertices.len();
        for v in it: vertices
            invariant
                it.seq() == wanted,
                graph.wf(),
                graph.vertices@ == wanted.take(it.index() as int),
                forall|i: int, j: int| !graph.edge(i, j),
        {
            assert(wanted.take(it.index() + 1) =~= wanted.take(it.index() as int).push(v));
            graph.add_vertex(v);
        }
        assert(wanted.take(wanted.len() as int) =~= wanted);

        let mut k: usize = 0;
        while k < edges.len()
            invariant
                k <= edges@.len(),
                graph.wf(),
                graph.vertices@ == wanted,
                forall|e: int|
                    0 <= e < edges@.len() ==> (#[trigger] edges@[e])[0] < wanted.len()
                        && edges@[e][1] < wanted.len() && edges@[e][0] != edges@[e][1],
                forall|i: int, j: int|
                    graph.edge(i, j) <==> 0 <= i < wanted.len() && 0 <= j < wanted.len()
                        && exists|e: int|
                        0 <= e < k && ((#[trigger] edges@[e])[0] == i && edges@[e][1] == j
                            || edges@[e][0] == j && edges@[e][1] == i),
            decreases edges@.len() - k,
        {
            let i = edges[k][0];
            let j = edges[k][1];
            let ghost before = graph;
            graph.add_edge(i, j);
            proof {
                assert forall|a: int, b: int|
                    graph.edge(a, b) <==> 0 <= a < wanted.len() && 0 <= b < wanted.len()
                        && exists|e: int|
                        0 <= e < k + 1 && ((#[trigger] edges@[e])[0] == a && edges@[e][1] == b
                            || edges@[e][0] == b && edges@[e][1] == a) by {
                    if graph.edge(a, b) {
                        if before.edge(a, b) {
                            let e = choose|e: int|
                                0 <= e < k && ((#[trigger] edges@[e])[0] == a && edges@[e][1] == b
                                    || edges@[e][0] == b && edges@[e][1] == a);
                            assert(0 <= e < k + 1);
                        } else {
                            assert(edges@[k as int][0] == i);
                        }
                    }
                    if 0 <= a < wanted.len() && 0 <= b < wanted.len() && exists|e: int|
                        0 <= e < k + 1 && ((#[trigger] edges@[e])[0] == a && edges@[e][1] == b
                            || edges@[e][0] == b && edges@[e][1] == a) {
                        let e = choose|e: int|
                            0 <= e < k + 1 && ((#[trigger] edges@[e])[0] == a && edges@[e][1] == b
                                || edges@[e][0] == b && edges@[e][1] == a);
                        if e < k {
                            assert(before.edge(a, b));
                        }
                    }
                }
            }
            k += 1;
        }
        graph
    }

    pub fn size(&self) -> (n: usize)
        ensures
            n == self.vertices@.len(),
    {
        self.vertices.len()
    }

    /// Adds a vertex, which no edge joins to another yet.
    pub fn add_vertex(&mut self, val: T)
        requires
            old(self).wf(),
        ensures
            final(self).wf(),
            final(self).vertices@ == old(self).vertices@.push(val),
            forall|i: int, j: int| final(self).edge(i, j) <==> old(self).edge(i, j),
    {
        let n = self.size();
        self.vertices.push(val);
        let mut row: Vec<i32> = Vec::new();
        let mut k: usize = 0;
        while k < n
            invariant
                k <= n,
                row@.len() == k,
                forall|j: int| 0 <= j < k ==> row@[j] == 0,
            decreases n - k,
        {
            row.push(0);
            k += 1;
        }
        self.adj_mat.push(row);
        let mut i: usize = 0;
        while i < self.adj_mat.len()
            invariant
                i <= self.adj_mat@.len(),
                self.adj_mat@.len() == n + 1,
                self.vertices@ == old(self).vertices@.push(val),
                n == old(self).vertices@.len(),
                old(self).wf(),
                forall|r: int| 0 <= r < i ==> (#[trigger] self.adj_mat@[r])@.len() == n + 1,
                forall|r: int| i <= r <= n ==> (#[trigger] self.adj_mat@[r])@.len() == n,
                forall|r: int, c: int|
                    0 <= r < n && 0 <= c < n ==> #[trigger] self.adj_mat@[r]@[c] == old(
                        self,
                    ).adj_mat@[r]@[c],
                forall|c: int| 0 <= c < n ==> self.adj_mat@[n as int]@[c] == 0,
                forall|r: int| 0 <= r < i ==> (#[trigger] self.adj_mat@[r])@[n as int] == 0,
            decreases self.adj_mat@.len() - i,
        {
            self.adj_mat[i].push(0);
            i += 1;
        }
    }

    /// Takes the vertex at place `index` out, with its edges; the vertices behind it move
    /// one place forward.
    pub fn remove_vertex(&mut self, index: usize)
        requires
            old(self).wf(),
            index < old(self).vertices@.len(),
        ensures
            final(self).wf(),
            final(self).vertices@ == old(self).vertices@.remove(index as int),
            forall|i: int, j: int|
                final(self).edge(i, j) <==> 0 <= i && 0 <= j && old(self).edge(
                    if i < index {
                        i
                    } else {
                        i + 1
                    },
                    if j < index {
                        j
                    } else {
                        j + 1
                    },
                ),
    {
        let n = self.size();
        self.vertices.remove(index);
        self.adj_mat.remove(index);
        let mut i: usize = 0;
        while i < self.adj_mat.len()
            invariant
                i <= self.adj_mat@.len(),
                index < n,
                self.adj_mat@.len() == n - 1,
                n == old(self).vertices@.len(),
                old(self).wf(),
                self.vertices@ == old(self).vertices@.remove(index as int),
                forall|r: int|
                    0 <= r < i ==> (#[trigger] self.adj_mat@[r])@ == old(self).adj_mat@[if r
                        < index {
                        r
                    } else {
                        r + 1
                    }]@.remove(index as int),
                forall|r: int|
                    i <= r < n - 1 ==> (#[trigger] self.adj_mat@[r])@ == old(self).adj_mat@[if r
                        < index {
                        r
                    } else {
                        r + 1
                    }]@,
            decreases self.adj_mat@.len() - i,
        {
            self.adj_mat[i].remove(index);
            i += 1;
        }
    }

    /// Joins the places `i` and `j` by an edge.
    pub fn add_edge(&mut self, i: usize, j: usize)
        requires
            old(self).wf(),
            i < old(self).vertices@.len(),
            j < old(self).vertices@.len(),
            i != j,
        ensures
            final(self).wf(),
            final(self).vertices@ == old(self).vertices@,
            forall|a: int, b: int|
                final(self).edge(a, b) <==> old(self).edge(a, b) || (a == i && b == j) || (a == j
                    && b == i),
    {
        self.adj_mat[i][j] = 1;
        self.adj_mat[j][i] = 1;
    }

    /// Takes the edge between the places `i` and `j` away.
    pub fn remove_edge(&mut self, i: usize, j: usize)
        requires
            old(self).wf(),
            i < old(self).vertices@.len(),
            j < old(self).vertices@.len(),
            i != j,
        ensures
            final(self).wf(),
            final(self).vertices@ == old(self).vertices@,
            forall|a: int, b: int|
                final(self).edge(a, b) <==> old(self).edge(a, b) && !(a == i && b == j) && !(a
                    == j && b == i),
    {
        self.adj_mat[i][j] = 0;
        self.adj_mat[j][i] = 0;
    }

    /// The vertices that can be reached from the first one, each once, the first one first:
    /// a vertex is taken from the front of a queue, and those of its neighbours that were
    /// not seen yet are put at the back.
    pub fn bfs(&self) -> (result: Vec<T>)
        requires
            self.wf(),
        ensures
            self.vertices@.len() == 0 ==> result@.len() == 0,
            self.vertices@.len() > 0 ==> exists|order: Seq<int>|
                visits_all(self.edges(), 0, order) && #[trigger] clones_of(
                    picked(self.vertices@, order),
                    result@,
                ),
            self.vertices@.len() > 0 && exact_clone::<T>() ==> exists|order: Seq<int>|
                visits_all(self.edges(), 0, order) && result@ == #[trigger] picked(
                    self.vertices@,
                    order,
                ),
    {
        let mut result: Vec<T> = Vec::new();
        let n = self.size();
        if n == 0 {
            return result;
        }
        let mut que: VecDeque<usize> = VecDeque::new();
        que.push_back(0);
        let mut visited = Self::none_visited(n);
        visited.set(0, true);

        let ghost edge = self.edges();
        let ghost mut order: Seq<int> = Seq::empty();
        proof {
            let seen = order + places(que@);
            lemma_reaches_itself(edge, 0int);
            assert(seen =~= seq![0int]);
            assert(seen[0] == 0);
        }
        while que.len() > 0
            invariant
                self.wf(),
                n == self.vertices@.len(),
                edge == self.edges(),
                visited@.len() == n,
                seen_so_far(edge, n as int, visited@, order + places(que@)),
                closed_so_far(edge, n as int, visited@, order, order.len() as int),
                clones_of(picked(self.vertices@, order), result@),
            decreases n - order.len(),
        {
            let ghost waiting = places(que@);
            proof {
                lemma_places_fit(order + waiting, n as int);
            }
            let idx = que.pop_front().unwrap();
            proof {
                assert((order + waiting)[order.len() as int] == idx);
                assert(order + waiting =~= order.push(idx as int) + places(que@));
            }
            let item = self.vertices[idx].clone();
            assert(cloned(self.vertices@[idx as int], item));
            let ghost copied = result@;
            let ghost earlier = order;
            result.push(item);
            proof {
                order = order.push(idx as int);
                assert forall|k: int| 0 <= k < order.len() implies cloned(
                    #[trigger] picked(self.vertices@, order)[k],
                    result@[k],
                ) by {
                    if k < earlier.len() {
                        assert(picked(self.vertices@, order)[k] == picked(
                            self.vertices@,
                            earlier,
                        )[k]);
                        assert(cloned(picked(self.vertices@, earlier)[k], copied[k]));
                        assert(result@[k] == copied[k]);
                    } else {
                        assert(picked(self.vertices@, order)[k] == self.vertices@[idx as int]);
                        assert(result@[k] == item);
                    }
                }
            }

            let mut adj: usize = 0;
            while adj < n
                invariant
                    self.wf(),
                    n == self.vertices@.len(),
                    edge == self.edges(),
                    visited@.len() == n,
                    adj <= n,
                    idx < n,
                    order.len() > 0,
                    order.last() == idx,
                    seen_so_far(edge, n as int, visited@, order + places(que@)),
                    closed_so_far(edge, n as int, visited@, order, order.len() - 1),
                    clones_of(picked(self.vertices@, order), result@),
                    forall|v: int| 0 <= v < adj && edge(idx as int, v) ==> visited@[v],
                decreases n - adj,
            {
                if self.adj_mat[idx][adj] != 0 && !visited[adj] {
                    let ghost before = order + places(que@);
                    que.push_back(adj);
                    visited.set(adj, true);
                    proof {
                        let after = order + places(que@);
                        assert(after =~= before.push(adj as int));
                        assert(before.contains(idx as int)) by {
                            assert(before[order.len() - 1] == idx);
                        }
                        lemma_reaches_further(edge, 0int, idx as int, adj as int);
                        assert forall|v: int| 0 <= v < n implies (visited@[v] <==> after.contains(
                            v,
                        )) by {
                            if v == adj {
                                assert(after[after.len() - 1] == v);
                            } else if before.contains(v) {
                                let k = choose|k: int| 0 <= k < before.len() && before[k] == v;
                                assert(after[k] == v);
                            } else if after.contains(v) {
                                let k = choose|k: int| 0 <= k < after.len() && after[k] == v;
                                assert(before[k] == v);
                            }
                        }
                        assert(!before.contains(adj as int));
                    }
                }
                adj += 1;
            }
            proof {
                assert forall|k: int, v: int|
                    0 <= k < order.len() && 0 <= v < n && #[trigger] edge(
                        order[k],
                        v,
                    ) implies visited@[v] by {
                    if k == order.len() - 1 {
                        assert(order[k] == idx);
                    }
                }
            }
        }
        proof {
            assert(order + places(que@) =~= order);
            lemma_visited_all(edge, n as int, visited@, order);
            if exact_clone::<T>() {
                lemma_exact_clones(picked(self.vertices@, order), result@);
            }
        }
        result
    }

    /// The vertices that can be reached from the first one, each once, the first one first:
    /// from a vertex the search goes on to each neighbour in turn that was not seen yet,
    /// and comes back when that neighbour is done.
    pub fn dfs(&self) -> (result: Vec<T>)
        requires
            self.wf(),
        ensures
            self.vertices@.len() == 0 ==> result@.len() == 0,
            self.vertices@.len() > 0 ==> exists|order: Seq<int>|
                visits_all(self.edges(), 0, order) && #[trigger] clones_of(
                    picked(self.vertices@, order),
                    result@,
                ),
            self.vertices@.len() > 0 && exact_clone::<T>() ==> exists|order: Seq<int>|
                visits_all(self.edges(), 0, order) && result@ == #[trigger] picked(
                    self.vertices@,
                    order,
                ),
    {
        let mut res: Vec<T> = Vec::new();
        let n = self.size();
        let mut visited = Self::none_visited(n);
        let ghost edge = self.edges();
        proof {
            lemma_reaches_itself(edge, 0int);
        }
        let Ghost(order) = self._dfs(&mut res, &mut visited, 0, Ghost(Seq::empty()));
        proof {
            if n > 0 {
                assert(order[0] == 0);
                assert(order.contains(order[0]));
                let set = order.to_set();
                assert forall|u: int, v: int| set.contains(u) && #[trigger] edge(
                    u,
                    v,
                ) implies set.contains(v) by {
                    let k = choose|k: int| 0 <= k < order.len() && order[k] == u;
                    assert(edge(order[k], v));
                    assert(visited@[v]);
                }
                assert forall|v: int| order.contains(v) <==> reaches(edge, 0, v) by {
                    if order.contains(v) {
                        let k = choose|k: int| 0 <= k < order.len() && order[k] == v;
                        assert(reaches(edge, 0, order[k]));
                    }
                    if reaches(edge, 0, v) {
                        lemma_closed_set_holds_all(edge, 0, set, v);
                    }
                }
                if exact_clone::<T>() {
                    lemma_exact_clones(picked(self.vertices@, order), res@);
                }
            }
        }
        res
    }

    /// Visits `start_vertex` and what can be reached from it over vertices that were not
    /// seen yet; `order` names what was seen before, and what comes back names that and
    /// what was seen by this visit.
    fn _dfs(
        &self,
        res: &mut Vec<T>,
        visited: &mut Vec<bool>,
        start_vertex: usize,
        Ghost(order): Ghost<Seq<int>>,
    ) -> (seen: Ghost<Seq<int>>)
        requires
            self.wf(),
            marked(self.edges(), self.vertices@.len() as int, old(visited)@, order),
            clones_of(picked(self.vertices@, order), old(res)@),
            start_vertex < self.vertices@.len() ==> !old(visited)@[start_vertex as int] && reaches(
                self.edges(),
                0,
                start_vertex as int,
            ),
        ensures
            marked(self.edges(), self.vertices@.len() as int, final(visited)@, seen@),
            clones_of(picked(self.vertices@, seen@), final(res)@),
            seen@.len() >= order.len(),
            seen@.take(order.len() as int) == order,
            closed_from(
                self.edges(),
                self.vertices@.len() as int,
                final(visited)@,
                seen@,
                order.len() as int,
            ),
            start_vertex < self.vertices@.len() ==> seen@.len() > order.len() && seen@[order.len() as int]
                == start_vertex,
            start_vertex >= self.vertices@.len() ==> seen@ == order,
        decreases self.vertices@.len() - order.len(),
    {
        let n = self.vertices.len();
        if start_vertex >= n {
            assert(order.take(order.len() as int) =~= order);
            return Ghost(order);
        }
        let ghost edge = self.edges();
        let ghost first = order.len() as int;
        let item = self.vertices[start_vertex].clone();
        assert(cloned(self.vertices@[start_vertex as int], item));
        let ghost copied = res@;
        res.push(item);
        let ghost marks = visited@;
        visited.set(start_vertex, true);
        let ghost mut seen = order.push(start_vertex as int);
        proof {
            assert(seen.take(first) =~= order);
            assert forall|k: int| 0 <= k < seen.len() implies cloned(
                #[trigger] picked(self.vertices@, seen)[k],
                res@[k],
            ) by {
                if k < first {
                    assert(picked(self.vertices@, seen)[k] == picked(self.vertices@, order)[k]);
                    assert(cloned(picked(self.vertices@, order)[k], copied[k]));
                }
            }
            assert forall|v: int| 0 <= v < n implies (#[trigger] visited@[v] <==> seen.contains(
                v,
            )) by {
                if v == start_vertex {
                    assert(seen[first] == v);
                } else if order.contains(v) {
                    let k = choose|k: int| 0 <= k < order.len() && order[k] == v;
                    assert(seen[k] == v);
                } else if seen.contains(v) {
                    let k = choose|k: int| 0 <= k < seen.len() && seen[k] == v;
                    assert(order[k] == v);
                }
            }
            assert(!order.contains(start_vertex as int));
        }

        let mut adj: usize = 0;
        while adj < n
            invariant
                self.wf(),
                n == self.vertices@.len(),
                edge == self.edges(),
                adj <= n,
                start_vertex < n,
                first == order.len(),
                marked(edge, n as int, visited@, seen),
                clones_of(picked(self.vertices@, seen), res@),
                seen.len() > first,
                seen.take(first) == order,
                seen[first] == start_vertex,
                closed_from(edge, n as int, visited@, seen, first + 1),
                forall|v: int| 0 <= v < adj && edge(start_vertex as int, v) ==> visited@[v],
            decreases n - adj,
        {
            if self.adj_mat[start_vertex][adj] != 0 && !visited[adj] {
                let ghost before = seen;
                let ghost marks_before = visited@;
                proof {
                    lemma_places_fit(seen, n as int);
                    assert(reaches(edge, 0, seen[first]));
                    lemma_reaches_further(edge, 0int, start_vertex as int, adj as int);
                }
                let Ghost(after) = self._dfs(res, visited, adj, Ghost(seen));
                proof {
                    seen = after;
                    assert(seen.take(first) =~= before.take(first)) by {
                        assert(seen.take(before.len() as int) == before);
                        assert forall|k: int| 0 <= k < first implies seen.take(first)[k]
                            == before.take(first)[k] by {
                            assert(seen.take(before.len() as int)[k] == before[k]);
                        }
                    }
                    assert(seen[first] == seen.take(before.len() as int)[first]);
                    assert forall|v: int| 0 <= v < n && marks_before[v] implies visited@[v] by {
                        let k = choose|k: int| 0 <= k < before.len() && before[k] == v;
                        assert(seen.take(before.len() as int)[k] == v);
                        assert(seen[k] == v);
                    }
                    assert forall|k: int, v: int|
                        first + 1 <= k < seen.len() && 0 <= v < n && #[trigger] edge(
                            seen[k],
                            v,
                        ) implies visited@[v] by {
                        if k < before.len() {
                            assert(seen[k] == seen.take(before.len() as int)[k]);
                            assert(edge(before[k], v));
                            assert(marks_before[v]);
                        }
                    }
                    assert(seen[before.len() as int] == adj);
                    assert(seen.contains(adj as int));
                    assert forall|v: int| 0 <= v <= adj && edge(
                        start_vertex as int,
                        v,
                    ) implies visited@[v] by {
                        if v < adj {
                            assert(marks_before[v]);
                        }
                    }
                }
            }
            adj += 1;
        }
        proof {
            assert forall|k: int, v: int|
                first <= k < seen.len() && 0 <= v < n && #[trigger] edge(
                    seen[k],
                    v,
                ) implies visited@[v] by {
                if k == first {
                    assert(edge(start_vertex as int, v));
                }
            }
        }
        Ghost(seen)
    }

    /// As many marks as there are vertices, none of them set.
    fn none_visited(n: usize) -> (visited: Vec<bool>)
        ensures
            visited@.len() == n,
            forall|v: int| 0 <= v < n ==> !visited@[v],
    {
        let mut visited: Vec<bool> = Vec::new();
        let mut k: usize = 0;
        while k < n
            invariant
                k <= n,
                visited@.len() == k,
                forall|v: int| 0 <= v < k ==> !visited@[v],
            decreases n - k,
        {
            visited.push(false);
            k += 1;
        }
        visited
    }
}

} // verus!
