//! A graph kept in adjacency lists: each vertex has the list of its neighbours.

use crate::cloning::exact_clone;
use crate::graph::reach::{
    lemma_order_fits, lemma_reaches_further, lemma_reaches_itself, lemma_reaches_transitive,
    lemma_visits_all, neighbours_visited, reaches, visited_so_far, visits_all,
};
use std::collections::HashSet;
use std::collections::VecDeque;
use std::collections::HashMap;
use std::hash::Hash;
use vstd::laws_eq::obeys_concrete_eq;
use vstd::prelude::*;
use vstd::std_specs::hash::obeys_key_model;
use vstd::std_specs::iter::IteratorSpec;

verus! {

broadcast use vstd::std_specs::hash::group_hash_axioms;

pub struct GraphAdjList<T> {
    pub adj_list: HashMap<T, Vec<T>>,
}

/// The vertices can be keys of a hash map, are equal where `==` says so, and are cloned
/// exactly.
pub open spec fn plain_vertices<T: Clone + PartialEq>() -> bool {
    &&& obeys_key_model::<T>()
    &&& obeys_concrete_eq::<T>()
    &&& exact_clone::<T>()
}

/// `list` without the entries that are `v`.
pub open spec fn without<T>(list: Seq<T>, v: T) -> Seq<T>
    decreases list.len(),
{
    if list.len() == 0 {
        Seq::empty()
    } else if list.last() == v {
        without(list.drop_last(), v)
    } else {
        without(list.drop_last(), v).push(list.last())
    }
}

/// `list` with `v` behind it, unless it holds `v` already.
pub open spec fn with_entry<T>(list: Seq<T>, v: T) -> Seq<T> {
    if list.contains(v) {
        list
    } else {
        list.push(v)
    }
}

/// The lists with a vertex `v`, which has no neighbour where it is new.
pub open spec fn with_vertex<T>(lists: Map<T, Seq<T>>, v: T) -> Map<T, Seq<T>> {
    if lists.contains_key(v) {
        lists
    } else {
        lists.insert(v, Seq::empty())
    }
}

/// The lists with `a` and `b` as neighbours of each other.
pub open spec fn with_edge<T>(lists: Map<T, Seq<T>>, a: T, b: T) -> Map<T, Seq<T>> {
    let first = lists.insert(a, with_entry(lists[a], b));
    first.insert(b, with_entry(first[b], a))
}

/// The lists with `a` and `b` no longer neighbours of each other.
pub open spec fn without_edge<T>(lists: Map<T, Seq<T>>, a: T, b: T) -> Map<T, Seq<T>> {
    let first = lists.insert(a, without(lists[a], b));
    first.insert(b, without(first[b], a))
}

/// The lists without the vertex `v`, which is no neighbour of another any more.
pub open spec fn without_vertex<T>(lists: Map<T, Seq<T>>, v: T) -> Map<T, Seq<T>> {
    Map::new(|k: T| lists.contains_key(k) && k != v, |k: T| without(lists[k], v))
}

/// The lists of the graph made of the first `count` of the given edges.
pub open spec fn built<T>(edges: Seq<[T; 2]>, count: nat) -> Map<T, Seq<T>>
    decreases count,
{
    if count == 0 {
        Map::empty()
    } else {
        let edge = edges[count - 1];
        with_edge(
            with_vertex(with_vertex(built(edges, (count - 1) as nat), edge[0]), edge[1]),
            edge[0],
            edge[1],
        )
    }
}

/// Every entry of every list is a vertex.
pub open spec fn closed<T>(lists: Map<T, Seq<T>>) -> bool {
    forall|v: T, i: int|
        lists.contains_key(v) && 0 <= i < lists[v].len() ==> lists.contains_key(
            #[trigger] lists[v][i],
        )
}

/// What `without` leaves are entries of the list other than `v`, and every such entry is
/// left.
pub proof fn lemma_without<T>(list: Seq<T>, v: T)
    ensures
        forall|x: T| without(list, v).contains(x) <==> list.contains(x) && x != v,
        without(list, v).len() <= list.len(),
        !list.contains(v) ==> without(list, v) == list,
    decreases list.len(),
{
    if list.len() > 0 {
        let rest = list.drop_last();
        let last = list.last();
        let short = without(rest, v);
        let whole = without(list, v);
        lemma_without(rest, v);
        assert forall|x: T| whole.contains(x) <==> list.contains(x) && x != v by {
            if list.contains(x) && x != v {
                let i = choose|i: int| 0 <= i < list.len() && list[i] == x;
                if i < rest.len() {
                    assert(rest[i] == x);
                    assert(rest.contains(x));
                    assert(short.contains(x));
                    let j = choose|j: int| 0 <= j < short.len() && short[j] == x;
                    assert(whole[j] == x);
                } else {
                    assert(last == x);
                    assert(whole[whole.len() - 1] == x);
                }
            }
            if whole.contains(x) {
                let j = choose|j: int| 0 <= j < whole.len() && whole[j] == x;
                if j < short.len() {
                    assert(short[j] == x);
                    assert(short.contains(x));
                    assert(rest.contains(x));
                    let i = choose|i: int| 0 <= i < rest.len() && rest[i] == x;
                    assert(list[i] == x);
                } else {
                    assert(last != v);
                    assert(x == last);
                    assert(list[list.len() - 1] == x);
                }
            }
        }
        if !list.contains(v) {
            assert(list[list.len() - 1] != v);
            assert(!rest.contains(v)) by {
                if rest.contains(v) {
                    let i = choose|i: int| 0 <= i < rest.len() && rest[i] == v;
                    assert(list[i] == v);
                }
            }
            assert(whole =~= list);
        }
    }
}

/// Lists whose entries are vertices stay so when a vertex is added.
pub proof fn lemma_with_vertex_closed<T>(lists: Map<T, Seq<T>>, v: T)
    requires
        closed(lists),
    ensures
        closed(with_vertex(lists, v)),
        with_vertex(lists, v).contains_key(v),
        forall|k: T| lists.contains_key(k) ==> with_vertex(lists, v).contains_key(k),
{
    let after = with_vertex(lists, v);
    assert forall|u: T, i: int|
        after.contains_key(u) && 0 <= i < after[u].len() implies after.contains_key(
        #[trigger] after[u][i],
    ) by {
        if lists.contains_key(u) {
            assert(lists.contains_key(lists[u][i]));
        }
    }
}

/// Lists whose entries are vertices stay so when two vertices become neighbours.
pub proof fn lemma_with_edge_closed<T>(lists: Map<T, Seq<T>>, a: T, b: T)
    requires
        closed(lists),
        lists.contains_key(a),
        lists.contains_key(b),
    ensures
        closed(with_edge(lists, a, b)),
{
    let first = lists.insert(a, with_entry(lists[a], b));
    let after = with_edge(lists, a, b);
    assert forall|u: T, i: int|
        first.contains_key(u) && 0 <= i < first[u].len() implies first.contains_key(
        #[trigger] first[u][i],
    ) by {
        if u == a {
            if i < lists[a].len() {
                assert(lists.contains_key(lists[a][i]));
            }
        } else {
            assert(lists.contains_key(lists[u][i]));
        }
    }
    assert forall|u: T, i: int|
        after.contains_key(u) && 0 <= i < after[u].len() implies after.contains_key(
        #[trigger] after[u][i],
    ) by {
        if u == b {
            if i < first[b].len() {
                assert(first.contains_key(first[b][i]));
            }
        } else {
            assert(first.contains_key(first[u][i]));
        }
    }
}

/// Lists whose entries are vertices stay so when two vertices are no neighbours any more.
pub proof fn lemma_without_edge_closed<T>(lists: Map<T, Seq<T>>, a: T, b: T)
    requires
        closed(lists),
        lists.contains_key(a),
        lists.contains_key(b),
    ensures
        closed(without_edge(lists, a, b)),
{
    let first = lists.insert(a, without(lists[a], b));
    let after = without_edge(lists, a, b);
    lemma_without(lists[a], b);
    lemma_without(first[b], a);
    assert forall|u: T, i: int|
        first.contains_key(u) && 0 <= i < first[u].len() implies first.contains_key(
        #[trigger] first[u][i],
    ) by {
        let x = first[u][i];
        assert(first[u].contains(x));
        assert(lists[u].contains(x));
        let j = choose|j: int| 0 <= j < lists[u].len() && lists[u][j] == x;
        assert(lists.contains_key(lists[u][j]));
    }
    assert forall|u: T, i: int|
        after.contains_key(u) && 0 <= i < after[u].len() implies after.contains_key(
        #[trigger] after[u][i],
    ) by {
        let x = after[u][i];
        assert(after[u].contains(x));
        assert(first[u].contains(x));
        let j = choose|j: int| 0 <= j < first[u].len() && first[u][j] == x;
        assert(first.contains_key(first[u][j]));
    }
}

/// Lists whose entries are vertices stay so when a vertex is taken out.
pub proof fn lemma_without_vertex_closed<T>(lists: Map<T, Seq<T>>, v: T)
    requires
        closed(lists),
    ensures
        closed(without_vertex(lists, v)),
{
    let after = without_vertex(lists, v);
    assert forall|u: T, i: int|
        after.contains_key(u) && 0 <= i < after[u].len() implies after.contains_key(
        #[trigger] after[u][i],
    ) by {
        lemma_without(lists[u], v);
        let x = after[u][i];
        assert(without(lists[u], v).contains(x));
        assert(lists[u].contains(x) && x != v);
        let j = choose|j: int| 0 <= j < lists[u].len() && lists[u][j] == x;
        assert(lists.contains_key(lists[u][j]));
    }
}

impl<T> GraphAdjList<T> {
    /// The neighbours of each vertex, in the order of its list.
    pub open spec fn lists(&self) -> Map<T, Seq<T>> {
        Map::new(|v: T| self.adj_list@.contains_key(v), |v: T| self.adj_list@[v]@)
    }

    /// Every entry of every list is a vertex.
    pub open spec fn wf(&self) -> bool {
        closed(self.lists())
    }

    /// An edge leads from `u` to `v`.
    pub open spec fn edge(&self, u: T, v: T) -> bool {
        self.lists().contains_key(u) && self.lists()[u].contains(v)
    }

    /// The edges as a relation between vertices.
    pub open spec fn edges(&self) -> spec_fn(T, T) -> bool {
        |u: T, v: T| self.edge(u, v)
    }
}

/// The vertices that a queue of references refers to.
pub open spec fn waiting<T>(queue: Seq<&T>) -> Seq<T> {
    queue.map_values(|vertex: &T| *vertex)
}

/// The vertices that a sequence names once one more was put behind it.
proof fn lemma_push_to_set<T>(order: Seq<T>, v: T)
    ensures
        order.push(v).to_set() == order.to_set().insert(v),
{
    let longer = order.push(v);
    assert forall|x: T| longer.contains(x) <==> order.contains(x) || x == v by {
        if order.contains(x) {
            let k = choose|k: int| 0 <= k < order.len() && order[k] == x;
            assert(longer[k] == x);
        }
        if x == v {
            assert(longer[longer.len() - 1] == x);
        }
        if longer.contains(x) {
            let k = choose|k: int| 0 <= k < longer.len() && longer[k] == x;
            if k < order.len() {
                assert(order[k] == x);
            }
        }
    }
    assert(longer.to_set() =~= order.to_set().insert(v));
}

/// Whether `a` and `b` are the same vertex.
fn same<T: PartialEq>(a: &T, b: &T) -> (r: bool)
    requires
        obeys_concrete_eq::<T>(),
    ensures
        r == (*a == *b),
{
    reveal(obeys_concrete_eq);
    *a == *b
}

/// Whether `list` holds `v`.
fn holds<T: PartialEq + Clone>(list: &Vec<T>, v: &T) -> (r: bool)
    requires
        plain_vertices::<T>(),
    ensures
        r == list@.contains(*v),
{
    let mut i: usize = 0;
    while i < list.len()
        invariant
            i <= list@.len(),
            obeys_concrete_eq::<T>(),
            forall|k: int| 0 <= k < i ==> list@[k] != *v,
        decreases list@.len() - i,
    {
        if same(&list[i], v) {
            return true;
        }
        i += 1;
    }
    false
}

/// `list` without the entries that are `v`.
fn drop_entry<T: PartialEq + Clone>(list: Vec<T>, v: &T) -> (r: Vec<T>)
    requires
        plain_vertices::<T>(),
    ensures
        r@ == without(list@, *v),
{
    let ghost input = list@;
    let mut kept: Vec<T> = Vec::new();
    for item in it: list
        invariant
            it.seq() == input,
            obeys_concrete_eq::<T>(),
            kept@ == without(input.take(it.index() as int), *v),
    {
        assert(input.take(it.index() + 1).drop_last() =~= input.take(it.index() as int));
        if !same(&item, v) {
            kept.push(item);
        }
    }
    assert(input.take(input.len() as int) =~= input);
    kept
}

impl<T: Eq + Hash + Clone> GraphAdjList<T> {
    /// The graph of the given edges: each names its two ends, which must differ.
    pub fn new(edges: Vec<[T; 2]>) -> (graph: Self)
        requires
            plain_vertices::<T>(),
            forall|k: int| 0 <= k < edges@.len() ==> (#[trigger] edges@[k])[0] != edges@[k][1],
        ensures
            graph.lists() == built(edges@, edges@.len()),
            graph.wf(),
    {
        let mut graph = Self { adj_list: HashMap::new() };
        assert(graph.lists() =~= built(edges@, 0));
        let mut k: usize = 0;
        while k < edges.len()
            invariant
                plain_vertices::<T>(),
                k <= edges@.len(),
                forall|e: int| 0 <= e < edges@.len() ==> (#[trigger] edges@[e])[0] != edges@[e][1],
                graph.lists() == built(edges@, k as nat),
                graph.wf(),
            decreases edges@.len() - k,
        {
            let v1 = edges[k][0].clone();
            let v2 = edges[k][1].clone();
            assert(cloned(edges@[k as int][0], v1));
            assert(cloned(edges@[k as int][1], v2));
            let key1 = v1.clone();
            let key2 = v2.clone();
            assert(cloned(v1, key1));
            assert(cloned(v2, key2));
            proof {
                lemma_with_vertex_closed(graph.lists(), v1);
                lemma_with_vertex_closed(with_vertex(graph.lists(), v1), v2);
                lemma_with_edge_closed(with_vertex(with_vertex(graph.lists(), v1), v2), v1, v2);
            }
            graph.add_vertex(key1);
            graph.add_vertex(key2);
            graph.add_edge(v1, v2);
            k += 1;
        }
        graph
    }

    /// Takes the vertex `vet` out, and out of the lists of the others.
    pub fn remove_vertex(&mut self, vet: T)
        requires
            plain_vertices::<T>(),
            old(self).lists().contains_key(vet),
        ensures
            final(self).lists() == without_vertex(old(self).lists(), vet),
            old(self).wf() ==> final(self).wf(),
    {
        let ghost before = self.lists();
        self.adj_list.remove(&vet);
        let keys = self.vertex_list();
        let mut i: usize = 0;
        while i < keys.len()
            invariant
                plain_vertices::<T>(),
                i <= keys@.len(),
                keys@.no_duplicates(),
                keys@.to_set() == before.dom().remove(vet),
                self.lists().dom() == before.dom().remove(vet),
                forall|j: int|
                    0 <= j < i ==> self.lists()[#[trigger] keys@[j]] == without(
                        before[keys@[j]],
                        vet,
                    ),
                forall|j: int|
                    i <= j < keys@.len() ==> self.lists()[#[trigger] keys@[j]] == before[keys@[j]],
            decreases keys@.len() - i,
        {
            let key = keys[i].clone();
            assert(cloned(keys@[i as int], key));
            proof {
                assert(keys@.to_set().contains(keys@[i as int]));
            }
            let ghost lists_before = self.lists();
            let list = self.adj_list.remove(&key).unwrap();
            let list = drop_entry(list, &vet);
            self.adj_list.insert(key, list);
            proof {
                assert(self.lists().dom() =~= before.dom().remove(vet));
                assert forall|j: int| 0 <= j < keys@.len() && j != i implies self.lists()[keys@[j]]
                    == lists_before[keys@[j]] by {
                    assert(keys@[j] != keys@[i as int]);
                }
            }
            i += 1;
        }
        proof {
            assert forall|k: T| self.lists().contains_key(k) implies self.lists()[k] == without(
                before[k],
                vet,
            ) by {
                assert(keys@.to_set().contains(k));
                let j = choose|j: int| 0 <= j < keys@.len() && keys@[j] == k;
                assert(self.lists()[keys@[j]] == without(before[keys@[j]], vet));
            }
            assert(self.lists() =~= without_vertex(before, vet));
            if closed(before) {
                lemma_without_vertex_closed(before, vet);
            }
        }
    }

    pub fn size(&self) -> (n: usize)
        requires
            plain_vertices::<T>(),
        ensures
            n == self.lists().dom().len(),
    {
        assert(self.lists().dom() =~= self.adj_list@.dom());
        self.adj_list.len()
    }

    /// Adds the vertex `vet`, if it is new.
    pub fn add_vertex(&mut self, vet: T)
        requires
            plain_vertices::<T>(),
        ensures
            final(self).lists() == with_vertex(old(self).lists(), vet),
            old(self).wf() ==> final(self).wf(),
    {
        proof {
            if self.wf() {
                lemma_with_vertex_closed(self.lists(), vet);
            }
        }
        if self.adj_list.contains_key(&vet) {
            return ;
        }
        self.adj_list.insert(vet, Vec::new());
        assert(self.lists() =~= with_vertex(old(self).lists(), vet));
    }

    /// Makes the vertices `vet1` and `vet2` neighbours of each other.
    pub fn add_edge(&mut self, vet1: T, vet2: T)
        requires
            plain_vertices::<T>(),
            old(self).lists().contains_key(vet1),
            old(self).lists().contains_key(vet2),
            vet1 != vet2,
        ensures
            final(self).lists() == with_edge(old(self).lists(), vet1, vet2),
            old(self).wf() ==> final(self).wf(),
    {
        proof {
            if self.wf() {
                lemma_with_edge_closed(self.lists(), vet1, vet2);
            }
        }
        let mut list1 = self.adj_list.remove(&vet1).unwrap();
        if !holds(&list1, &vet2) {
            let entry = vet2.clone();
            assert(cloned(vet2, entry));
            list1.push(entry);
        }
        let key1 = vet1.clone();
        assert(cloned(vet1, key1));
        self.adj_list.insert(key1, list1);

        let mut list2 = self.adj_list.remove(&vet2).unwrap();
        if !holds(&list2, &vet1) {
            list2.push(vet1);
        }
        self.adj_list.insert(vet2, list2);
        assert(self.lists() =~= with_edge(old(self).lists(), vet1, vet2));
    }

    /// Makes the vertices `vet1` and `vet2` no neighbours of each other any more.
    pub fn remove_edge(&mut self, vet1: T, vet2: T)
        requires
            plain_vertices::<T>(),
            old(self).lists().contains_key(vet1),
            old(self).lists().contains_key(vet2),
            vet1 != vet2,
        ensures
            final(self).lists() == without_edge(old(self).lists(), vet1, vet2),
            old(self).wf() ==> final(self).wf(),
    {
        proof {
            if self.wf() {
                lemma_without_edge_closed(self.lists(), vet1, vet2);
            }
        }
        let list1 = self.adj_list.remove(&vet1).unwrap();
        let list1 = drop_entry(list1, &vet2);
        let key1 = vet1.clone();
        assert(cloned(vet1, key1));
        self.adj_list.insert(key1, list1);

        let list2 = self.adj_list.remove(&vet2).unwrap();
        let list2 = drop_entry(list2, &vet1);
        self.adj_list.insert(vet2, list2);
        assert(self.lists() =~= without_edge(old(self).lists(), vet1, vet2));
    }

    /// The vertices, each once, in the order in which the hash map hands them out.
    fn vertex_list(&self) -> (keys: Vec<T>)
        requires
            plain_vertices::<T>(),
        ensures
            keys@.no_duplicates(),
            keys@.to_set() == self.adj_list@.dom(),
    {
        let mut keys: Vec<T> = Vec::new();
        let ghost all = vstd::std_specs::hash::spec_keys_iter(&self.adj_list).remaining();
        for key in it: self.adj_list.keys()
            invariant
                exact_clone::<T>(),
                it.seq() == all,
                keys@ == all.unref().take(it.index() as int),
        {
            let copy = key.clone();
            assert(cloned(*key, copy));
            keys.push(copy);
            assert(keys@ =~= all.unref().take(it.index() + 1));
        }
        proof {
            assert(keys@ =~= all.unref());
            assert(keys@.no_duplicates()) by {
                assert forall|i: int, j: int|
                    0 <= i < keys@.len() && 0 <= j < keys@.len() && i != j implies keys@[i]
                    != keys@[j] by {
                    assert(all[i] != all[j]);
                }
            }
        }
        keys
    }

    /// One of the vertices, if there is one: the first that the hash map hands out.
    fn first_vertex(&self) -> (first: Option<&T>)
        requires
            plain_vertices::<T>(),
        ensures
            match first {
                None => self.adj_list@.dom().len() == 0,
                Some(vertex) => self.adj_list@.contains_key(*vertex),
            },
    {
        let ghost all = vstd::std_specs::hash::spec_keys_iter(&self.adj_list).remaining();
        for key in it: self.adj_list.keys()
            invariant
                it.seq() == all,
                it.index() == 0,
        {
            proof {
                assert(all.unref()[0] == *key);
                assert(all.unref().to_set().contains(all.unref()[0]));
            }
            return Some(key);
        }
        None
    }

    /// The vertices that can be reached from one of the vertices, each once, that one
    /// first: the first vertex that the hash map hands out. See `bfs_from`.
    pub fn bfs(&self) -> (result: Vec<T>)
        requires
            plain_vertices::<T>(),
            self.wf(),
        ensures
            self.lists().dom().len() == 0 ==> result@.len() == 0,
            self.lists().dom().len() > 0 ==> result@.len() > 0 && self.lists().contains_key(
                result@[0],
            ) && visits_all(self.edges(), result@[0], result@),
    {
        assert(self.lists().dom() =~= self.adj_list@.dom());
        match self.first_vertex() {
            None => Vec::new(),
            Some(first) => {
                proof {
                    if self.adj_list@.dom().len() == 0 {
                        assert(self.adj_list@.dom().contains(*first));
                        assert(self.adj_list@.dom() =~= Set::<T>::empty());
                    }
                }
                self.bfs_from(first)
            },
        }
    }

    /// The vertices that can be reached from `start`, each once, `start` first: a vertex is
    /// taken from the front of a queue, and those of its neighbours that were not seen yet
    /// are put at the back.
    pub fn bfs_from(&self, start: &T) -> (result: Vec<T>)
        requires
            plain_vertices::<T>(),
            self.wf(),
            self.lists().contains_key(*start),
        ensures
            visits_all(self.edges(), *start, result@),
    {
        let mut result: Vec<T> = Vec::new();
        let mut que: VecDeque<&T> = VecDeque::new();
        que.push_back(start);
        let mut visited: HashSet<T> = HashSet::new();
        let copy = start.clone();
        assert(cloned(*start, copy));
        visited.insert(copy);

        let ghost edge = self.edges();
        let ghost vertices = self.lists().dom();
        proof {
            let seen = result@ + waiting(que@);
            lemma_reaches_itself(edge, *start);
            assert(seen =~= seq![*start]);
            assert(seen[0] == *start);
            assert(visited@ =~= seen.to_set());
            assert(vertices =~= self.adj_list@.dom());
        }
        while que.len() > 0
            invariant
                plain_vertices::<T>(),
                self.wf(),
                edge == self.edges(),
                vertices == self.lists().dom(),
                vertices.finite(),
                visited_so_far(edge, *start, vertices, visited@, result@ + waiting(que@)),
                neighbours_visited(edge, visited@, result@, 0, result@.len() as int),
                (result@ + waiting(que@)).len() > 0,
                (result@ + waiting(que@))[0] == *start,
            decreases vertices.len() - result@.len(),
        {
            let ghost before = waiting(que@);
            let ghost done = result@;
            proof {
                lemma_order_fits(done + before, vertices);
            }
            let vertex = que.pop_front().unwrap();
            let copy = vertex.clone();
            assert(cloned(*vertex, copy));
            result.push(copy);
            proof {
                assert((done + before)[done.len() as int] == *vertex);
                assert(done + before =~= result@ + waiting(que@));
                assert(vertices.contains((done + before)[done.len() as int]));
            }
            let list = self.adj_list.get(vertex).unwrap();
            assert(list@ == self.lists()[*vertex]);

            let mut i: usize = 0;
            while i < list.len()
                invariant
                    plain_vertices::<T>(),
                    self.wf(),
                    edge == self.edges(),
                    vertices == self.lists().dom(),
                    self.lists().contains_key(*vertex),
                    list@ == self.lists()[*vertex],
                    i <= list@.len(),
                    result@.len() > 0,
                    result@.last() == *vertex,
                    visited_so_far(edge, *start, vertices, visited@, result@ + waiting(que@)),
                    neighbours_visited(edge, visited@, result@, 0, result@.len() - 1),
                    (result@ + waiting(que@))[0] == *start,
                    forall|k: int| 0 <= k < i ==> visited@.contains(#[trigger] list@[k]),
                decreases list@.len() - i,
            {
                let adj = &list[i];
                if !visited.contains(adj) {
                    let ghost seen = result@ + waiting(que@);
                    que.push_back(adj);
                    let copy = adj.clone();
                    assert(cloned(*adj, copy));
                    visited.insert(copy);
                    proof {
                        let after = result@ + waiting(que@);
                        assert(after =~= seen.push(*adj));
                        assert(seen[result@.len() - 1] == *vertex);
                        assert(reaches(edge, *start, seen[result@.len() - 1]));
                        assert(list@.contains(list@[i as int]));
                        assert(edge(*vertex, *adj));
                        lemma_reaches_further(edge, *start, *vertex, *adj);
                        assert(self.lists().contains_key(self.lists()[*vertex][i as int]));
                        lemma_push_to_set(seen, *adj);
                        assert(!seen.contains(*adj));
                    }
                }
                i += 1;
            }
            proof {
                assert forall|k: int, v: T|
                    0 <= k < result@.len() && #[trigger] edge(
                        result@[k],
                        v,
                    ) implies visited@.contains(v) by {
                    if k == result@.len() - 1 {
                        let j = choose|j: int| 0 <= j < list@.len() && list@[j] == v;
                        assert(visited@.contains(list@[j]));
                    }
                }
            }
        }
        proof {
            assert(result@ + waiting(que@) =~= result@);
            lemma_visits_all(edge, *start, vertices, result@);
        }
        result
    }

    /// The vertices that can be reached from one of the vertices, each once, that one
    /// first: the first vertex that the hash map hands out. See `dfs_from`.
    pub fn dfs(&self) -> (result: Vec<T>)
        requires
            plain_vertices::<T>(),
            self.wf(),
        ensures
            self.lists().dom().len() == 0 ==> result@.len() == 0,
            self.lists().dom().len() > 0 ==> result@.len() > 0 && self.lists().contains_key(
                result@[0],
            ) && visits_all(self.edges(), result@[0], result@),
    {
        assert(self.lists().dom() =~= self.adj_list@.dom());
        match self.first_vertex() {
            None => Vec::new(),
            Some(first) => {
                proof {
                    if self.adj_list@.dom().len() == 0 {
                        assert(self.adj_list@.dom().contains(*first));
                        assert(self.adj_list@.dom() =~= Set::<T>::empty());
                    }
                }
                self.dfs_from(first)
            },
        }
    }

    /// The vertices that can be reached from `start`, each once, `start` first: from a
    /// vertex the search goes on to each neighbour in turn that was not seen yet, and comes
    /// back when that neighbour is done.
    pub fn dfs_from(&self, start: &T) -> (result: Vec<T>)
        requires
            plain_vertices::<T>(),
            self.wf(),
            self.lists().contains_key(*start),
        ensures
            visits_all(self.edges(), *start, result@),
    {
        let mut res: Vec<T> = Vec::new();
        let mut visited: HashSet<T> = HashSet::new();
        proof {
            assert(res@.to_set() =~= visited@);
        }
        self._dfs(&mut res, &mut visited, start);
        proof {
            let edge = self.edges();
            assert(res@.take(0) =~= Seq::<T>::empty());
            assert forall|k: int| 0 <= k < res@.len() implies reaches(
                edge,
                *start,
                #[trigger] res@[k],
            ) by {}
            lemma_visits_all(edge, *start, self.lists().dom(), res@);
        }
        res
    }

    /// Visits `start_vertex` and what can be reached from it over vertices that were not
    /// seen yet.
    fn _dfs(&self, res: &mut Vec<T>, visited: &mut HashSet<T>, start_vertex: &T)
        requires
            plain_vertices::<T>(),
            self.wf(),
            self.lists().contains_key(*start_vertex),
            !old(visited)@.contains(*start_vertex),
            old(res)@.no_duplicates(),
            old(visited)@ == old(res)@.to_set(),
            forall|k: int|
                0 <= k < old(res)@.len() ==> self.lists().contains_key(#[trigger] old(res)@[k]),
        ensures
            final(res)@.no_duplicates(),
            final(visited)@ == final(res)@.to_set(),
            forall|k: int|
                0 <= k < final(res)@.len() ==> self.lists().contains_key(#[trigger] final(res)@[k]),
            final(res)@.len() > old(res)@.len(),
            final(res)@.take(old(res)@.len() as int) == old(res)@,
            final(res)@[old(res)@.len() as int] == *start_vertex,
            forall|k: int|
                old(res)@.len() <= k < final(res)@.len() ==> reaches(
                    self.edges(),
                    *start_vertex,
                    #[trigger] final(res)@[k],
                ),
            neighbours_visited(
                self.edges(),
                final(visited)@,
                final(res)@,
                old(res)@.len() as int,
                final(res)@.len() as int,
            ),
        decreases self.lists().dom().len() - old(res)@.len(),
    {
        let ghost edge = self.edges();
        let ghost vertices = self.lists().dom();
        let ghost earlier = res@;
        let ghost first = res@.len() as int;
        proof {
            assert(vertices =~= self.adj_list@.dom());
        }
        let copy = start_vertex.clone();
        assert(cloned(*start_vertex, copy));
        res.push(copy);
        let mark = start_vertex.clone();
        assert(cloned(*start_vertex, mark));
        visited.insert(mark);
        proof {
            lemma_push_to_set(earlier, *start_vertex);
            lemma_reaches_itself(edge, *start_vertex);
            assert(res@.take(first) =~= earlier);
            assert(!earlier.contains(*start_vertex));
        }

        let list = self.adj_list.get(start_vertex).unwrap();
        assert(list@ == self.lists()[*start_vertex]);
        let mut i: usize = 0;
        while i < list.len()
            invariant
                plain_vertices::<T>(),
                self.wf(),
                edge == self.edges(),
                vertices == self.lists().dom(),
                vertices.finite(),
                self.lists().contains_key(*start_vertex),
                list@ == self.lists()[*start_vertex],
                i <= list@.len(),
                earlier == old(res)@,
                first == earlier.len(),
                res@.len() > first,
                res@.take(first) == earlier,
                res@[first] == *start_vertex,
                res@.no_duplicates(),
                visited@ == res@.to_set(),
                forall|k: int| 0 <= k < res@.len() ==> self.lists().contains_key(#[trigger] res@[k]),
                forall|k: int|
                    first <= k < res@.len() ==> reaches(edge, *start_vertex, #[trigger] res@[k]),
                neighbours_visited(edge, visited@, res@, first + 1, res@.len() as int),
                forall|k: int| 0 <= k < i ==> visited@.contains(#[trigger] list@[k]),
            decreases list@.len() - i,
        {
            let adj = &list[i];
            if !visited.contains(adj) {
                let ghost before = res@;
                let ghost marks = visited@;
                proof {
                    lemma_order_fits(before, vertices);
                    assert(list@.contains(list@[i as int]));
                    assert(edge(*start_vertex, *adj));
                    assert(self.lists().contains_key(self.lists()[*start_vertex][i as int]));
                }
                self._dfs(res, visited, adj);
                proof {
                    assert forall|k: int| 0 <= k < before.len() implies res@[k] == before[k] by {
                        assert(res@.take(before.len() as int)[k] == before[k]);
                    }
                    assert(res@.take(first) =~= earlier);
                    assert forall|v: T| marks.contains(v) implies visited@.contains(v) by {
                        let k = choose|k: int| 0 <= k < before.len() && before[k] == v;
                        assert(res@[k] == v);
                    }
                    assert forall|k: int| first <= k < res@.len() implies reaches(
                        edge,
                        *start_vertex,
                        #[trigger] res@[k],
                    ) by {
                        if k >= before.len() {
                            lemma_reaches_further(edge, *start_vertex, *start_vertex, *adj);
                            lemma_reaches_transitive(edge, *start_vertex, *adj, res@[k]);
                        } else {
                            assert(reaches(edge, *start_vertex, before[k]));
                        }
                    }
                    assert forall|k: int, v: T|
                        first + 1 <= k < res@.len() && #[trigger] edge(
                            res@[k],
                            v,
                        ) implies visited@.contains(v) by {
                        if k < before.len() {
                            assert(edge(before[k], v));
                            assert(marks.contains(v));
                        }
                    }
                    assert(res@[before.len() as int] == *adj);
                    assert(res@.contains(*adj));
                    assert forall|k: int| 0 <= k <= i implies visited@.contains(
                        #[trigger] list@[k],
                    ) by {
                        if k < i {
                            assert(marks.contains(list@[k]));
                        }
                    }
                }
            }
            i += 1;
        }
        proof {
            assert forall|k: int, v: T|
                first <= k < res@.len() && #[trigger] edge(res@[k], v) implies visited@.contains(
                v,
            ) by {
                if k == first {
                    let j = choose|j: int| 0 <= j < list@.len() && list@[j] == v;
                    assert(visited@.contains(list@[j]));
                }
            }
        }
    }
}

} // verus!
