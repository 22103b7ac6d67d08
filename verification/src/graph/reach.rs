//! What can be reached in a graph, and what a traversal of it has to visit.

use vstd::prelude::*;

verus! {

/// `path` leads along edges from its first vertex to its last.
pub open spec fn walk<V>(edge: spec_fn(V, V) -> bool, path: Seq<V>) -> bool {
    &&& path.len() > 0
    &&& forall|k: int| 0 <= k < path.len() - 1 ==> edge(#[trigger] path[k], path[k + 1])
}

/// Some path leads from `from` to `to`.
pub open spec fn reaches<V>(edge: spec_fn(V, V) -> bool, from: V, to: V) -> bool {
    exists|path: Seq<V>| walk(edge, path) && path.first() == from && path.last() == to
}

/// `order` names each vertex that can be reached from `start` once, and no other, and
/// begins with `start`.
pub open spec fn visits_all<V>(edge: spec_fn(V, V) -> bool, start: V, order: Seq<V>) -> bool {
    &&& order.no_duplicates()
    &&& order.len() > 0
    &&& order[0] == start
    &&& forall|v: V| order.contains(v) <==> reaches(edge, start, v)
}

/// The values that stand at the places which `order` names.
pub open spec fn picked<T>(values: Seq<T>, order: Seq<int>) -> Seq<T> {
    Seq::new(order.len(), |k: int| values[order[k]])
}

/// Every vertex reaches itself.
pub proof fn lemma_reaches_itself<V>(edge: spec_fn(V, V) -> bool, v: V)
    ensures
        reaches(edge, v, v),
{
    let path = seq![v];
    assert(walk(edge, path) && path.first() == v && path.last() == v);
}

/// What is one edge behind a vertex that can be reached can be reached.
pub proof fn lemma_reaches_further<V>(edge: spec_fn(V, V) -> bool, from: V, mid: V, to: V)
    requires
        reaches(edge, from, mid),
        edge(mid, to),
    ensures
        reaches(edge, from, to),
{
    let path = choose|path: Seq<V>| walk(edge, path) && path.first() == from && path.last() == mid;
    let longer = path.push(to);
    assert forall|k: int| 0 <= k < longer.len() - 1 implies edge(
        #[trigger] longer[k],
        longer[k + 1],
    ) by {
        if k < path.len() - 1 {
            assert(longer[k] == path[k] && longer[k + 1] == path[k + 1]);
        } else {
            assert(longer[k] == mid && longer[k + 1] == to);
        }
    }
    assert(walk(edge, longer) && longer.first() == from && longer.last() == to);
}

/// What can be reached from a vertex that can be reached can be reached.
pub proof fn lemma_reaches_transitive<V>(edge: spec_fn(V, V) -> bool, from: V, mid: V, to: V)
    requires
        reaches(edge, from, mid),
        reaches(edge, mid, to),
    ensures
        reaches(edge, from, to),
{
    let path = choose|path: Seq<V>| walk(edge, path) && path.first() == mid && path.last() == to;
    lemma_reaches_along(edge, from, path, path.len() - 1);
}

/// What can be reached from `from` leads along a path to what can be reached from `from`.
proof fn lemma_reaches_along<V>(edge: spec_fn(V, V) -> bool, from: V, path: Seq<V>, k: int)
    requires
        walk(edge, path),
        reaches(edge, from, path.first()),
        0 <= k < path.len(),
    ensures
        reaches(edge, from, path[k]),
    decreases k,
{
    if k > 0 {
        lemma_reaches_along(edge, from, path, k - 1);
        assert(edge(path[k - 1], path[(k - 1) + 1]));
        lemma_reaches_further(edge, from, path[k - 1], path[k]);
    }
}

/// `order` names vertices of the graph that can be reached from `start`, none of them twice,
/// and `visited` holds the vertices that it names.
pub open spec fn visited_so_far<V>(
    edge: spec_fn(V, V) -> bool,
    start: V,
    vertices: Set<V>,
    visited: Set<V>,
    order: Seq<V>,
) -> bool {
    &&& order.no_duplicates()
    &&& visited == order.to_set()
    &&& forall|k: int| 0 <= k < order.len() ==> vertices.contains(#[trigger] order[k])
    &&& forall|k: int| 0 <= k < order.len() ==> reaches(edge, start, #[trigger] order[k])
}

/// For each of the vertices that `order` names from place `from` up to, not including,
/// place `to`, `visited` holds what is one edge behind it.
pub open spec fn neighbours_visited<V>(
    edge: spec_fn(V, V) -> bool,
    visited: Set<V>,
    order: Seq<V>,
    from: int,
    to: int,
) -> bool {
    forall|k: int, v: V| from <= k < to && #[trigger] edge(order[k], v) ==> visited.contains(v)
}

/// An order that begins with `start`, names only what can be reached from it, and names
/// with each vertex what is one edge behind it, names all that can be reached.
pub proof fn lemma_visits_all<V>(
    edge: spec_fn(V, V) -> bool,
    start: V,
    vertices: Set<V>,
    order: Seq<V>,
)
    requires
        visited_so_far(edge, start, vertices, order.to_set(), order),
        neighbours_visited(edge, order.to_set(), order, 0, order.len() as int),
        order.len() > 0,
        order[0] == start,
    ensures
        visits_all(edge, start, order),
{
    let set = order.to_set();
    assert(order.contains(order[0]));
    assert forall|u: V, v: V| set.contains(u) && #[trigger] edge(u, v) implies set.contains(v) by {
        let k = choose|k: int| 0 <= k < order.len() && order[k] == u;
        assert(edge(order[k], v));
    }
    assert forall|v: V| order.contains(v) <==> reaches(edge, start, v) by {
        if order.contains(v) {
            let k = choose|k: int| 0 <= k < order.len() && order[k] == v;
            assert(reaches(edge, start, order[k]));
        }
        if reaches(edge, start, v) {
            lemma_closed_set_holds_all(edge, start, set, v);
        }
    }
}

/// A sequence that names vertices of a finite set, and none twice, is no longer than the
/// set is large.
pub proof fn lemma_order_fits<V>(order: Seq<V>, vertices: Set<V>)
    requires
        vertices.finite(),
        order.no_duplicates(),
        forall|k: int| 0 <= k < order.len() ==> vertices.contains(#[trigger] order[k]),
    ensures
        order.len() <= vertices.len(),
{
    order.unique_seq_to_set();
    assert(order.to_set().subset_of(vertices)) by {
        assert forall|v: V| order.to_set().contains(v) implies vertices.contains(v) by {
            let k = choose|k: int| 0 <= k < order.len() && order[k] == v;
            assert(vertices.contains(order[k]));
        }
    }
    vstd::set_lib::lemma_len_subset(order.to_set(), vertices);
}

/// A set that holds `from`, and with each of its vertices what is one edge behind it, holds
/// every vertex that can be reached from `from`.
pub proof fn lemma_closed_set_holds_all<V>(
    edge: spec_fn(V, V) -> bool,
    from: V,
    set: Set<V>,
    to: V,
)
    requires
        set.contains(from),
        forall|u: V, v: V| set.contains(u) && #[trigger] edge(u, v) ==> set.contains(v),
        reaches(edge, from, to),
    ensures
        set.contains(to),
{
    let path = choose|path: Seq<V>| walk(edge, path) && path.first() == from && path.last() == to;
    lemma_path_stays_in_set(edge, set, path, path.len() - 1);
}

/// A path that begins in a closed set stays in it.
proof fn lemma_path_stays_in_set<V>(
    edge: spec_fn(V, V) -> bool,
    set: Set<V>,
    path: Seq<V>,
    k: int,
)
    requires
        walk(edge, path),
        set.contains(path.first()),
        forall|u: V, v: V| set.contains(u) && #[trigger] edge(u, v) ==> set.contains(v),
        0 <= k < path.len(),
    ensures
        set.contains(path[k]),
    decreases k,
{
    if k > 0 {
        lemma_path_stays_in_set(edge, set, path, k - 1);
        assert(edge(path[k - 1], path[(k - 1) + 1]));
    }
}

/// A sequence that names places below `n`, and none twice, is no longer than `n`.
pub proof fn lemma_places_fit(order: Seq<int>, n: int)
    requires
        0 <= n,
        order.no_duplicates(),
        forall|k: int| 0 <= k < order.len() ==> 0 <= #[trigger] order[k] && order[k] < n,
    ensures
        order.len() <= n,
{
    let places = vstd::set_lib::set_int_range(0, n);
    order.unique_seq_to_set();
    vstd::set_lib::lemma_int_range(0, n);
    assert(order.to_set().subset_of(places)) by {
        assert forall|v: int| order.to_set().contains(v) implies places.contains(v) by {
            let k = choose|k: int| 0 <= k < order.len() && order[k] == v;
            assert(0 <= order[k] && order[k] < n);
        }
    }
    vstd::set_lib::lemma_len_subset(order.to_set(), places);
}

} // verus!
