//! Precedence graphs: walks, cycles, topological orders, and the repair of
//! a sequence whose elements stand in the wrong order.
//!
//! An edge `(a, b)` says that `a` has to stand before `b`.

use vstd::prelude::*;
use toposort_scc::IndexGraph;

verus! {

/// The element at `k` of `walk` has an edge to the element after it.
pub open spec fn linked<T>(walk: Seq<T>, edges: Set<(T, T)>, k: int) -> bool {
    edges.contains((walk[k], walk[k + 1]))
}

/// At least two elements, each with an edge to the next.
pub open spec fn is_walk<T>(walk: Seq<T>, edges: Set<(T, T)>) -> bool {
    &&& walk.len() >= 2
    &&& forall|k: int| 0 <= k < walk.len() - 1 ==> #[trigger] linked(walk, edges, k)
}

/// The edges force `x` before `y`, directly or through other elements.
pub open spec fn must_precede<T>(edges: Set<(T, T)>, x: T, y: T) -> bool {
    exists|walk: Seq<T>| #[trigger] is_walk(walk, edges) && walk[0] == x && walk.last() == y
}

/// Some element would have to stand before itself.
pub open spec fn has_cycle<T>(edges: Set<(T, T)>) -> bool {
    exists|x: T| #[trigger] must_precede(edges, x, x)
}

/// `rank` grows along every edge.
pub open spec fn is_ranking<T>(rank: spec_fn(T) -> int, edges: Set<(T, T)>) -> bool {
    forall|a: T, b: T| #[trigger] edges.contains((a, b)) ==> rank(a) < rank(b)
}

/// A ranking grows from the start of a walk to its end.
pub proof fn lemma_walk_climbs<T>(walk: Seq<T>, edges: Set<(T, T)>, rank: spec_fn(T) -> int)
    requires
        is_walk(walk, edges),
        is_ranking(rank, edges),
    ensures
        rank(walk[0]) < rank(walk.last()),
    decreases walk.len(),
{
    let last = walk.len() - 1;
    assert(linked(walk, edges, last - 1));
    if walk.len() > 2 {
        let shorter = walk.drop_last();
        assert forall|k: int| 0 <= k < shorter.len() - 1 implies #[trigger] linked(
            shorter,
            edges,
            k,
        ) by {
            assert(linked(walk, edges, k));
        }
        lemma_walk_climbs(shorter, edges, rank);
    }
}

/// Edges that admit a ranking hold no cycle.
pub proof fn lemma_ranking_excludes_cycles<T>(edges: Set<(T, T)>, rank: spec_fn(T) -> int)
    requires
        is_ranking(rank, edges),
    ensures
        !has_cycle(edges),
{
    if has_cycle(edges) {
        let x = choose|x: T| #[trigger] must_precede(edges, x, x);
        let walk = choose|walk: Seq<T>| #[trigger]
            is_walk(walk, edges) && walk[0] == x && walk.last() == x;
        lemma_walk_climbs(walk, edges, rank);
    }
}

/// `order` lists each of the vertices `0 .. size` once, and no edge leads
/// from a vertex to itself or to one listed before it.
pub open spec fn is_topological_order(order: Seq<usize>, size: nat, edges: Set<(usize, usize)>) -> bool {
    &&& order.len() == size
    &&& order.no_duplicates()
    &&& forall|v: usize| v < size ==> #[trigger] order.contains(v)
    &&& forall|i: int, j: int|
        0 <= i <= j < order.len() ==> !edges.contains((#[trigger] order[j], #[trigger] order[i]))
}

/// In a topological order the source of an edge is listed before its target.
pub proof fn lemma_edge_goes_forward(
    order: Seq<usize>,
    size: nat,
    edges: Set<(usize, usize)>,
    a: usize,
    b: usize,
)
    requires
        is_topological_order(order, size, edges),
        edges.contains((a, b)),
        a < size,
        b < size,
    ensures
        0 <= order.index_of(a) < order.index_of(b) < size,
{
    assert(order.contains(a));
    assert(order.contains(b));
    let p = order.index_of(a);
    let q = order.index_of(b);
    if q <= p {
        assert(!edges.contains((order[p], order[q])));
    }
}

/// `toposort_scc::IndexGraph`: a graph whose vertices are numbers and whose
/// edges go from one vertex to another. Nothing is known of a graph but
/// what `graph_size` and `graph_edges` say of it.
#[verifier::external_type_specification]
#[verifier::external_body]
pub struct ExIndexGraph(IndexGraph);

/// The edges that were added to a graph, each as `(from, to)`.
pub uninterp spec fn graph_edges(g: IndexGraph) -> Set<(usize, usize)>;

/// The number of vertices that a graph was made with; its vertices are
/// `0 .. graph_size`.
pub uninterp spec fn graph_size(g: IndexGraph) -> nat;

/// `IndexGraph::with_vertices` makes a graph of `len` vertices without
/// edges.
pub assume_specification[ IndexGraph::with_vertices ](len: usize) -> (g: IndexGraph)
    ensures
        graph_size(g) == len,
        graph_edges(g) == Set::<(usize, usize)>::empty(),
;

/// `IndexGraph::add_edge` adds the edge `(from, to)` and leaves the vertices
/// and the other edges as they are. It indexes its vertex list with both
/// ends, so both have to be vertices of the graph.
pub assume_specification[ IndexGraph::add_edge ](g: &mut IndexGraph, from: usize, to: usize)
    requires
        from < graph_size(*old(g)),
        to < graph_size(*old(g)),
    ensures
        graph_size(*final(g)) == graph_size(*old(g)),
        graph_edges(*final(g)) == graph_edges(*old(g)).insert((from, to)),
;

/// `IndexGraph::toposort` returns `None` only for a graph that holds a
/// cycle, and otherwise a topological order of all its vertices.
pub assume_specification[ IndexGraph::toposort ](g: IndexGraph) -> (order: Option<Vec<usize>>)
    ensures
        order is None ==> has_cycle(graph_edges(g)),
        order matches Some(o) ==> is_topological_order(o@, graph_size(g), graph_edges(g)),
;

/// The element at `i` stands behind the element at `j` although an edge
/// wants it before.
pub open spec fn violates<T>(s: Seq<T>, edges: Set<(T, T)>, i: int, j: int) -> bool {
    0 <= j < i < s.len() && edges.contains((s[i], s[j]))
}

/// `(i, j)` is the violation that a scan of the first `limit` positions
/// meets first: the one with the lowest `i`, and for that `i` the lowest `j`.
pub open spec fn is_first_violation<T>(
    s: Seq<T>,
    edges: Set<(T, T)>,
    limit: int,
    i: int,
    j: int,
) -> bool {
    &&& i < limit
    &&& violates(s, edges, i, j)
    &&& forall|i2: int, j2: int|
        (i2 < i || (i2 == i && j2 < j)) ==> !#[trigger] violates(s, edges, i2, j2)
}

/// No element among the first `limit` stands behind one that it has to
/// precede.
pub open spec fn settled<T>(s: Seq<T>, edges: Set<(T, T)>, limit: int) -> bool {
    forall|i: int, j: int| i < limit ==> !#[trigger] violates(s, edges, i, j)
}

/// `s` after its element at `i` was taken out and put back at `j`.
pub open spec fn move_forward<T>(s: Seq<T>, i: int, j: int) -> Seq<T> {
    s.remove(i).insert(j, s[i])
}

/// One repair: the element of the first violation moves to the place of
/// the element that it has to precede. A settled sequence stays as it is.
pub open spec fn step<T>(s: Seq<T>, edges: Set<(T, T)>) -> Seq<T> {
    if exists|i: int, j: int| is_first_violation(s, edges, s.len() as int, i, j) {
        let (i, j) = choose|i: int, j: int| is_first_violation(s, edges, s.len() as int, i, j);
        move_forward(s, i, j)
    } else {
        s
    }
}

/// `s` after `k` repairs.
pub open spec fn iterate<T>(s: Seq<T>, edges: Set<(T, T)>, k: nat) -> Seq<T>
    decreases k,
{
    if k == 0 {
        s
    } else {
        step(iterate(s, edges, (k - 1) as nat), edges)
    }
}

/// `b` holds the elements of `a`, each once.
pub open spec fn is_rearrangement<T>(a: Seq<T>, b: Seq<T>) -> bool {
    &&& a.len() == b.len()
    &&& b.no_duplicates()
    &&& forall|x: T| a.contains(x) <==> b.contains(x)
}

/// Where each element stands after a move.
pub proof fn lemma_move_forward<T>(s: Seq<T>, i: int, j: int)
    requires
        0 <= j < i < s.len(),
    ensures
        move_forward(s, i, j).len() == s.len(),
        forall|p: int| 0 <= p < j ==> move_forward(s, i, j)[p] == s[p],
        move_forward(s, i, j)[j] == s[i],
        forall|p: int| j < p <= i ==> move_forward(s, i, j)[p] == s[p - 1],
        forall|p: int| i < p < s.len() ==> move_forward(s, i, j)[p] == s[p],
{
}

/// A move keeps the elements and keeps them distinct.
pub proof fn lemma_move_forward_rearranges<T>(s: Seq<T>, i: int, j: int)
    requires
        0 <= j < i < s.len(),
    ensures
        forall|x: T| s.contains(x) <==> move_forward(s, i, j).contains(x),
        s.no_duplicates() ==> move_forward(s, i, j).no_duplicates(),
{
    let t = move_forward(s, i, j);
    lemma_move_forward(s, i, j);
    assert forall|x: T| s.contains(x) implies t.contains(x) by {
        let p = choose|p: int| 0 <= p < s.len() && s[p] == x;
        if p < j || p > i {
            assert(t[p] == x);
        } else if p == i {
            assert(t[j] == x);
        } else {
            assert(t[p + 1] == x);
        }
    }
    assert forall|x: T| t.contains(x) implies s.contains(x) by {
        let p = choose|p: int| 0 <= p < t.len() && t[p] == x;
        if p < j || p > i {
            assert(s[p] == x);
        } else if p == j {
            assert(s[i] == x);
        } else {
            assert(s[p - 1] == x);
        }
    }
    if s.no_duplicates() {
        assert forall|p: int, q: int| 0 <= p < t.len() && 0 <= q < t.len() && p != q implies t[p]
            != t[q] by {
            let from = |r: int|
                if r < j || r > i {
                    r
                } else if r == j {
                    i
                } else {
                    r - 1
                };
            assert(t[p] == s[from(p)]);
            assert(t[q] == s[from(q)]);
            assert(from(p) != from(q));
        }
    }
}

/// A scan meets one first violation at most.
pub proof fn lemma_first_violation_unique<T>(
    s: Seq<T>,
    edges: Set<(T, T)>,
    limit: int,
    i: int,
    j: int,
    i2: int,
    j2: int,
)
    requires
        is_first_violation(s, edges, limit, i, j),
        is_first_violation(s, edges, limit, i2, j2),
    ensures
        i == i2,
        j == j2,
{
    assert(violates(s, edges, i, j));
    assert(violates(s, edges, i2, j2));
}

/// A repair moves the element of the first violation.
pub proof fn lemma_step_moves<T>(s: Seq<T>, edges: Set<(T, T)>, i: int, j: int)
    requires
        is_first_violation(s, edges, s.len() as int, i, j),
    ensures
        step(s, edges) == move_forward(s, i, j),
{
    let (i2, j2) = choose|i2: int, j2: int| is_first_violation(s, edges, s.len() as int, i2, j2);
    lemma_first_violation_unique(s, edges, s.len() as int, i, j, i2, j2);
}

/// Repairs leave a settled sequence as it is.
pub proof fn lemma_settled_is_fixed<T>(s: Seq<T>, edges: Set<(T, T)>, k: nat)
    requires
        settled(s, edges, s.len() as int),
    ensures
        iterate(s, edges, k) == s,
    decreases k,
{
    if k > 0 {
        lemma_settled_is_fixed(s, edges, (k - 1) as nat);
        if exists|i: int, j: int| is_first_violation(s, edges, s.len() as int, i, j) {
            let (i, j) = choose|i: int, j: int| is_first_violation(s, edges, s.len() as int, i, j);
            assert(violates(s, edges, i, j));
        }
    }
}

/// Repairs keep the elements and keep them distinct.
pub proof fn lemma_iterate_rearranges<T>(s: Seq<T>, edges: Set<(T, T)>, k: nat)
    requires
        s.no_duplicates(),
    ensures
        is_rearrangement(s, iterate(s, edges, k)),
    decreases k,
{
    if k > 0 {
        let prev = iterate(s, edges, (k - 1) as nat);
        lemma_iterate_rearranges(s, edges, (k - 1) as nat);
        if exists|i: int, j: int| is_first_violation(prev, edges, prev.len() as int, i, j) {
            let (i, j) = choose|i: int, j: int|
                is_first_violation(prev, edges, prev.len() as int, i, j);
            assert(violates(prev, edges, i, j));
            lemma_move_forward(prev, i, j);
            lemma_move_forward_rearranges(prev, i, j);
        }
    }
}

/// An edge in front of a forced precedence is a forced precedence.
pub proof fn lemma_precede_through<T>(edges: Set<(T, T)>, x: T, y: T, z: T)
    requires
        edges.contains((x, y)),
        y == z || must_precede(edges, y, z),
    ensures
        must_precede(edges, x, z),
{
    if y == z {
        let walk = seq![x, y];
        assert(linked(walk, edges, 0));
        assert(is_walk(walk, edges) && walk[0] == x && walk.last() == z);
    } else {
        let tail = choose|walk: Seq<T>| #[trigger]
            is_walk(walk, edges) && walk[0] == y && walk.last() == z;
        let walk = seq![x] + tail;
        assert forall|k: int| 0 <= k < walk.len() - 1 implies #[trigger] linked(walk, edges, k) by {
            if k > 0 {
                assert(linked(tail, edges, k - 1));
            }
        }
        assert(is_walk(walk, edges) && walk[0] == x && walk.last() == z);
    }
}

} // verus!
