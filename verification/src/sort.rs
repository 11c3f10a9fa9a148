//! The stable constrained sorter.
//!
//! `topo_sort` brings a list of distinct items into an order in which every
//! constraint between two items of the list holds, and moves an item only
//! when a constraint asks for it.

use vstd::prelude::*;
use toposort_scc::IndexGraph;
use crate::graph::{
    graph_edges, graph_size, has_cycle, is_first_violation, is_rearrangement,
    is_topological_order, is_walk, iterate, lemma_edge_goes_forward, lemma_iterate_rearranges,
    lemma_move_forward, lemma_move_forward_rearranges, lemma_precede_through,
    lemma_ranking_excludes_cycles, lemma_settled_is_fixed, lemma_step_moves, linked, move_forward,
    must_precede, settled, violates,
};
use crate::rules::{
    get_mods_from_rules, lemma_mentioned_distinct, mentioned, Constraint, Name, Rules,
};
use crate::text::names;

verus! {

/// The constraints cannot all hold: they contain a cycle.
#[derive(Debug, Clone, Copy, PartialEq, Eq)]
pub struct CycleError;

/// The constraints between two items that are both in `items`.
pub open spec fn present_constraints(items: Seq<Name>, rules: Seq<Constraint>) -> Set<Constraint> {
    Set::new(|c: Constraint| rules.contains(c) && items.contains(c.0) && items.contains(c.1))
}

/// `out` is the order that sorting gives to `items`: it holds the same
/// items, no item stands behind one that it has to precede, and it is
/// reached from `items` by repeating the repair of the first violation.
pub open spec fn is_stable_order(items: Seq<Name>, rules: Seq<Constraint>, out: Seq<Name>) -> bool {
    let edges = present_constraints(items, rules);
    &&& is_rearrangement(items, out)
    &&& settled(out, edges, out.len() as int)
    &&& exists|k: nat| out == #[trigger] iterate(items, edges, k)
}

/// Order validity: where the constraints hold no cycle, the sorted order
/// puts the first item of every constraint between two listed items before
/// the second.
pub proof fn lemma_order_validity(
    items: Seq<Name>,
    rules: Seq<Constraint>,
    out: Seq<Name>,
    x: Name,
    y: Name,
)
    requires
        is_stable_order(items, rules, out),
        !has_cycle(present_constraints(items, rules)),
        rules.contains((x, y)),
        items.contains(x),
        items.contains(y),
    ensures
        0 <= out.index_of(x) < out.index_of(y) < out.len(),
{
    let edges = present_constraints(items, rules);
    assert(edges.contains((x, y)));
    assert(out.contains(x) && out.contains(y));
    let p = out.index_of(x);
    let q = out.index_of(y);
    if q < p {
        assert(violates(out, edges, p, q));
    } else if p == q {
        lemma_precede_through(edges, x, y, y);
        assert(must_precede(edges, x, x));
    }
}

/// Idempotence: sorting a sorted order again gives the same order, and
/// the constraints that count are the same as before.
pub proof fn lemma_sort_idempotent(
    items: Seq<Name>,
    rules: Seq<Constraint>,
    out: Seq<Name>,
    again: Seq<Name>,
)
    requires
        is_stable_order(items, rules, out),
        is_stable_order(out, rules, again),
    ensures
        present_constraints(out, rules) == present_constraints(items, rules),
        again == out,
{
    let edges = present_constraints(items, rules);
    assert(present_constraints(out, rules) =~= edges);
    let k = choose|k: nat| again == #[trigger] iterate(out, edges, k);
    lemma_settled_is_fixed(out, edges, k);
}

/// What it takes to overtake: an item `b` that stood behind `a` and stands
/// before it after `k` repairs has to precede `a`, or an item that stood
/// before `a`.
pub proof fn lemma_overtaking(
    items: Seq<Name>,
    edges: Set<Constraint>,
    k: nat,
    a: Name,
    b: Name,
) -> (z: Name)
    requires
        items.no_duplicates(),
        items.contains(a),
        items.contains(b),
        items.index_of(a) < items.index_of(b),
        iterate(items, edges, k).index_of(b) < iterate(items, edges, k).index_of(a),
    ensures
        must_precede(edges, b, z),
        items.contains(z),
        items.index_of(z) <= items.index_of(a),
    decreases k,
{
    let s = iterate(items, edges, k);
    lemma_iterate_rearranges(items, edges, k);
    if k == 0 {
        // nothing has moved yet
        a
    } else {
        let prev = iterate(items, edges, (k - 1) as nat);
        lemma_iterate_rearranges(items, edges, (k - 1) as nat);
        assert(prev.contains(a) && prev.contains(b));
        assert(s.contains(a) && s.contains(b));
        let pa = prev.index_of(a);
        let pb = prev.index_of(b);
        if pb < pa {
            lemma_overtaking(items, edges, (k - 1) as nat, a, b)
        } else {
            assert(pa != pb);
            assert(exists|i: int, j: int| is_first_violation(prev, edges, prev.len() as int, i, j));
            let (i, j) = choose|i: int, j: int|
                is_first_violation(prev, edges, prev.len() as int, i, j);
            assert(violates(prev, edges, i, j));
            lemma_move_forward(prev, i, j);
            let spot = |p: int|
                if p < j || p > i {
                    p
                } else if p == i {
                    j
                } else {
                    p + 1
                };
            assert(s[spot(pa)] == a);
            assert(s[spot(pb)] == b);
            assert(s.index_of(a) == spot(pa));
            assert(s.index_of(b) == spot(pb));
            assert(pb == i && j <= pa < i);
            let y = prev[j];
            assert(prev.contains(y));
            assert(items.contains(y));
            if pa == j {
                lemma_precede_through(edges, b, y, a);
                a
            } else if items.index_of(y) < items.index_of(a) {
                lemma_precede_through(edges, b, y, y);
                y
            } else {
                assert(items.index_of(y) != items.index_of(a));
                assert(prev.index_of(y) == j);
                let z = lemma_overtaking(items, edges, (k - 1) as nat, a, y);
                lemma_precede_through(edges, b, y, z);
                z
            }
        }
    }
}

/// Stability: two items keep the order in which they were listed, unless
/// the later one has to precede the earlier one or an item that was listed
/// before the earlier one.
pub proof fn lemma_stability(
    items: Seq<Name>,
    rules: Seq<Constraint>,
    out: Seq<Name>,
    a: Name,
    b: Name,
)
    requires
        items.no_duplicates(),
        is_stable_order(items, rules, out),
        items.contains(a),
        items.contains(b),
        items.index_of(a) < items.index_of(b),
        !must_precede(present_constraints(items, rules), b, a),
        forall|z: Name|
            items.contains(z) && items.index_of(z) < items.index_of(a) ==> !#[trigger] must_precede(
                present_constraints(items, rules),
                b,
                z,
            ),
    ensures
        out.index_of(a) < out.index_of(b),
{
    let edges = present_constraints(items, rules);
    let k = choose|k: nat| out == #[trigger] iterate(items, edges, k);
    assert(out.contains(a) && out.contains(b));
    if out.index_of(b) < out.index_of(a) {
        let z = lemma_overtaking(items, edges, k, a, b);
        assert(items.index_of(z) == items.index_of(a) ==> z == a);
    }
}

/// The items at the indices that `s` lists.
pub open spec fn relabel(s: Seq<usize>, items: Seq<Name>) -> Seq<Name> {
    s.map_values(|v: usize| items[v as int])
}

/// The index edges stand for exactly the name edges between `items`.
pub open spec fn agrees(items: Seq<Name>, index_edges: Set<(usize, usize)>, edges: Set<Constraint>) -> bool {
    &&& forall|x: usize, y: usize| #[trigger]
        index_edges.contains((x, y)) ==> x < items.len() && y < items.len()
    &&& forall|x: usize, y: usize|
        x < items.len() && y < items.len() ==> (index_edges.contains((x, y)) <==> edges.contains(
            (#[trigger] items[x as int], #[trigger] items[y as int]),
        ))
}

/// A number that falls whenever an arrangement gets, at the first place
/// where it changes, an element that `order` lists earlier.
pub open spec fn arrangement_weight(s: Seq<usize>, order: Seq<usize>) -> nat
    decreases s.len(),
{
    if s.len() == 0 {
        0
    } else {
        arrangement_weight(s.drop_last(), order) * order.len() + order.index_of(s.last()) as nat
    }
}

proof fn lemma_weight_decreases(s: Seq<usize>, t: Seq<usize>, order: Seq<usize>, j: int)
    requires
        s.len() == t.len(),
        0 <= j < s.len(),
        forall|p: int| 0 <= p < j ==> s[p] == t[p],
        forall|p: int| 0 <= p < s.len() ==> order.contains(#[trigger] s[p]),
        forall|p: int| 0 <= p < t.len() ==> order.contains(#[trigger] t[p]),
        order.index_of(t[j]) < order.index_of(s[j]),
    ensures
        arrangement_weight(t, order) < arrangement_weight(s, order),
    decreases s.len(),
{
    let sd = s.drop_last();
    let td = t.drop_last();
    let n = order.len() as int;
    assert(order.contains(s.last()));
    assert(order.contains(t.last()));
    if j == s.len() - 1 {
        assert(sd =~= td);
    } else {
        lemma_weight_decreases(sd, td, order, j);
        let ws = arrangement_weight(sd, order) as int;
        let wt = arrangement_weight(td, order) as int;
        assert((wt + 1) * n <= ws * n) by (nonlinear_arith)
            requires
                wt + 1 <= ws,
                0 <= n,
        ;
        assert((wt + 1) * n == wt * n + n) by (nonlinear_arith);
    }
}

/// A cycle among index edges is a cycle among the name edges they stand for.
proof fn lemma_cycle_carries_over(
    items: Seq<Name>,
    index_edges: Set<(usize, usize)>,
    edges: Set<Constraint>,
)
    requires
        agrees(items, index_edges, edges),
        has_cycle(index_edges),
    ensures
        has_cycle(edges),
{
    let x = choose|x: usize| #[trigger] must_precede(index_edges, x, x);
    let walk = choose|walk: Seq<usize>| #[trigger]
        is_walk(walk, index_edges) && walk[0] == x && walk.last() == x;
    let named = relabel(walk, items);
    assert forall|k: int| 0 <= k < named.len() - 1 implies #[trigger] linked(named, edges, k) by {
        assert(linked(walk, index_edges, k));
        assert(index_edges.contains((walk[k], walk[k + 1])));
    }
    assert(is_walk(named, edges) && named[0] == named[0] && named.last() == named[0]);
    assert(must_precede(edges, named[0], named[0]));
}

/// Name edges that stand for topologically ordered index edges hold no cycle.
proof fn lemma_order_excludes_cycles(
    items: Seq<Name>,
    index_edges: Set<(usize, usize)>,
    edges: Set<Constraint>,
    order: Seq<usize>,
)
    requires
        items.no_duplicates(),
        items.len() <= usize::MAX,
        agrees(items, index_edges, edges),
        is_topological_order(order, items.len(), index_edges),
        forall|a: Name, b: Name| #[trigger]
            edges.contains((a, b)) ==> items.contains(a) && items.contains(b),
    ensures
        !has_cycle(edges),
{
    let rank = |x: Name| order.index_of(items.index_of(x) as usize);
    assert forall|a: Name, b: Name| #[trigger] edges.contains((a, b)) implies rank(a) < rank(
        b,
    ) by {
        assert(items.contains(a) && items.contains(b));
        let ia = items.index_of(a);
        let ib = items.index_of(b);
        assert(items[ia as usize as int] == a);
        assert(items[ib as usize as int] == b);
        assert(index_edges.contains((ia as usize, ib as usize)));
        lemma_edge_goes_forward(order, items.len(), index_edges, ia as usize, ib as usize);
    }
    lemma_ranking_excludes_cycles(edges, rank);
}

/// The first place at which `list` holds `name`.
pub fn position(list: &Vec<String>, name: &String) -> (found: Option<usize>)
    ensures
        found matches Some(i) ==> i < list.len() && list[i as int]@ == name@ && forall|k: int|
            0 <= k < i ==> list[k]@ != name@,
        found is None ==> !names(list@).contains(name@),
{
    let mut i: usize = 0;
    while i < list.len()
        invariant
            i <= list.len(),
            forall|k: int| 0 <= k < i ==> list[k]@ != name@,
        decreases list.len() - i,
    {
        if list[i] == *name {
            return Some(i);
        }
        i += 1;
    }
    proof {
        assert forall|k: int| 0 <= k < list.len() implies names(list@)[k] != name@ by {
            assert(names(list@)[k] == list[k]@);
        }
    }
    None
}

/// Whether `edges` lists the edge `(x, y)`.
pub fn contains_edge(edges: &[(usize, usize)], x: usize, y: usize) -> (found: bool)
    ensures
        found == edges@.contains((x, y)),
{
    let mut k: usize = 0;
    while k < edges.len()
        invariant
            k <= edges.len(),
            forall|e: int| 0 <= e < k ==> edges@[e] != (x, y),
        decreases edges.len() - k,
    {
        if edges[k].0 == x && edges[k].1 == y {
            assert(edges@[k as int] == (x, y));
            return true;
        }
        k += 1;
    }
    false
}

/// One repair of an arrangement of vertices.
///
/// Scans the pairs `(i, j)` with `j < i < n`, by rising `i` and for each
/// `i` by rising `j`. At the first pair whose vertex at `i` has an edge to
/// the vertex at `j`, the vertex at `i` is taken out and put back at `j`,
/// and the result is `true`. Where no such pair is found, `result` stays as
/// it is and the result is `false`.
pub fn stable_topo_sort_inner(n: usize, edges: &[(usize, usize)], result: &mut Vec<usize>) -> (moved:
    bool)
    requires
        n <= old(result).len(),
    ensures
        moved ==> exists|i: int, j: int|
            #![trigger move_forward(old(result)@, i, j)]
            is_first_violation(old(result)@, edges@.to_set(), n as int, i, j) && final(result)@
                == move_forward(old(result)@, i, j),
        !moved ==> settled(old(result)@, edges@.to_set(), n as int) && final(result)@ == old(
            result,
        )@,
{
    let ghost start = result@;
    let ghost es = edges@.to_set();
    let mut i: usize = 0;
    while i < n
        invariant
            i <= n <= result.len(),
            result@ == start,
            start == old(result)@,
            es == edges@.to_set(),
            forall|i2: int, j2: int| i2 < i ==> !#[trigger] violates(start, es, i2, j2),
        decreases n - i,
    {
        let mut j: usize = 0;
        while j < i
            invariant
                j <= i < n <= result.len(),
                result@ == start,
                start == old(result)@,
                es == edges@.to_set(),
                forall|i2: int, j2: int| i2 < i ==> !#[trigger] violates(start, es, i2, j2),
                forall|j2: int| j2 < j ==> !#[trigger] violates(start, es, i as int, j2),
            decreases i - j,
        {
            let x: usize = result[i];
            let y: usize = result[j];
            if contains_edge(edges, x, y) {
                let t: usize = result.remove(i);
                result.insert(j, t);
                proof {
                    assert(violates(start, es, i as int, j as int));
                    assert(is_first_violation(start, es, n as int, i as int, j as int));
                    assert(result@ == move_forward(start, i as int, j as int));
                }
                return true;
            }
            j += 1;
        }
        i += 1;
    }
    false
}

/// Sorts `mods` by the rules.
///
/// A constraint counts when both its items are in `mods`. Where these
/// constraints hold a cycle the result is `CycleError`. Otherwise the
/// result holds the items of `mods` in the order that is reached by
/// repairing the first violation until none is left: every constraint
/// that counts holds in it, and a list in which they all hold already
/// comes back as it is.
pub fn topo_sort(mods: &Vec<String>, rules: &Rules) -> (sorted: Result<Vec<String>, CycleError>)
    requires
        names(mods@).no_duplicates(),
    ensures
        sorted is Err <==> has_cycle(present_constraints(names(mods@), rules@)),
        sorted matches Ok(out) ==> is_stable_order(names(mods@), rules@, names(out@)),
        sorted matches Ok(out) ==> forall|x: Name, y: Name|
            #![trigger rules@.contains((x, y))]
            rules@.contains((x, y)) && names(mods@).contains(x) && names(mods@).contains(y)
                ==> names(out@).index_of(x) < names(out@).index_of(y),
        sorted matches Ok(out) ==> (settled(
            names(mods@),
            present_constraints(names(mods@), rules@),
            mods@.len() as int,
        ) ==> names(out@) == names(mods@)),
        rules@.len() == 0 || mods@.len() == 0 ==> sorted is Ok && names(sorted->Ok_0@) == names(
            mods@,
        ),
{
    let n: usize = mods.len();
    let ghost items = names(mods@);
    let ghost wanted = present_constraints(items, rules@);
    let mut g = IndexGraph::with_vertices(n);
    let mut edges: Vec<(usize, usize)> = Vec::new();
    let mut c: usize = 0;
    proof {
        assert(edges@.to_set() =~= Set::<(usize, usize)>::empty());
    }
    while c < rules.order.len()
        invariant
            c <= rules.order.len(),
            n == mods.len(),
            items == names(mods@),
            items.no_duplicates(),
            wanted == present_constraints(items, rules@),
            graph_size(g) == n,
            graph_edges(g) == edges@.to_set(),
            forall|e: int| 0 <= e < edges.len() ==> (#[trigger] edges[e]).0 < n && edges[e].1 < n,
            forall|e: int|
                0 <= e < edges.len() ==> wanted.contains(
                    (items[(#[trigger] edges[e]).0 as int], items[edges[e].1 as int]),
                ),
            forall|r: int, x: int, y: int|
                0 <= r < c && 0 <= x < n && 0 <= y < n && #[trigger] rules@[r] == (
                    #[trigger] items[x],
                    #[trigger] items[y],
                ) ==> edges@.contains((x as usize, y as usize)),
        decreases rules.order.len() - c,
    {
        let before = position(mods, &rules.order[c].0);
        let after = position(mods, &rules.order[c].1);
        let ghost listed = edges@;
        proof {
            assert(rules@[c as int] == (rules.order[c as int].0@, rules.order[c as int].1@));
        }
        match (before, after) {
            (Some(ia), Some(ib)) => {
                g.add_edge(ia, ib);
                edges.push((ia, ib));
                proof {
                    listed.lemma_push_to_set_commute((ia, ib));
                    assert(items[ia as int] == rules@[c as int].0);
                    assert(items[ib as int] == rules@[c as int].1);
                    assert(rules@.contains(rules@[c as int]));
                    assert(wanted.contains((items[ia as int], items[ib as int])));
                    assert forall|e: int| 0 <= e < edges.len() implies wanted.contains(
                        (items[(#[trigger] edges[e]).0 as int], items[edges[e].1 as int]),
                    ) by {
                        if e < listed.len() {
                            assert(edges[e] == listed[e]);
                        }
                    }
                    assert forall|r: int, x: int, y: int|
                        0 <= r < c + 1 && 0 <= x < n && 0 <= y < n && #[trigger] rules@[r] == (
                            #[trigger] items[x],
                            #[trigger] items[y],
                        ) implies edges@.contains((x as usize, y as usize)) by {
                        if r < c {
                            assert(listed.contains((x as usize, y as usize)));
                            let e = choose|e: int|
                                0 <= e < listed.len() && listed[e] == (x as usize, y as usize);
                            assert(edges@[e] == (x as usize, y as usize));
                        } else {
                            assert(x == ia && y == ib);
                            assert(edges@[listed.len() as int] == (ia, ib));
                        }
                    }
                }
            },
            _ => {
                proof {
                    assert forall|r: int, x: int, y: int|
                        0 <= r < c + 1 && 0 <= x < n && 0 <= y < n && #[trigger] rules@[r] == (
                            #[trigger] items[x],
                            #[trigger] items[y],
                        ) implies edges@.contains((x as usize, y as usize)) by {
                        if r == c {
                            assert(items.contains(items[x]));
                            assert(items.contains(items[y]));
                        }
                    }
                }
            },
        }
        c += 1;
    }
    let ghost es = edges@.to_set();
    proof {
        assert forall|x: usize, y: usize| #[trigger] es.contains((x, y)) implies x < items.len()
            && y < items.len() by {
            let e = choose|e: int| 0 <= e < edges@.len() && edges@[e] == (x, y);
            assert(edges[e].0 < n);
        }
        assert forall|x: usize, y: usize| x < items.len() && y < items.len() implies (es.contains(
            (x, y),
        ) <==> wanted.contains((#[trigger] items[x as int], #[trigger] items[y as int]))) by {
            if es.contains((x, y)) {
                let e = choose|e: int| 0 <= e < edges@.len() && edges@[e] == (x, y);
                assert(wanted.contains((items[edges[e].0 as int], items[edges[e].1 as int])));
            }
            if wanted.contains((items[x as int], items[y as int])) {
                let pair = (items[x as int], items[y as int]);
                let r = choose|r: int| 0 <= r < rules@.len() && rules@[r] == pair;
                assert(rules@[r] == (items[x as int], items[y as int]));
                assert(edges@.contains((x as int as usize, y as int as usize)));
            }
        }
        assert(agrees(items, es, wanted));
    }
    let order = match g.toposort() {
        None => {
            proof {
                lemma_cycle_carries_over(items, es, wanted);
                if rules@.len() == 0 || mods@.len() == 0 {
                    // no constraint counts, so there is no cycle
                    assert forall|a: Name, b: Name| !#[trigger] wanted.contains((a, b)) by {
                        if wanted.contains((a, b)) {
                            assert(rules@.contains((a, b)) && items.contains(a));
                        }
                    }
                    lemma_ranking_excludes_cycles(wanted, |x: Name| 0int);
                }
            }
            return Err(CycleError);
        },
        Some(order) => order,
    };
    let ghost ranks = order@;
    proof {
        lemma_order_excludes_cycles(items, es, wanted, ranks);
    }
    let mut result: Vec<usize> = Vec::new();
    let mut v: usize = 0;
    while v < n
        invariant
            v <= n,
            n == items.len(),
            result.len() == v,
            forall|p: int| 0 <= p < v ==> result[p] == p,
        decreases n - v,
    {
        result.push(v);
        v += 1;
    }
    let ghost mut repairs: nat = 0;
    proof {
        assert(relabel(result@, items) =~= items);
        assert forall|q: usize| q < n implies #[trigger] result@.contains(q) by {
            assert(result@[q as int] == q);
        }
    }
    loop
        invariant
            n == items.len(),
            result.len() == n,
            items.no_duplicates(),
            es == edges@.to_set(),
            agrees(items, es, wanted),
            is_topological_order(ranks, n as nat, es),
            forall|p: int| 0 <= p < n ==> #[trigger] result@[p] < n,
            forall|q: usize| q < n ==> #[trigger] result@.contains(q),
            result@.no_duplicates(),
            relabel(result@, items) == iterate(items, wanted, repairs),
        ensures
            settled(result@, es, n as int),
        decreases arrangement_weight(result@, ranks),
    {
        let ghost before = result@;
        let moved = stable_topo_sort_inner(n, edges.as_slice(), &mut result);
        if !moved {
            break ;
        }
        proof {
            let (i, j) = choose|i: int, j: int|
                #![trigger move_forward(before, i, j)]
                is_first_violation(before, es, n as int, i, j) && result@ == move_forward(
                    before,
                    i,
                    j,
                );
            lemma_move_forward(before, i, j);
            lemma_move_forward_rearranges(before, i, j);
            assert forall|q: usize| q < n implies #[trigger] result@.contains(q) by {
                assert(before.contains(q));
            }
            assert forall|p: int| 0 <= p < n implies #[trigger] result@[p] < n by {
                assert(result@.contains(result@[p]));
                assert(before.contains(result@[p]));
            }
            // the same repair, seen on the names
            let named = relabel(before, items);
            assert forall|i2: int, j2: int|
                violates(named, wanted, i2, j2) == violates(before, es, i2, j2) by {
                if 0 <= j2 < i2 < before.len() {
                    assert(before[i2] < n && before[j2] < n);
                }
            }
            assert(is_first_violation(named, wanted, named.len() as int, i, j));
            lemma_step_moves(named, wanted, i, j);
            assert(relabel(result@, items) =~= move_forward(named, i, j));
            // the arrangement got lighter
            assert(violates(before, es, i, j));
            lemma_edge_goes_forward(ranks, n as nat, es, before[i], before[j]);
            assert forall|p: int| 0 <= p < before.len() implies ranks.contains(
                #[trigger] before[p],
            ) by {
                assert(before[p] < n);
            }
            assert forall|p: int| 0 <= p < result@.len() implies ranks.contains(
                #[trigger] result@[p],
            ) by {
                assert(result@[p] < n);
            }
            lemma_weight_decreases(before, result@, ranks, j);
            repairs = repairs + 1;
        }
    }
    let mut out: Vec<String> = Vec::new();
    let mut k: usize = 0;
    while k < n
        invariant
            k <= n,
            n == mods.len(),
            result.len() == n,
            items == names(mods@),
            forall|p: int| 0 <= p < n ==> #[trigger] result@[p] < n,
            names(out@) == relabel(result@, items).subrange(0, k as int),
        decreases n - k,
    {
        let item = mods[result[k]].clone();
        proof {
            assert(names(out@.push(item)) == names(out@).push(item@));
            assert(relabel(result@, items).subrange(0, k + 1) == relabel(result@, items).subrange(
                0,
                k as int,
            ).push(item@));
        }
        out.push(item);
        k += 1;
    }
    proof {
        let named = relabel(result@, items);
        assert(named.subrange(0, n as int) == named);
        assert forall|i2: int, j2: int| i2 < named.len() implies !#[trigger] violates(
            named,
            wanted,
            i2,
            j2,
        ) by {
            if 0 <= j2 < i2 < named.len() {
                assert(result@[i2] < n && result@[j2] < n);
                assert(!violates(result@, es, i2, j2));
            }
        }
        assert forall|p: int, q: int| 0 <= p < named.len() && 0 <= q < named.len() && p
            != q implies named[p] != named[q] by {
            assert(result@[p] < n && result@[q] < n);
            assert(result@[p] != result@[q]);
        }
        assert forall|x: Name| items.contains(x) <==> named.contains(x) by {
            if items.contains(x) {
                let q = items.index_of(x);
                assert(result@.contains(q as usize));
                let p = choose|p: int| 0 <= p < result@.len() && result@[p] == q as usize;
                assert(named[p] == x);
            }
            if named.contains(x) {
                let p = choose|p: int| 0 <= p < named.len() && named[p] == x;
                assert(result@[p] < n);
                assert(items[result@[p] as int] == x);
            }
        }
        assert(named == iterate(items, wanted, repairs));
        assert(is_stable_order(items, rules@, named));
        if rules@.len() == 0 || mods@.len() == 0 {
            assert forall|i2: int, j2: int| !#[trigger] violates(items, wanted, i2, j2) by {
                if violates(items, wanted, i2, j2) {
                    assert(rules@.contains((items[i2], items[j2])));
                }
            }
        }
        if settled(items, wanted, items.len() as int) {
            lemma_settled_is_fixed(items, wanted, repairs);
        }
        assert forall|x: Name, y: Name|
            #![trigger rules@.contains((x, y))]
            rules@.contains((x, y)) && items.contains(x) && items.contains(y) implies named.index_of(
            x,
        ) < named.index_of(y) by {
            lemma_order_validity(items, rules@, named, x, y);
        }
    }
    Ok(out)
}

/// Whether the rules can all hold at once: whether the items they mention
/// can be sorted by them.
pub fn verify_rules(rules: &Rules) -> (sound: bool)
    ensures
        sound == !has_cycle(present_constraints(mentioned(rules@), rules@)),
{
    let mods = get_mods_from_rules(rules);
    proof {
        lemma_mentioned_distinct(rules@);
    }
    topo_sort(&mods, rules).is_ok()
}

} // verus!
