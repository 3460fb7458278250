//! Topological sorting of a directed graph given by adjacency lists.
//!
//! A graph is a sequence of adjacency lists: `graph[u]` holds the vertices
//! that `u` points to.  Entries that are not vertices of the graph (not below
//! `graph.len()`) are ignored.

use vstd::prelude::*;
use std::collections::VecDeque;

verus! {

broadcast use {
    vstd::seq_lib::lemma_seq_contains_after_push,
    vstd::seq_lib::lemma_seq_concat_contains_all_elements,
    vstd::seq_lib::lemma_seq_empty_contains_nothing,
};

/// The number of occurrences of `v` in `s`.
pub open spec fn occ(s: Seq<usize>, v: usize) -> nat
    decreases s.len(),
{
    if s.len() == 0 {
        0
    } else {
        occ(s.drop_last(), v) + if s.last() == v { 1nat } else { 0nat }
    }
}

/// There is an edge from `u` to `v`, both vertices of `g`.
pub open spec fn has_edge(g: Seq<Vec<usize>>, u: int, v: int) -> bool {
    &&& 0 <= u < g.len()
    &&& 0 <= v < g.len()
    &&& g[u]@.contains(v as usize)
}

/// `order` lists every vertex of `g` exactly once.
pub open spec fn is_vertex_permutation(g: Seq<Vec<usize>>, order: Seq<usize>) -> bool {
    &&& order.len() == g.len()
    &&& order.no_duplicates()
    &&& forall|i: int| 0 <= i < order.len() ==> (order[i] as int) < g.len()
}

/// `order` lists every vertex of `g` exactly once, and every edge of `g`
/// goes from a vertex to a later one.
pub open spec fn is_topological_order(g: Seq<Vec<usize>>, order: Seq<usize>) -> bool {
    &&& is_vertex_permutation(g, order)
    &&& forall|i: int, k: int|
        0 <= i < order.len() && 0 <= k < order.len() && #[trigger] has_edge(g, order[k] as int, order[i] as int)
            ==> k < i
}

/// `g` can be ordered topologically, that is, it has no cycle.
pub open spec fn has_topological_order(g: Seq<Vec<usize>>) -> bool {
    exists|order: Seq<usize>| is_topological_order(g, order)
}

/// The number of edges into `v` from the vertices below `lim` that are not
/// listed in `done`, counted with multiplicity.
pub open spec fn edges_into(g: Seq<Vec<usize>>, v: usize, lim: int, done: Seq<usize>) -> nat
    decreases lim,
{
    if lim <= 0 {
        0
    } else {
        edges_into(g, v, lim - 1, done) + if done.contains((lim - 1) as usize) {
            0nat
        } else {
            occ(g[lim - 1]@, v)
        }
    }
}

/// The in-degree of `v` in `g`, with multiplicity.
pub open spec fn in_degree(g: Seq<Vec<usize>>, v: usize) -> nat {
    edges_into(g, v, g.len() as int, Seq::empty())
}

/// Every in-degree of `g` fits in a `usize`.
pub open spec fn in_degrees_fit(g: Seq<Vec<usize>>) -> bool {
    forall|v: usize| (v as int) < g.len() ==> #[trigger] in_degree(g, v) <= usize::MAX
}

proof fn lemma_occ_take_step(s: Seq<usize>, j: int, v: usize)
    requires
        0 <= j < s.len(),
    ensures
        occ(s.take(j + 1), v) == occ(s.take(j), v) + if s[j] == v { 1nat } else { 0nat },
{
    assert(s.take(j + 1).drop_last() =~= s.take(j));
}

proof fn lemma_occ_take_le(s: Seq<usize>, j: int, v: usize)
    requires
        0 <= j <= s.len(),
    ensures
        occ(s.take(j), v) <= occ(s, v),
    decreases s.len() - j,
{
    if j < s.len() {
        lemma_occ_take_step(s, j, v);
        lemma_occ_take_le(s, j + 1, v);
    } else {
        assert(s.take(j) =~= s);
    }
}

proof fn lemma_occ_zero(s: Seq<usize>, v: usize)
    ensures
        occ(s, v) == 0 <==> !s.contains(v),
    decreases s.len(),
{
    if s.len() > 0 {
        lemma_occ_zero(s.drop_last(), v);
        if s.drop_last().contains(v) {
            let k = choose|k: int| 0 <= k < s.drop_last().len() && s.drop_last()[k] == v;
            assert(s[k] == v);
        }
        if s.contains(v) && s.last() != v {
            let k = choose|k: int| 0 <= k < s.len() && s[k] == v;
            assert(s.drop_last()[k] == v);
        }
    }
}

proof fn lemma_edges_into_mono(g: Seq<Vec<usize>>, v: usize, lim1: int, lim2: int, done: Seq<usize>)
    requires
        lim1 <= lim2,
    ensures
        edges_into(g, v, lim1, done) <= edges_into(g, v, lim2, done),
    decreases lim2 - lim1,
{
    if lim1 < lim2 {
        lemma_edges_into_mono(g, v, lim1, lim2 - 1, done);
    }
}

proof fn lemma_edges_into_zero(g: Seq<Vec<usize>>, v: usize, lim: int, done: Seq<usize>)
    requires
        lim <= g.len(),
    ensures
        edges_into(g, v, lim, done) == 0 <==> (forall|w: int|
            0 <= w < lim && !done.contains(w as usize) ==> !#[trigger] g[w]@.contains(v)),
    decreases lim,
{
    if lim > 0 {
        lemma_edges_into_zero(g, v, lim - 1, done);
        lemma_occ_zero(g[lim - 1]@, v);
    }
}

proof fn lemma_edges_into_remove(g: Seq<Vec<usize>>, v: usize, lim: int, done: Seq<usize>, u: usize)
    requires
        0 <= u < lim <= g.len(),
        g.len() <= usize::MAX,
        !done.contains(u),
    ensures
        edges_into(g, v, lim, done) >= occ(g[u as int]@, v),
        edges_into(g, v, lim, done.push(u)) == edges_into(g, v, lim, done) - occ(g[u as int]@, v),
    decreases lim,
{
    assert forall|x: usize| x != u implies (done.push(u).contains(x) <==> done.contains(x)) by {
        if done.push(u).contains(x) {
            let k = choose|k: int| 0 <= k < done.push(u).len() && done.push(u)[k] == x;
            assert(done[k] == x);
        }
        if done.contains(x) {
            let k = choose|k: int| 0 <= k < done.len() && done[k] == x;
            assert(done.push(u)[k] == x);
        }
    }
    assert(done.push(u)[done.len() as int] == u);
    assert(done.push(u).contains(u));
    if lim - 1 == u {
        assert((lim - 1) as usize == u);
        lemma_edges_into_same(g, v, lim - 1, done, done.push(u));
    } else {
        assert((lim - 1) as usize != u);
        lemma_edges_into_remove(g, v, lim - 1, done, u);
    }
}

proof fn lemma_edges_into_same(g: Seq<Vec<usize>>, v: usize, lim: int, d1: Seq<usize>, d2: Seq<usize>)
    requires
        forall|x: usize| (x as int) < lim ==> (d1.contains(x) <==> d2.contains(x)),
    ensures
        edges_into(g, v, lim, d1) == edges_into(g, v, lim, d2),
    decreases lim,
{
    if lim > 0 {
        lemma_edges_into_same(g, v, lim - 1, d1, d2);
    }
}

/// A sequence of distinct values below `n` is no longer than `n`, and it is
/// exactly as long when it holds every value below `n`.
pub proof fn lemma_distinct_below(s: Seq<usize>, n: int)
    requires
        0 <= n,
        n <= usize::MAX as int + 1,
        s.no_duplicates(),
        forall|i: int| 0 <= i < s.len() ==> (s[i] as int) < n,
    ensures
        s.len() <= n,
        (s.len() == n) <==> (forall|v: usize| (v as int) < n ==> s.contains(v)),
    decreases n,
{
    if n == 0 {
        if s.len() > 0 {
            assert(s[0] < n);
        }
        assert(s.len() == 0);
    } else {
        let top = (n - 1) as usize;
        assert(top as int == n - 1);
        if s.contains(top) {
            let k = choose|k: int| 0 <= k < s.len() && s[k] == top;
            let t = s.remove(k);
            assert forall|i: int| 0 <= i < t.len() implies (t[i] as int) < n - 1 by {
                if i < k {
                    assert(t[i] == s[i]);
                } else {
                    assert(t[i] == s[i + 1]);
                }
            }
            assert(t.no_duplicates()) by {
                assert forall|i: int, j: int| 0 <= i < t.len() && 0 <= j < t.len() && i != j implies t[i] != t[j] by {
                    let si = if i < k { i } else { i + 1 };
                    let sj = if j < k { j } else { j + 1 };
                    assert(t[i] == s[si]);
                    assert(t[j] == s[sj]);
                }
            }
            lemma_distinct_below(t, n - 1);
            if s.len() == n {
                assert forall|v: usize| (v as int) < n implies s.contains(v) by {
                    if v == top {
                        assert(s[k] == v);
                    } else {
                        assert(t.contains(v));
                        let j = choose|j: int| 0 <= j < t.len() && t[j] == v;
                        if j < k {
                            assert(s[j] == v);
                        } else {
                            assert(s[j + 1] == v);
                        }
                    }
                }
            }
            if forall|v: usize| (v as int) < n ==> s.contains(v) {
                assert forall|v: usize| (v as int) < n - 1 implies t.contains(v) by {
                    assert(s.contains(v));
                    let j = choose|j: int| 0 <= j < s.len() && s[j] == v;
                    assert(j != k);
                    if j < k {
                        assert(t[j] == v);
                    } else {
                        assert(t[j - 1] == v);
                    }
                }
            }
        } else {
            assert forall|i: int| 0 <= i < s.len() implies (s[i] as int) < n - 1 by {
                if s[i] as int == n - 1 {
                    assert(s.contains(top));
                }
            }
            lemma_distinct_below(s, n - 1);
        }
    }
}

/// Some element of `o` is not in `done`, and `m` is the first such index.
proof fn first_missing(o: Seq<usize>, done: Seq<usize>, i: int) -> (m: int)
    requires
        0 <= i < o.len(),
        !done.contains(o[i]),
    ensures
        0 <= m <= i,
        !done.contains(o[m]),
        forall|j: int| 0 <= j < m ==> done.contains(#[trigger] o[j]),
    decreases i,
{
    if exists|j: int| 0 <= j < i && !done.contains(o[j]) {
        let j = choose|j: int| 0 <= j < i && !done.contains(o[j]);
        first_missing(o, done, j)
    } else {
        i
    }
}

/// Performs a topological sort with Kahn's algorithm: vertices are emitted
/// as soon as every edge into them comes from an emitted vertex, in the
/// order in which they become ready.
///
/// Returns the order if the graph has one (it has no cycle), and `None`
/// when it has a cycle.
pub fn topological_sort(graph: &[Vec<usize>]) -> (r: Option<Vec<usize>>)
    requires
        in_degrees_fit(graph@),
    ensures
        match r {
            Some(order) => is_topological_order(graph@, order@),
            None => !has_topological_order(graph@),
        },
{
    let ghost g = graph@;
    let n = graph.len();
    let ghost empty = Seq::<usize>::empty();
    assert(forall|x: usize| !empty.contains(x));

    let mut indeg: Vec<usize> = Vec::new();
    while indeg.len() < n
        invariant
            n == g.len(),
            indeg.len() <= n,
            forall|v: int| 0 <= v < indeg.len() ==> indeg[v] == 0,
        decreases n - indeg.len(),
    {
        indeg.push(0);
    }

    // Count the edges into each vertex.
    let mut u: usize = 0;
    while u < n
        invariant
            graph@ == g,
            n == g.len(),
            u <= n,
            indeg.len() == n,
            in_degrees_fit(g),
            empty == Seq::<usize>::empty(),
            forall|v: usize| (v as int) < n ==> #[trigger] indeg@[v as int] == edges_into(g, v, u as int, empty),
        decreases n - u,
    {
        let row = &graph[u];
        let mut j: usize = 0;
        while j < row.len()
            invariant
                graph@ == g,
                n == g.len(),
                u < n,
                row@ == g[u as int]@,
                j <= row.len(),
                indeg.len() == n,
                in_degrees_fit(g),
                empty == Seq::<usize>::empty(),
                forall|v: usize| (v as int) < n ==> #[trigger] indeg@[v as int]
                    == edges_into(g, v, u as int, empty) + occ(row@.take(j as int), v),
            decreases row.len() - j,
        {
            let v = row[j];
            proof {
                assert forall|x: usize| (x as int) < n implies occ(row@.take(j + 1), x)
                    == occ(row@.take(j as int), x) + if row@[j as int] == x { 1nat } else { 0nat } by {
                    lemma_occ_take_step(row@, j as int, x);
                }
            }
            if v < n {
                proof {
                    lemma_occ_take_le(row@, j + 1, v);
                    lemma_edges_into_mono(g, v, u + 1, n as int, empty);
                    assert(!empty.contains(u));
                    assert(edges_into(g, v, u + 1, empty) == edges_into(g, v, u as int, empty) + occ(g[u as int]@, v));
                    assert(in_degree(g, v) <= usize::MAX);
                }
                indeg.set(v, indeg[v] + 1);
            }
            j = j + 1;
        }
        proof {
            assert(row@.take(row@.len() as int) =~= row@);
            assert(!empty.contains(u));
        }
        u = u + 1;
    }

    // Start with every vertex that no edge enters.
    let mut queue: VecDeque<usize> = VecDeque::new();
    let mut result: Vec<usize> = Vec::new();
    let mut w: usize = 0;
    while w < n
        invariant
            graph@ == g,
            n == g.len(),
            w <= n,
            indeg.len() == n,
            empty == Seq::<usize>::empty(),
            result@ == empty,
            forall|v: usize| (v as int) < n ==> #[trigger] indeg@[v as int] == edges_into(g, v, n as int, empty),
            queue@.no_duplicates(),
            forall|i: int| 0 <= i < queue@.len() ==> queue@[i] < w,
            forall|v: usize| v < w ==> (indeg@[v as int] == 0 <==> #[trigger] queue@.contains(v)),
        decreases n - w,
    {
        let ghost before = queue@;
        if indeg[w] == 0 {
            queue.push_back(w);
            proof {
                assert(!before.contains(w));
            }
        }
        proof {
            assert forall|v: usize| v < w + 1 implies (indeg@[v as int] == 0 <==> #[trigger] queue@.contains(v)) by {
                if v < w {
                    assert(before.contains(v) <==> queue@.contains(v));
                }
            }
        }
        w = w + 1;
    }
    proof {
        assert(result@ + queue@ =~= queue@);
    }

    loop
        invariant
            graph@ == g,
            n == g.len(),
            indeg.len() == n,
            (result@ + queue@).no_duplicates(),
            forall|i: int| 0 <= i < (result@ + queue@).len() ==> (result@ + queue@)[i] < n,
            forall|v: usize| (v as int) < n ==> #[trigger] indeg@[v as int] == edges_into(g, v, n as int, result@),
            forall|v: usize| (v as int) < n ==> (indeg@[v as int] == 0 && !result@.contains(v)
                <==> #[trigger] queue@.contains(v)),
            forall|x: usize, y: int| #![trigger result@.contains(x), has_edge(g, y, x as int)]
                result@.contains(x) && 0 <= y < n && !result@.contains(y as usize) ==> !has_edge(g, y, x as int),
            forall|i: int, k: int| #![trigger has_edge(g, result@[k] as int, result@[i] as int)]
                0 <= i <= k < result@.len() ==> !has_edge(g, result@[k] as int, result@[i] as int),
        ensures
            queue@.len() == 0,
        decreases n - result@.len(),
    {
        proof {
            lemma_distinct_below(result@ + queue@, n as int);
        }
        let ghost pre_queue = queue@;
        let popped = queue.pop_front();
        match popped {
            None => {
                break;
            },
            Some(u) => {
                let ghost old_result = result@;
                let ghost old_queue = queue@;
                proof {
                    assert(pre_queue =~= seq![u] + old_queue);
                    assert(old_result + pre_queue =~= old_result.push(u) + old_queue);
                    assert((old_result + pre_queue)[old_result.len() as int] == u);
                    assert(pre_queue.contains(u)) by {
                        assert(pre_queue[0] == u);
                    }
                    assert(!old_result.contains(u)) by {
                        if old_result.contains(u) {
                            let k = choose|k: int| 0 <= k < old_result.len() && old_result[k] == u;
                            assert((old_result + pre_queue)[k] == u);
                        }
                    }
                    assert(!old_queue.contains(u)) by {
                        if old_queue.contains(u) {
                            let k = choose|k: int| 0 <= k < old_queue.len() && old_queue[k] == u;
                            assert((old_result + pre_queue)[old_result.len() + 1 + k] == u);
                        }
                    }
                    assert(indeg@[u as int] == 0);
                    lemma_edges_into_zero(g, u, n as int, old_result);
                    assert forall|v: usize| (v as int) < n implies edges_into(g, v, n as int, old_result)
                        >= #[trigger] occ(g[u as int]@, v) by {
                        lemma_edges_into_remove(g, v, n as int, old_result, u);
                    }
                }
                result.push(u);
                proof {
                    assert(result@ + queue@ =~= old_result + pre_queue);
                    assert forall|v: usize| (v as int) < n implies (indeg@[v as int] == 0 && !result@.contains(v)
                        <==> #[trigger] queue@.contains(v)) by {
                        assert(pre_queue.contains(v) <==> v == u || old_queue.contains(v));
                    }
                }
                let row = &graph[u];
                let mut j: usize = 0;
                while j < row.len()
                    invariant
                        graph@ == g,
                        n == g.len(),
                        (u as int) < n,
                        row@ == g[u as int]@,
                        j <= row.len(),
                        indeg.len() == n,
                        result@ == old_result.push(u),
                        !old_result.contains(u),
                        !row@.contains(u),
                        (result@ + queue@).no_duplicates(),
                        forall|i: int| 0 <= i < (result@ + queue@).len() ==> (result@ + queue@)[i] < n,
                        forall|v: usize| (v as int) < n ==> #[trigger] indeg@[v as int]
                            == edges_into(g, v, n as int, old_result) - occ(row@.take(j as int), v),
                        forall|v: usize| (v as int) < n ==> edges_into(g, v, n as int, old_result)
                            >= #[trigger] occ(row@, v),
                        forall|v: usize| (v as int) < n ==> (indeg@[v as int] == 0 && !result@.contains(v)
                            <==> #[trigger] queue@.contains(v)),
                        forall|x: usize, y: int| #![trigger old_result.contains(x), has_edge(g, y, x as int)]
                            old_result.contains(x) && 0 <= y < n && !old_result.contains(y as usize)
                                ==> !has_edge(g, y, x as int),
                    decreases row.len() - j,
                {
                    let v = row[j];
                    proof {
                        assert forall|x: usize| (x as int) < n implies occ(row@.take(j + 1), x)
                            == occ(row@.take(j as int), x) + if row@[j as int] == x { 1nat } else { 0nat } by {
                            lemma_occ_take_step(row@, j as int, x);
                        }
                    }
                    if v < n {
                        proof {
                            lemma_occ_take_le(row@, j + 1, v);
                            assert(row@.contains(v)) by {
                                assert(row@[j as int] == v);
                            }
                            assert(v != u);
                            if old_result.contains(v) {
                                assert(has_edge(g, u as int, v as int));
                            }
                            assert(!result@.contains(v));
                        }
                        let d = indeg[v] - 1;
                        indeg.set(v, d);
                        if d == 0 {
                            let ghost before = queue@;
                            proof {
                                assert(!before.contains(v));
                                assert(!(result@ + before).contains(v));
                            }
                            queue.push_back(v);
                            proof {
                                assert(result@ + queue@ =~= (result@ + before).push(v));
                                assert(forall|x: usize| queue@.contains(x) <==> before.contains(x) || x == v);
                            }
                        }
                    }
                    j = j + 1;
                }
                proof {
                    assert(row@.take(row@.len() as int) =~= row@);
                    assert forall|v: usize| (v as int) < n implies #[trigger] indeg@[v as int]
                        == edges_into(g, v, n as int, result@) by {
                        lemma_edges_into_remove(g, v, n as int, old_result, u);
                    }
                    assert forall|x: usize, y: int| #![trigger result@.contains(x), has_edge(g, y, x as int)]
                        result@.contains(x) && 0 <= y < n && !result@.contains(y as usize)
                            implies !has_edge(g, y, x as int) by {
                        if x == u {
                            assert(!g[y]@.contains(u));
                        }
                    }
                    assert forall|i: int, k: int| #![trigger has_edge(g, result@[k] as int, result@[i] as int)]
                        0 <= i <= k < result@.len() implies !has_edge(g, result@[k] as int, result@[i] as int) by {
                        if k == old_result.len() {
                            if i < k {
                                assert(result@[i] == old_result[i]);
                                assert(old_result.contains(result@[i]));
                            } else {
                                assert(!g[u as int]@.contains(u));
                            }
                        } else {
                            assert(result@[k] == old_result[k]);
                            assert(result@[i] == old_result[i]);
                        }
                    }
                }
            },
        }
    }

    proof {
        assert(result@ + queue@ =~= result@);
        lemma_distinct_below(result@, n as int);
    }
    if result.len() == n {
        proof {
            assert forall|i: int, k: int|
                0 <= i < result@.len() && 0 <= k < result@.len() && #[trigger] has_edge(g, result@[k] as int, result@[i] as int)
                    implies k < i by {
                if k >= i {
                    assert(!has_edge(g, result@[k] as int, result@[i] as int));
                }
            }
        }
        Some(result)
    } else {
        proof {
            if exists|o: Seq<usize>| is_topological_order(g, o) {
                let o = choose|o: Seq<usize>| is_topological_order(g, o);
                lemma_distinct_below(o, n as int);
                // some vertex is not done
                let missing = choose|v: usize| (v as int) < n && !result@.contains(v);
                assert(o.contains(missing));
                let i0 = choose|i: int| 0 <= i < o.len() && o[i] == missing;
                let m = first_missing(o, result@, i0);
                let r = o[m];
                assert(!queue@.contains(r));
                assert(indeg@[r as int] != 0);
                lemma_edges_into_zero(g, r, n as int, result@);
                let y = choose|y: int| 0 <= y < n && !result@.contains(y as usize) && #[trigger] g[y]@.contains(r);
                assert(o.contains(y as usize));
                let k = choose|k: int| 0 <= k < o.len() && o[k] == y as usize;
                assert(has_edge(g, o[k] as int, o[m] as int));
                assert(k < m);
                assert(result@.contains(o[k]));
            }
        }
        None
    }
}

/// `p` is a walk in `g`: its vertices are vertices of `g`, and each one has an
/// edge to the next.
pub open spec fn is_walk(g: Seq<Vec<usize>>, p: Seq<usize>) -> bool {
    &&& forall|j: int| 0 <= j < p.len() ==> (p[j] as int) < g.len()
    &&& forall|j: int| 0 <= j < p.len() - 1 ==> #[trigger] has_edge(g, p[j] as int, p[j + 1] as int)
}

proof fn lemma_walk_positions(g: Seq<Vec<usize>>, p: Seq<usize>, o: Seq<usize>, j: int) -> (ks: (int, int))
    requires
        g.len() <= usize::MAX,
        is_walk(g, p),
        is_topological_order(g, o),
        0 < j < p.len(),
    ensures
        0 <= ks.0 < ks.1 < o.len(),
        o[ks.0] == p[0],
        o[ks.1] == p[j],
    decreases j,
{
    lemma_distinct_below(o, g.len() as int);
    let jm = j - 1;
    assert(has_edge(g, p[jm] as int, p[jm + 1] as int));
    assert(jm + 1 == j);
    assert(o.contains(p[j]));
    let kj = choose|k: int| 0 <= k < o.len() && o[k] == p[j];
    if j == 1 {
        assert(o.contains(p[0]));
        let k0 = choose|k: int| 0 <= k < o.len() && o[k] == p[0];
        assert(has_edge(g, o[k0] as int, o[kj] as int));
        (k0, kj)
    } else {
        let prev = lemma_walk_positions(g, p, o, j - 1);
        assert(has_edge(g, o[prev.1] as int, o[kj] as int));
        (prev.0, kj)
    }
}

/// A graph that holds a cycle, a walk whose last vertex has an edge back to
/// its first, has no topological order.
pub proof fn lemma_cycle_has_no_order(g: Seq<Vec<usize>>, p: Seq<usize>)
    requires
        g.len() <= usize::MAX,
        p.len() > 0,
        is_walk(g, p),
        has_edge(g, p.last() as int, p[0] as int),
    ensures
        !has_topological_order(g),
{
    if exists|o: Seq<usize>| is_topological_order(g, o) {
        let o = choose|o: Seq<usize>| is_topological_order(g, o);
        lemma_distinct_below(o, g.len() as int);
        assert(o.contains(p[0]));
        let k0 = choose|k: int| 0 <= k < o.len() && o[k] == p[0];
        if p.len() == 1 {
            assert(has_edge(g, o[k0] as int, o[k0] as int));
        } else {
            let ks = lemma_walk_positions(g, p, o, p.len() - 1);
            assert(o[ks.0] == o[k0]);
            assert(ks.0 == k0);
            assert(has_edge(g, o[ks.1] as int, o[k0] as int));
        }
    }
}

/// The number of entries of `s` that are `false`.
pub open spec fn count_false(s: Seq<bool>) -> nat
    decreases s.len(),
{
    if s.len() == 0 {
        0
    } else {
        count_false(s.drop_last()) + if s.last() { 0nat } else { 1nat }
    }
}

pub proof fn lemma_count_false_mono(a: Seq<bool>, b: Seq<bool>)
    requires
        a.len() == b.len(),
        forall|i: int| 0 <= i < a.len() && a[i] ==> b[i],
    ensures
        count_false(b) <= count_false(a),
    decreases a.len(),
{
    if a.len() > 0 {
        lemma_count_false_mono(a.drop_last(), b.drop_last());
    }
}

pub proof fn lemma_count_false_strict(a: Seq<bool>, b: Seq<bool>, u: int)
    requires
        a.len() == b.len(),
        forall|i: int| 0 <= i < a.len() && a[i] ==> b[i],
        0 <= u < a.len(),
        !a[u],
        b[u],
    ensures
        count_false(b) < count_false(a),
    decreases a.len(),
{
    if u == a.len() - 1 {
        lemma_count_false_mono(a.drop_last(), b.drop_last());
    } else {
        lemma_count_false_strict(a.drop_last(), b.drop_last(), u);
    }
}

/// The bookkeeping of the depth-first search: `visited` and `on_stack` mark
/// the vertices, `done` lists the finished vertices in finishing order, and
/// `path` is the walk from the root to the vertex being explored.
spec fn dfs_state(
    g: Seq<Vec<usize>>,
    visited: Seq<bool>,
    on_stack: Seq<bool>,
    done: Seq<usize>,
    path: Seq<usize>,
) -> bool {
    &&& visited.len() == g.len()
    &&& on_stack.len() == g.len()
    &&& done.no_duplicates()
    &&& forall|i: int| 0 <= i < done.len() ==> (done[i] as int) < g.len()
    &&& forall|x: usize| (x as int) < g.len() ==> ((visited[x as int] && !on_stack[x as int]) <==> #[trigger] done.contains(x))
    &&& forall|x: usize| (x as int) < g.len() ==> (#[trigger] on_stack[x as int] ==> visited[x as int])
    &&& forall|x: usize| (x as int) < g.len() ==> (on_stack[x as int] <==> #[trigger] path.contains(x))
    &&& is_walk(g, path)
    &&& forall|x: usize, y: int| #![trigger done.contains(x), has_edge(g, x as int, y)]
        done.contains(x) && has_edge(g, x as int, y) ==> done.contains(y as usize)
    &&& forall|i: int, k: int| #![trigger has_edge(g, done[i] as int, done[k] as int)]
        0 <= i < done.len() && 0 <= k < done.len() && has_edge(g, done[i] as int, done[k] as int) ==> k < i
}

/// Explores `u` and every vertex reachable from it that is not visited yet.
/// Returns `false` when it meets an edge back to a vertex on the current
/// walk, which closes a cycle.
fn dfs(
    graph: &Vec<Vec<usize>>,
    u: usize,
    visited: &mut Vec<bool>,
    rec_stack: &mut Vec<bool>,
    result: &mut Vec<usize>,
    Ghost(path): Ghost<Seq<usize>>,
) -> (ok: bool)
    requires
        graph@.len() <= usize::MAX,
        dfs_state(graph@, old(visited)@, old(rec_stack)@, old(result)@, path),
        (u as int) < graph@.len(),
        !old(visited)@[u as int],
        path.len() > 0 ==> has_edge(graph@, path.last() as int, u as int),
    ensures
        !ok ==> !has_topological_order(graph@),
        ok ==> {
            &&& dfs_state(graph@, final(visited)@, final(rec_stack)@, final(result)@, path)
            &&& final(rec_stack)@ == old(rec_stack)@
            &&& final(result)@.contains(u)
            &&& forall|x: usize| old(result)@.contains(x) ==> final(result)@.contains(x)
            &&& forall|i: int| 0 <= i < old(visited)@.len() && old(visited)@[i] ==> final(visited)@[i]
            &&& count_false(final(visited)@) < count_false(old(visited)@)
        },
    decreases count_false(old(visited)@),
{
    let ghost g = graph@;
    let ghost vis0 = visited@;
    let ghost res0 = result@;
    let ghost st0 = rec_stack@;
    let n = graph.len();
    visited.set(u, true);
    rec_stack.set(u, true);
    let ghost here = path.push(u);
    proof {
        assert(!res0.contains(u));
        assert(!path.contains(u));
        assert forall|j: int| 0 <= j < here.len() - 1 implies #[trigger] has_edge(g, here[j] as int, here[j + 1] as int) by {
            if j < path.len() - 1 {
                assert(has_edge(g, path[j] as int, path[j + 1] as int));
            }
        }
        lemma_count_false_strict(vis0, visited@, u as int);
    }
    let ghost st1 = rec_stack@;
    let ghost vis1 = visited@;
    let row = &graph[u];
    let mut j: usize = 0;
    while j < row.len()
        invariant
            graph@ == g,
            n == g.len(),
            n <= usize::MAX,
            (u as int) < n,
            row@ == g[u as int]@,
            j <= row.len(),
            here == path.push(u),
            dfs_state(g, visited@, rec_stack@, result@, here),
            rec_stack@ == st1,
            st1[u as int],
            st1 == st0.update(u as int, true),
            !result@.contains(u),
            forall|x: usize| res0.contains(x) ==> result@.contains(x),
            forall|i: int| 0 <= i < vis1.len() && vis1[i] ==> visited@[i],
            vis1.len() == vis0.len(),
            vis0.len() == n,
            vis0 == old(visited)@,
            forall|i: int| 0 <= i < vis0.len() && vis0[i] ==> vis1[i],
            count_false(vis1) < count_false(vis0),
            forall|jj: int| 0 <= jj < j && (row@[jj] as int) < n ==> result@.contains(#[trigger] row@[jj]),
        decreases row.len() - j,
    {
        let v = row[j];
        if v < n {
            proof {
                assert(row@.contains(v)) by {
                    assert(row@[j as int] == v);
                }
                assert(has_edge(g, u as int, v as int));
            }
            if rec_stack[v] {
                proof {
                    assert(here.contains(v));
                    let m = choose|m: int| 0 <= m < here.len() && here[m] == v;
                    let cyc = here.subrange(m, here.len() as int);
                    assert(cyc.last() == u);
                    assert(cyc[0] == v);
                    assert forall|jj: int| 0 <= jj < cyc.len() - 1 implies #[trigger] has_edge(g, cyc[jj] as int, cyc[jj + 1] as int) by {
                        assert(has_edge(g, here[m + jj] as int, here[m + jj + 1] as int));
                    }
                    lemma_cycle_has_no_order(g, cyc);
                }
                return false;
            }
            if !visited[v] {
                proof {
                    lemma_count_false_mono(vis1, visited@);
                    lemma_count_false_mono(vis0, vis1);
                }
                let ghost res_before = result@;
                let ghost vis_before = visited@;
                if !dfs(graph, v, visited, rec_stack, result, Ghost(here)) {
                    return false;
                }
                proof {
                    assert forall|jj: int| 0 <= jj < j && (row@[jj] as int) < n implies result@.contains(#[trigger] row@[jj]) by {
                        assert(res_before.contains(row@[jj]));
                    }
                    assert(!result@.contains(u)) by {
                        assert(rec_stack@[u as int]);
                    }
                }
            }
        }
        j = j + 1;
    }
    let ghost res1 = result@;
    proof {
        lemma_count_false_mono(vis1, visited@);
    }
    rec_stack.set(u, false);
    result.push(u);
    proof {
        assert(rec_stack@ =~= st0);
        assert forall|x: usize| (x as int) < n implies (rec_stack@[x as int] <==> #[trigger] path.contains(x)) by {
            if x != u {
                assert(here.contains(x) <==> path.contains(x));
            }
        }
        assert(row@.take(row@.len() as int) =~= row@);
        assert forall|y: int| has_edge(g, u as int, y) implies result@.contains(y as usize) by {
            let jj = choose|jj: int| 0 <= jj < row@.len() && row@[jj] == y as usize;
            assert(res1.contains(row@[jj]));
        }
        assert forall|x: usize, y: int| #![trigger result@.contains(x), has_edge(g, x as int, y)]
            result@.contains(x) && has_edge(g, x as int, y) implies result@.contains(y as usize) by {
            if x != u {
                assert(res1.contains(x));
            }
        }
        assert forall|i: int, k: int| #![trigger has_edge(g, result@[i] as int, result@[k] as int)]
            0 <= i < result@.len() && 0 <= k < result@.len() && has_edge(g, result@[i] as int, result@[k] as int)
                implies k < i by {
            let last = res1.len() as int;
            if i == last {
                assert(res1.contains(result@[k]));
                if k == last {
                    assert(!res1.contains(u));
                }
            } else if k == last {
                assert(result@[i] == res1[i]);
                assert(res1.contains(res1[i]));
                assert(res1.contains(u));
            } else {
                assert(result@[i] == res1[i]);
                assert(result@[k] == res1[k]);
            }
        }
        assert(dfs_state(g, visited@, rec_stack@, result@, path));
    }
    true
}

/// Performs a topological sort by depth-first search: a vertex is listed
/// before every vertex it reaches.
///
/// Returns the order if the graph has one (it has no cycle), and `None`
/// when it has a cycle.
pub fn topological_sort_dfs(graph: &Vec<Vec<usize>>) -> (r: Option<Vec<usize>>)
    ensures
        match r {
            Some(order) => is_topological_order(graph@, order@),
            None => !has_topological_order(graph@),
        },
{
    let ghost g = graph@;
    let n = graph.len();
    let mut visited: Vec<bool> = Vec::new();
    let mut rec_stack: Vec<bool> = Vec::new();
    while visited.len() < n
        invariant
            visited.len() == rec_stack.len(),
            visited.len() <= n,
            forall|i: int| 0 <= i < visited.len() ==> !visited[i] && !rec_stack[i],
        decreases n - visited.len(),
    {
        visited.push(false);
        rec_stack.push(false);
    }
    let mut result: Vec<usize> = Vec::new();
    let ghost path = Seq::<usize>::empty();
    let mut i: usize = 0;
    while i < n
        invariant
            graph@ == g,
            n == g.len(),
            i <= n,
            path == Seq::<usize>::empty(),
            dfs_state(g, visited@, rec_stack@, result@, path),
            forall|x: int| 0 <= x < n ==> !rec_stack@[x],
            forall|x: int| 0 <= x < i ==> visited@[x],
        decreases n - i,
    {
        if !visited[i] {
            if !dfs(graph, i, &mut visited, &mut rec_stack, &mut result, Ghost(path)) {
                return None;
            }
        }
        i = i + 1;
    }
    proof {
        assert forall|v: usize| (v as int) < n implies result@.contains(v) by {
            assert(visited@[v as int]);
        }
        lemma_distinct_below(result@, n as int);
    }
    let mut order: Vec<usize> = Vec::new();
    let mut k: usize = result.len();
    while k > 0
        invariant
            k <= result.len(),
            order.len() == result.len() - k,
            forall|p: int| 0 <= p < order.len() ==> order@[p] == result@[result.len() - 1 - p],
        decreases k,
    {
        k = k - 1;
        order.push(result[k]);
    }
    proof {
        let len = result@.len() as int;
        assert forall|a: int, b: int| 0 <= a < order@.len() && 0 <= b < order@.len() && a != b
            implies order@[a] != order@[b] by {
            assert(order@[a] == result@[len - 1 - a]);
            assert(order@[b] == result@[len - 1 - b]);
        }
        assert forall|a: int, b: int|
            0 <= a < order@.len() && 0 <= b < order@.len() && #[trigger] has_edge(g, order@[b] as int, order@[a] as int)
                implies b < a by {
            assert(order@[a] == result@[len - 1 - a]);
            assert(order@[b] == result@[len - 1 - b]);
            assert(has_edge(g, result@[len - 1 - b] as int, result@[len - 1 - a] as int));
        }
    }
    Some(order)
}

} // verus!
