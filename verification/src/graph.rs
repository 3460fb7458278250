//! Directed graphs of the hierarchy and their orderings.

pub mod discover;
pub mod topology_sort;

use vstd::prelude::*;
use crate::graph::topology_sort::{
    edges_into, has_topological_order, in_degree, in_degrees_fit, is_topological_order, occ,
    topological_sort,
};

verus! {

/// The number of entries of all adjacency lists together.
pub open spec fn total_edges(g: Seq<Vec<usize>>) -> nat
    decreases g.len(),
{
    if g.len() == 0 {
        0
    } else {
        total_edges(g.drop_last()) + g.last()@.len()
    }
}

proof fn lemma_occ_le_len(s: Seq<usize>, v: usize)
    ensures
        occ(s, v) <= s.len(),
    decreases s.len(),
{
    if s.len() > 0 {
        lemma_occ_le_len(s.drop_last(), v);
    }
}

proof fn lemma_edges_into_le_total(g: Seq<Vec<usize>>, v: usize, lim: int)
    requires
        0 <= lim <= g.len(),
    ensures
        edges_into(g, v, lim, Seq::empty()) <= total_edges(g.take(lim)),
    decreases lim,
{
    if lim > 0 {
        lemma_edges_into_le_total(g, v, lim - 1);
        lemma_occ_le_len(g[lim - 1]@, v);
        assert(g.take(lim).drop_last() =~= g.take(lim - 1));
        assert(!Seq::<usize>::empty().contains((lim - 1) as usize));
    }
}

/// A graph whose total size fits in a `usize` has in-degrees that fit too.
proof fn lemma_small_graph_degrees_fit(g: Seq<Vec<usize>>)
    requires
        total_edges(g) <= usize::MAX,
    ensures
        in_degrees_fit(g),
{
    assert(g.take(g.len() as int) =~= g);
    assert forall|v: usize| (v as int) < g.len() implies #[trigger] in_degree(g, v) <= usize::MAX by {
        lemma_edges_into_le_total(g, v, g.len() as int);
    }
}

proof fn lemma_total_edges_update(g: Seq<Vec<usize>>, i: int, row: Vec<usize>)
    requires
        0 <= i < g.len(),
    ensures
        total_edges(g.update(i, row)) == total_edges(g) - g[i]@.len() + row@.len(),
    decreases g.len(),
{
    if i < g.len() - 1 {
        assert(g.update(i, row).drop_last() =~= g.drop_last().update(i, row));
        lemma_total_edges_update(g.drop_last(), i, row);
    } else {
        assert(g.update(i, row).drop_last() =~= g.drop_last());
    }
}

proof fn lemma_total_edges_push_empty(g: Seq<Vec<usize>>, row: Vec<usize>)
    requires
        row@.len() == 0,
    ensures
        total_edges(g.push(row)) == total_edges(g),
{
    assert(g.push(row).drop_last() =~= g);
}

/// The adjacency lists cover the vertices announced: none before the first
/// `add_vertices`, then one for each vertex `0..=vertex_count()`.
pub open spec fn rows_follow_vertices(rows: nat, vertices: nat) -> bool {
    (rows == 0 && vertices == 0) || rows == vertices + 1
}

/// A directed graph on the vertices `0..n`, held as adjacency lists.
pub struct Graph {
    vertices: usize,
    adjacency_list: Vec<Vec<usize>>,
}

impl Graph {
    #[verifier::type_invariant]
    spec fn fits(self) -> bool {
        &&& total_edges(self.adjacency_list@) <= usize::MAX
        &&& rows_follow_vertices(self.adjacency_list@.len(), self.vertices as nat)
    }

    /// The adjacency lists: `lists()[u]` holds the targets of the edges of `u`.
    pub closed spec fn lists(self) -> Seq<Vec<usize>> {
        self.adjacency_list@
    }

    /// The largest vertex number that was announced with `add_vertices`.
    pub closed spec fn vertex_count(self) -> nat {
        self.vertices as nat
    }

    /// The total number of edges.
    pub closed spec fn edge_count(self) -> nat {
        total_edges(self.adjacency_list@)
    }

    /// An empty graph.
    pub fn new() -> (g: Self)
        ensures
            g.vertex_count() == 0,
            g.lists().len() == 0,
            g.edge_count() == 0,
            rows_follow_vertices(g.lists().len(), g.vertex_count()),
    {
        Graph { vertices: 0, adjacency_list: Vec::new() }
    }

    /// The largest vertex number announced so far.
    pub fn vertices(&self) -> (n: usize)
        ensures
            n == self.vertex_count(),
    {
        self.vertices
    }

    /// The adjacency lists.
    pub fn adjacency(&self) -> (l: &Vec<Vec<usize>>)
        ensures
            l@ == self.lists(),
    {
        &self.adjacency_list
    }

    /// Makes room for the vertices `0..=n`: the vertex count becomes at least
    /// `n`, and there is an (empty) adjacency list for every vertex up to `n`.
    pub fn add_vertices(&mut self, n: usize)
        requires
            n < usize::MAX,
        ensures
            final(self).vertex_count() == if n > old(self).vertex_count() { n as nat } else { old(self).vertex_count() },
            final(self).lists().len() == if old(self).lists().len() <= n { (n + 1) as nat } else { old(self).lists().len() },
            forall|i: int| 0 <= i < old(self).lists().len() ==> #[trigger] final(self).lists()[i] == old(self).lists()[i],
            forall|i: int| old(self).lists().len() <= i < final(self).lists().len() ==> #[trigger] final(self).lists()[i]@.len() == 0,
            final(self).edge_count() == old(self).edge_count(),
            rows_follow_vertices(final(self).lists().len(), final(self).vertex_count()),
    {
        proof {
            use_type_invariant(&*self);
        }
        let mut taken = Graph { vertices: 0, adjacency_list: Vec::new() };
        std::mem::swap(self, &mut taken);
        proof {
            use_type_invariant(&taken);
        }
        let Graph { vertices, adjacency_list: mut list } = taken;
        let new_vertices = if n > vertices { n } else { vertices };
        let ghost old_list = list@;
        while list.len() <= n
            invariant
                n < usize::MAX,
                old_list.len() <= list.len(),
                list.len() <= n + 1 || list.len() == old_list.len(),
                forall|i: int| 0 <= i < old_list.len() ==> #[trigger] list@[i] == old_list[i],
                forall|i: int| old_list.len() <= i < list.len() ==> #[trigger] list@[i]@.len() == 0,
                total_edges(list@) == total_edges(old_list),
                total_edges(old_list) <= usize::MAX,
            decreases n + 1 - list.len(),
        {
            let ghost before = list@;
            let row: Vec<usize> = Vec::new();
            proof {
                lemma_total_edges_push_empty(before, row);
            }
            list.push(row);
        }
        *self = Graph { vertices: new_vertices, adjacency_list: list };
    }

    /// Adds the edge `from -> to`.  A target that is not a vertex of the
    /// graph is kept, and ignored when the graph is sorted.
    pub fn add_edge(&mut self, from: usize, to: usize)
        requires
            (from as int) < old(self).lists().len(),
            old(self).edge_count() < usize::MAX,
        ensures
            final(self).vertex_count() == old(self).vertex_count(),
            final(self).lists().len() == old(self).lists().len(),
            final(self).lists()[from as int]@ == old(self).lists()[from as int]@.push(to),
            forall|i: int| 0 <= i < old(self).lists().len() && i != from ==> #[trigger] final(self).lists()[i] == old(self).lists()[i],
            final(self).edge_count() == old(self).edge_count() + 1,
            rows_follow_vertices(final(self).lists().len(), final(self).vertex_count()),
    {
        proof {
            use_type_invariant(&*self);
        }
        let mut taken = Graph { vertices: 0, adjacency_list: Vec::new() };
        std::mem::swap(self, &mut taken);
        proof {
            use_type_invariant(&taken);
        }
        let Graph { vertices, adjacency_list: mut list } = taken;
        let ghost old_list = list@;
        let mut row: Vec<usize> = Vec::new();
        std::mem::swap(&mut row, &mut list[from]);
        row.push(to);
        proof {
            lemma_total_edges_update(old_list, from as int, row);
        }
        list.set(from, row);
        proof {
            assert(list@ =~= old_list.update(from as int, row));
        }
        *self = Graph { vertices, adjacency_list: list };
    }

    /// A topological order of the graph: every vertex is listed once, and
    /// every edge goes from a vertex to a later one.  The graph must have no
    /// cycle.
    pub fn toposort(&self) -> (order: Vec<usize>)
        requires
            has_topological_order(self.lists()),
        ensures
            is_topological_order(self.lists(), order@),
    {
        proof {
            use_type_invariant(self);
            lemma_small_graph_degrees_fit(self.adjacency_list@);
        }
        match topological_sort(self.adjacency_list.as_slice()) {
            Some(order) => order,
            None => {
                proof {
                    assert(false);
                }
                Vec::new()
            },
        }
    }
}

impl Default for Graph {
    fn default() -> (g: Self)
        ensures
            g.vertex_count() == 0,
            g.lists().len() == 0,
            g.edge_count() == 0,
            rows_follow_vertices(g.lists().len(), g.vertex_count()),
    {
        Self::new()
    }
}

} // verus!
