//! Discovery of the hierarchy below a root, one vertex at a time.
//!
//! The neighbors of a vertex are found outside (by loading the vertex from
//! the repository); this module keeps the vertices found so far, asks for
//! the next one to expand, and once every vertex is expanded orders them so
//! that every vertex comes after all its neighbors.

use vstd::prelude::*;
use vstd::string::*;
use crate::git_hierarchy::views;
use crate::graph::topology_sort::{has_edge, has_topological_order, is_topological_order, is_vertex_permutation, topological_sort_dfs};
use crate::strs::str_eq;

verus! {

broadcast use vstd::seq_lib::lemma_seq_contains_after_push;

/// `order` lists every vertex of `g` once, each after every vertex it has
/// an edge to.
pub open spec fn is_children_first_order(g: Seq<Vec<usize>>, order: Seq<usize>) -> bool {
    &&& is_vertex_permutation(g, order)
    &&& forall|i: int, k: int|
        0 <= i < order.len() && 0 <= k < order.len() && #[trigger] has_edge(g, order[k] as int, order[i] as int)
            ==> i < k
}

fn position_in(names: &Vec<String>, name: &str) -> (r: Option<usize>)
    ensures
        match r {
            Some(i) => (i as int) < names@.len() && views(names@)[i as int] == name@,
            None => !views(names@).contains(name@),
        },
{
    let mut i: usize = 0;
    while i < names.len()
        invariant
            i <= names@.len(),
            forall|j: int| 0 <= j < i ==> names@[j]@ != name@,
        decreases names.len() - i,
    {
        if str_eq(names[i].as_str(), name) {
            return Some(i);
        }
        i = i + 1;
    }
    proof {
        if views(names@).contains(name@) {
            let k = choose|k: int| 0 <= k < views(names@).len() && views(names@)[k] == name@;
            assert(names@[k]@ == name@);
        }
    }
    None
}

/// The vertices `seen`, then each of the names `ns` not among them yet, in
/// their order, each once.
pub open spec fn with_new_names(seen: Seq<Seq<char>>, ns: Seq<Seq<char>>) -> Seq<Seq<char>>
    decreases ns.len(),
{
    if ns.len() == 0 {
        seen
    } else {
        let s = with_new_names(seen, ns.drop_last());
        if s.contains(ns.last()) { s } else { s.push(ns.last()) }
    }
}

/// The vertices found below a root, and the neighbors of those expanded.
pub struct Discovery {
    names: Vec<String>,
    edges: Vec<Vec<usize>>,
}

impl Discovery {
    #[verifier::type_invariant]
    spec fn well_formed(self) -> bool {
        &&& self.edges@.len() <= self.names@.len()
        &&& views(self.names@).no_duplicates()
        &&& forall|u: int, j: int| 0 <= u < self.edges@.len() && 0 <= j < self.edges@[u]@.len()
            ==> (#[trigger] self.edges@[u]@[j] as int) < self.names@.len()
        &&& self.names@.len() <= usize::MAX
    }

    /// The names of the vertices found, in the order they were found.
    pub closed spec fn vertices(self) -> Seq<Seq<char>> {
        views(self.names@)
    }

    /// The neighbors of the expanded vertices, as positions in `vertices()`;
    /// the vertices are expanded in order.
    pub closed spec fn lists(self) -> Seq<Vec<usize>> {
        self.edges@
    }

    /// A discovery that starts at `root`, which is to be expanded first.
    pub fn new(root: &str) -> (d: Self)
        ensures
            d.vertices() == seq![root@],
            d.lists().len() == 0,
    {
        let mut names: Vec<String> = Vec::new();
        names.push(String::from_str(root));
        let d = Discovery { names, edges: Vec::new() };
        assert(d.vertices() =~= seq![root@]);
        d
    }

    /// The vertex to expand next, if any is left.
    pub fn pending(&self) -> (r: Option<&str>)
        ensures
            match r {
                Some(n) => self.lists().len() < self.vertices().len() && n@ == self.vertices()[self.lists().len() as int],
                None => self.lists().len() == self.vertices().len(),
            },
    {
        proof {
            use_type_invariant(self);
        }
        if self.edges.len() < self.names.len() {
            Some(self.names[self.edges.len()].as_str())
        } else {
            None
        }
    }

    /// Records the neighbors of the pending vertex.  Names not found before
    /// become new vertices, in their order, to be expanded later.
    pub fn supply(&mut self, neighbors: &Vec<String>)
        requires
            old(self).lists().len() < old(self).vertices().len(),
            old(self).vertices().len() + neighbors@.len() <= usize::MAX,
        ensures
            final(self).vertices() == with_new_names(old(self).vertices(), views(neighbors@)),
            final(self).vertices().no_duplicates(),
            final(self).vertices().len() >= old(self).vertices().len(),
            final(self).vertices().take(old(self).vertices().len() as int) == old(self).vertices(),
            forall|k: int| old(self).vertices().len() <= k < final(self).vertices().len()
                ==> views(neighbors@).contains(#[trigger] final(self).vertices()[k]),
            final(self).lists().len() == old(self).lists().len() + 1,
            final(self).lists().take(old(self).lists().len() as int) == old(self).lists(),
            final(self).lists().last()@.len() == neighbors@.len(),
            forall|j: int| 0 <= j < neighbors@.len() ==> {
                &&& (#[trigger] final(self).lists().last()@[j] as int) < final(self).vertices().len()
                &&& final(self).vertices()[final(self).lists().last()@[j] as int] == neighbors@[j]@
            },
    {
        proof {
            use_type_invariant(&*self);
        }
        let ghost old_names = views(self.names@);
        let ghost old_edges = self.edges@;
        let mut taken = Discovery { names: Vec::new(), edges: Vec::new() };
        std::mem::swap(&mut taken, self);
        let Discovery { names: mut names, edges: mut edges } = taken;
        let mut targets: Vec<usize> = Vec::new();
        let mut j: usize = 0;
        while j < neighbors.len()
            invariant
                j <= neighbors@.len(),
                edges@ == old_edges,
                old_edges.len() < old_names.len(),
                forall|u: int, k: int| 0 <= u < old_edges.len() && 0 <= k < old_edges[u]@.len()
                    ==> (#[trigger] old_edges[u]@[k] as int) < old_names.len(),
                old_names.len() + neighbors@.len() <= usize::MAX,
                old_names.len() <= names@.len() <= old_names.len() + j,
                views(names@).take(old_names.len() as int) == old_names,
                views(names@).no_duplicates(),
                views(names@) == with_new_names(old_names, views(neighbors@).take(j as int)),
                forall|k: int| old_names.len() <= k < names@.len() ==> views(neighbors@).contains(#[trigger] views(names@)[k]),
                targets@.len() == j,
                forall|i: int| 0 <= i < j ==> {
                    &&& (#[trigger] targets@[i] as int) < names@.len()
                    &&& names@[targets@[i] as int]@ == neighbors@[i]@
                },
            decreases neighbors@.len() - j,
        {
            let name = neighbors[j].as_str();
            proof {
                assert(views(neighbors@).take(j + 1).drop_last() =~= views(neighbors@).take(j as int));
                assert(views(neighbors@).take(j + 1).last() == name@);
            }
            match position_in(&names, name) {
                Some(i) => {
                    targets.push(i);
                },
                None => {
                    let ghost before = names@;
                    let idx = names.len();
                    names.push(String::from_str(name));
                    proof {
                        assert(views(names@) =~= views(before).push(name@));
                        assert(views(names@).take(old_names.len() as int) =~= views(before).take(old_names.len() as int));
                        assert(views(neighbors@)[j as int] == name@);
                        assert forall|a: int, b: int| 0 <= a < views(names@).len() && 0 <= b < views(names@).len() && a != b
                            implies views(names@)[a] != views(names@)[b] by {
                            if a == before.len() {
                                assert(views(before).contains(views(before)[b]));
                            } else if b == before.len() {
                                assert(views(before).contains(views(before)[a]));
                            }
                        }
                    }
                    targets.push(idx);
                },
            }
            j = j + 1;
        }
        edges.push(targets);
        proof {
            assert(views(neighbors@).take(neighbors@.len() as int) =~= views(neighbors@));
            assert(edges@.take(old_edges.len() as int) =~= old_edges);
            assert forall|u: int, k: int| 0 <= u < edges@.len() && 0 <= k < edges@[u]@.len()
                implies (#[trigger] edges@[u]@[k] as int) < names@.len() by {
                if u < old_edges.len() {
                    assert(edges@[u] == old_edges[u]);
                }
            }
        }
        *self = Discovery { names, edges };
    }

    /// The names of the vertices, in the order they were found.
    pub fn names(&self) -> (r: &Vec<String>)
        ensures
            views(r@) == self.vertices(),
    {
        &self.names
    }

    /// The neighbors of the expanded vertices.
    pub fn neighbors(&self) -> (r: &Vec<Vec<usize>>)
        ensures
            r@ == self.lists(),
    {
        &self.edges
    }

    /// Once every vertex is expanded: the vertices in an order where each
    /// comes after all its neighbors, or `None` when the hierarchy has a
    /// cycle and no such order exists.
    pub fn order(&self) -> (r: Option<Vec<usize>>)
        requires
            self.lists().len() == self.vertices().len(),
        ensures
            match r {
                Some(o) => is_children_first_order(self.lists(), o@),
                None => !has_topological_order(self.lists()),
            },
    {
        match topological_sort_dfs(&self.edges) {
            None => None,
            Some(top) => {
                let ghost t = top@;
                let mut out: Vec<usize> = Vec::new();
                let mut k: usize = top.len();
                while k > 0
                    invariant
                        k <= top@.len(),
                        t == top@,
                        out@.len() == top@.len() - k,
                        forall|p: int| 0 <= p < out@.len() ==> out@[p] == t[t.len() - 1 - p],
                    decreases k,
                {
                    k = k - 1;
                    out.push(top[k]);
                }
                proof {
                    let g = self.edges@;
                    let len = t.len() as int;
                    assert forall|a: int, b: int| 0 <= a < out@.len() && 0 <= b < out@.len() && a != b
                        implies out@[a] != out@[b] by {
                        assert(out@[a] == t[len - 1 - a]);
                        assert(out@[b] == t[len - 1 - b]);
                    }
                    assert forall|i: int, k2: int|
                        0 <= i < out@.len() && 0 <= k2 < out@.len() && #[trigger] has_edge(g, out@[k2] as int, out@[i] as int)
                            implies i < k2 by {
                        assert(out@[i] == t[len - 1 - i]);
                        assert(out@[k2] == t[len - 1 - k2]);
                        assert(has_edge(g, t[len - 1 - k2] as int, t[len - 1 - i] as int));
                    }
                }
                Some(out)
            },
        }
    }
}

} // verus!
