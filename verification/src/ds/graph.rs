//! A directed graph kept as adjacency lists.

use vstd::prelude::*;
use std::collections::HashMap;
use std::hash::Hash;
use vstd::std_specs::hash::obeys_key_model;

verus! {

broadcast use vstd::std_specs::hash::group_hash_axioms;

/// A directed graph: for each node the list of the ends of its edges, in
/// the order in which the edges were added.
pub struct Adjacency<N: Eq + Hash + Clone> {
    pub adj: HashMap<N, Vec<N>>,
}

impl<N: Eq + Hash + Clone> View for Adjacency<N> {
    type V = Map<N, Seq<N>>;

    /// The ends of the edges of every node.
    open spec fn view(&self) -> Map<N, Seq<N>> {
        Map::new(|n: N| self.adj@.contains_key(n), |n: N| self.adj@[n]@)
    }
}

/// The graph with one more edge, from `from` to `to`.
pub open spec fn with_edge<N>(g: Map<N, Seq<N>>, from: N, to: N) -> Map<N, Seq<N>> {
    g.insert(
        from,
        (if g.contains_key(from) {
            g[from]
        } else {
            Seq::empty()
        }).push(to),
    )
}

impl<N: Eq + Hash + Clone> Adjacency<N> {
    /// The graph without nodes.
    pub fn new() -> (g: Self)
        ensures
            g@ == Map::<N, Seq<N>>::empty(),
    {
        let g = Adjacency { adj: HashMap::new() };
        assert(g@ =~= Map::<N, Seq<N>>::empty());
        g
    }

    /// Makes `n` a node, without edges unless it is one already.
    pub fn add_node(&mut self, n: N)
        ensures
            obeys_key_model::<N>() ==> final(self)@ == (if old(self)@.contains_key(n) {
                old(self)@
            } else {
                old(self)@.insert(n, Seq::empty())
            }),
    {
        if !self.adj.contains_key(&n) {
            self.adj.insert(n, Vec::new());
            proof {
                if obeys_key_model::<N>() {
                    assert(final(self)@ =~= old(self)@.insert(n, Seq::empty()));
                }
            }
        } else {
            proof {
                assert(final(self)@ =~= old(self)@);
            }
        }
    }

    /// Adds an edge from `from` to `to`. `from` becomes a node if it is
    /// none.
    pub fn add_edge(&mut self, from: N, to: N)
        ensures
            obeys_key_model::<N>() ==> final(self)@ == with_edge(old(self)@, from, to),
    {
        let mut list = match self.adj.remove(&from) {
            Some(list) => list,
            None => Vec::new(),
        };
        list.push(to);
        self.adj.insert(from, list);
        proof {
            if obeys_key_model::<N>() {
                assert(final(self)@ =~= old(self)@.insert(
                    from,
                    (if old(self)@.contains_key(from) {
                        old(self)@[from]
                    } else {
                        Seq::empty()
                    }).push(to),
                ));
            }
        }
    }

    /// Adds an edge from a copy of `a` to a copy of `b`, and an edge from `b`
    /// to `a`.
    pub fn add_undirected(&mut self, a: N, b: N)
        ensures
            obeys_key_model::<N>() ==> exists|a2: N, b2: N|
                cloned(a, a2) && cloned(b, b2) && final(self)@ == #[trigger] with_edge(
                    with_edge(old(self)@, a2, b2),
                    b,
                    a,
                ),
    {
        let a2 = a.clone();
        let b2 = b.clone();
        let ghost ga = a2;
        let ghost gb = b2;
        self.add_edge(a2, b2);
        self.add_edge(b, a);
        proof {
            if obeys_key_model::<N>() {
                assert(cloned(a, ga) && cloned(b, gb) && final(self)@ == with_edge(
                    with_edge(old(self)@, ga, gb),
                    b,
                    a,
                ));
            }
        }
    }

    /// The nodes, in no particular order.
    pub fn nodes(&self) -> (it: std::collections::hash_map::Keys<'_, N, Vec<N>>)
        ensures
            obeys_key_model::<N>() ==> it == vstd::std_specs::hash::spec_keys_iter(&self.adj),
    {
        self.adj.keys()
    }

    /// The ends of the edges of `n`, in the order in which the edges were
    /// added; none for a value that is no node.
    pub fn neighbors<'a>(&'a self, n: &N) -> (it: core::slice::Iter<'a, N>)
        ensures
            obeys_key_model::<N>() ==> vstd::std_specs::slice::into_iter_elts(it) == (
            if self@.contains_key(*n) {
                self@[*n]
            } else {
                Seq::empty()
            }),
    {
        broadcast use vstd::std_specs::slice::axiom_spec_slice_iter;

        match self.adj.get(n) {
            Some(list) => {
                let it = list.as_slice().iter();
                assert(vstd::std_specs::slice::into_iter_elts(it) =~= list@);
                it
            },
            None => {
                let none: &[N] = &[];
                let it = none.iter();
                assert(vstd::std_specs::slice::into_iter_elts(it) =~= Seq::<N>::empty());
                it
            },
        }
    }
}

} // verus!
