//! Disjoint sets of `u64` keys: a forest of parent links with path
//! compression, the smaller class hung under the larger.

use std::collections::HashMap;
use vstd::prelude::*;
use vstd::set_lib::{lemma_len_subset, lemma_set_disjoint_lens};

verus! {

broadcast use vstd::std_specs::hash::group_hash_axioms;

/// A partition of the keys seen so far.
pub struct DisjointSet {
    parent: HashMap<u64, u64>,
    size: HashMap<u64, usize>,
    sets: usize,
    root: Ghost<Map<u64, u64>>,
    height: Ghost<Map<u64, nat>>,
    bound: Ghost<nat>,
    classes: Ghost<Map<u64, Set<u64>>>,
}

impl DisjointSet {
    /// The keys seen so far.
    pub closed spec fn members(&self) -> Set<u64> {
        self.parent@.dom()
    }

    /// The representative of the class of `k`; a key not seen yet stands
    /// for itself.
    pub closed spec fn rep(&self, k: u64) -> u64 {
        if self.parent@.contains_key(k) {
            self.root@[k]
        } else {
            k
        }
    }

    /// The class of `k`; a key not seen yet is alone in its class.
    pub closed spec fn class_of(&self, k: u64) -> Set<u64> {
        if self.parent@.contains_key(k) {
            self.classes@[self.root@[k]]
        } else {
            set![k]
        }
    }

    /// The number of classes among the keys seen so far.
    pub closed spec fn class_count(&self) -> nat {
        self.classes@.dom().len()
    }

    /// What holds of one key of the forest: its parent is a key of the same
    /// class and stands higher, unless the key is its own parent, which is
    /// so exactly for the representative.
    pub closed spec fn node_ok(&self, k: u64) -> bool {
        let p = self.parent@[k];
        let r = self.root@[k];
        &&& self.root@.contains_key(k)
        &&& self.height@.contains_key(k)
        &&& self.parent@.contains_key(p)
        &&& self.parent@.contains_key(r)
        &&& self.root@.contains_key(p)
        &&& self.root@.contains_key(r)
        &&& self.height@.contains_key(p)
        &&& self.root@[p] == r
        &&& self.root@[r] == r
        &&& self.parent@[r] == r
        &&& (p == k ==> r == k)
        &&& (p != k ==> self.height@[p] > self.height@[k])
        &&& self.height@[k] <= self.bound@
        &&& self.classes@.contains_key(r)
        &&& self.classes@[r].contains(k)
    }

    /// What holds of one class: it is finite, its size is recorded, and its
    /// keys are those whose representative it is named by.
    pub closed spec fn class_ok(&self, r: u64) -> bool {
        &&& self.parent@.contains_key(r)
        &&& self.root@[r] == r
        &&& self.size@.contains_key(r)
        &&& self.classes@[r].finite()
        &&& self.size@[r] == self.classes@[r].len()
        &&& forall|k: u64| #[trigger]
            self.classes@[r].contains(k) ==> self.parent@.contains_key(k) && self.root@[k] == r
    }

    /// The forest and the recorded sizes fit together.
    pub closed spec fn wf(&self) -> bool {
        &&& forall|k: u64| self.parent@.contains_key(k) ==> #[trigger] self.node_ok(k)
        &&& forall|r: u64| self.classes@.contains_key(r) ==> #[trigger] self.class_ok(r)
        &&& self.size@.dom() == self.classes@.dom()
        &&& self.classes@.dom().finite()
        &&& self.sets == self.classes@.dom().len()
    }

    /// A key is in the class of another exactly if the two have one
    /// representative.
    pub proof fn lemma_class(&self, k: u64, a: u64)
        requires
            self.wf(),
        ensures
            self.class_of(a).contains(k) <==> self.rep(k) == self.rep(a),
            self.class_of(a).finite(),
            self.rep(self.rep(a)) == self.rep(a),
            self.members().contains(a) ==> self.members().contains(self.rep(a)),
    {
        if self.parent@.contains_key(a) {
            assert(self.node_ok(a));
            let r = self.root@[a];
            assert(self.class_ok(r));
            assert(self.node_ok(r));
            if self.parent@.contains_key(k) {
                assert(self.node_ok(k));
                assert(self.class_ok(self.root@[k]));
            }
        } else {
            if self.parent@.contains_key(k) {
                assert(self.node_ok(k));
            }
        }
    }

    /// No key has been seen.
    pub fn new() -> (d: DisjointSet)
        ensures
            d.wf(),
            d.members() == Set::<u64>::empty(),
            d.class_count() == 0,
    {
        let d = DisjointSet {
            parent: HashMap::new(),
            size: HashMap::new(),
            sets: 0,
            root: Ghost(Map::empty()),
            height: Ghost(Map::empty()),
            bound: Ghost(0),
            classes: Ghost(Map::empty()),
        };
        assert(d.size@.dom() =~= d.classes@.dom());
        d
    }

    /// Makes `x` a class of its own, unless it has been seen.
    fn make_set(&mut self, x: u64)
        requires
            old(self).wf(),
        ensures
            final(self).wf(),
            final(self).parent@.contains_key(x),
            old(self).parent@.contains_key(x) ==> {
                &&& final(self).parent@ == old(self).parent@
                &&& final(self).root@ == old(self).root@
                &&& final(self).classes@ == old(self).classes@
            },
            !old(self).parent@.contains_key(x) ==> {
                &&& final(self).parent@ == old(self).parent@.insert(x, x)
                &&& final(self).root@ == old(self).root@.insert(x, x)
                &&& final(self).classes@ == old(self).classes@.insert(x, set![x])
                &&& !old(self).classes@.contains_key(x)
            },
    {
        if !self.parent.contains_key(&x) {
            proof {
                if self.classes@.contains_key(x) {
                    assert(self.class_ok(x));
                }
            }
            let ghost before = *self;
            self.parent.insert(x, x);
            self.size.insert(x, 1);
            self.sets = self.size.len();
            proof {
                self.root@ = self.root@.insert(x, x);
                self.height@ = self.height@.insert(x, 0);
                self.classes@ = self.classes@.insert(x, set![x]);
                assert(self.size@.dom() =~= self.classes@.dom());
                assert(self.node_ok(x));
                assert forall|k: u64| self.parent@.contains_key(k) implies #[trigger] self.node_ok(
                    k,
                ) by {
                    if k != x {
                        assert(before.node_ok(k));
                    }
                }
                assert forall|r: u64| self.classes@.contains_key(r) implies #[trigger] self.class_ok(
                    r,
                ) by {
                    if r != x {
                        assert(before.class_ok(r));
                    }
                }
            }
        }
    }

    /// The representative of a key that has been seen; the keys on the way
    /// are hung under it.
    fn locate(&mut self, x: u64) -> (r: u64)
        requires
            old(self).wf(),
            old(self).parent@.contains_key(x),
        ensures
            final(self).wf(),
            r == old(self).root@[x],
            final(self).height@[r] >= old(self).height@[x],
            final(self).parent@.dom() == old(self).parent@.dom(),
            final(self).root@ == old(self).root@,
            final(self).height@ == old(self).height@,
            final(self).bound@ == old(self).bound@,
            final(self).classes@ == old(self).classes@,
        decreases old(self).bound@ - old(self).height@[x],
    {
        assert(self.node_ok(x));
        let p = match self.parent.get(&x) {
            Some(p) => *p,
            None => x,
        };
        if p == x {
            return x;
        }
        let ghost before = *self;
        assert(self.node_ok(p));
        let root = self.locate(p);
        let ghost mid = *self;
        self.parent.insert(x, root);
        proof {
            assert(self.parent@.dom() =~= before.parent@.dom());
            assert(mid.node_ok(x));
            assert(mid.node_ok(root));
            assert forall|k: u64| self.parent@.contains_key(k) implies #[trigger] self.node_ok(
                k,
            ) by {
                assert(mid.node_ok(k));
            }
            assert forall|r: u64| self.classes@.contains_key(r) implies #[trigger] self.class_ok(
                r,
            ) by {
                assert(mid.class_ok(r));
            }
        }
        root
    }

    /// The representative of the class of `x`, which is seen from now on.
    pub fn find(&mut self, x: u64) -> (r: u64)
        requires
            old(self).wf(),
        ensures
            final(self).wf(),
            final(self).members() == old(self).members().insert(x),
            forall|k: u64| final(self).rep(k) == old(self).rep(k),
            forall|k: u64| final(self).class_of(k) == old(self).class_of(k),
            final(self).class_count() == old(self).class_count() + (if old(self).members().contains(x) {
                0nat
            } else {
                1nat
            }),
            r == old(self).rep(x),
    {
        let ghost start = *self;
        self.make_set(x);
        let ghost mid = *self;
        let r = self.locate(x);
        proof {
            assert(self.parent@.dom() =~= start.parent@.dom().insert(x));
            assert forall|k: u64| self.rep(k) == start.rep(k) && self.class_of(k) == start.class_of(
                k,
            ) by {
                if start.parent@.contains_key(k) {
                    assert(start.node_ok(k));
                }
            }
            if start.parent@.contains_key(x) {
            } else {
                assert(self.classes@.dom() =~= start.classes@.dom().insert(x));
            }
        }
        r
    }

    /// Joins the classes of `a` and `b`. The representative of the larger
    /// class stands for both afterwards; that of `a` where they are of one
    /// size.
    pub fn union(&mut self, a: u64, b: u64)
        requires
            old(self).wf(),
        ensures
            final(self).wf(),
            final(self).members() == old(self).members().insert(a).insert(b),
            forall|k: u64|
                final(self).rep(k) == if old(self).rep(k) == old(self).rep(a) || old(self).rep(k)
                    == old(self).rep(b) {
                    old(self).joined_rep(a, b)
                } else {
                    old(self).rep(k)
                },
            final(self).class_count() + (if old(self).rep(a) != old(self).rep(b) {
                1nat
            } else {
                0nat
            }) == old(self).class_count() + (if old(self).members().contains(a) {
                0nat
            } else {
                1nat
            }) + (if old(self).members().contains(b) || a == b {
                0nat
            } else {
                1nat
            }),
    {
        let ghost start = *self;
        let mut ra = self.find(a);
        let mut rb = self.find(b);
        if ra == rb {
            return;
        }
        proof {
            start.lemma_class(a, a);
            start.lemma_class(b, b);
            self.lemma_class(ra, ra);
            self.lemma_class(rb, rb);
            assert(self.node_ok(a));
            assert(self.node_ok(b));
            assert(self.class_ok(ra));
            assert(self.class_ok(rb));
        }
        let sa = match self.size.get(&ra) {
            Some(s) => *s,
            None => 0,
        };
        let sb = match self.size.get(&rb) {
            Some(s) => *s,
            None => 0,
        };
        let (ra, rb) = if sa < sb { (rb, ra) } else { (ra, rb) };
        let members = self.parent.len();
        let ghost mid = *self;
        let ghost large = self.classes@[ra];
        let ghost small = self.classes@[rb];
        proof {
            assert(large.disjoint(small));
            lemma_set_disjoint_lens(large, small);
            assert((large + small).subset_of(self.parent@.dom()));
            lemma_len_subset(large + small, self.parent@.dom());
            assert(sa + sb <= members);
        }
        self.parent.insert(rb, ra);
        self.size.insert(ra, sa + sb);
        self.size.remove(&rb);
        self.sets = self.size.len();
        proof {
            self.root@ = Map::new(
                |k: u64| mid.root@.contains_key(k),
                |k: u64| if mid.root@[k] == rb { ra } else { mid.root@[k] },
            );
            self.bound@ = mid.bound@ + 1;
            self.height@ = mid.height@.insert(ra, mid.bound@ + 1);
            self.classes@ = mid.classes@.remove(rb).insert(ra, large + small);
            assert(self.size@.dom() =~= self.classes@.dom());
            assert(self.classes@.dom() =~= mid.classes@.dom().remove(rb));
            assert(self.parent@.dom() =~= mid.parent@.dom());
            assert forall|k: u64| self.parent@.contains_key(k) implies #[trigger] self.node_ok(
                k,
            ) by {
                assert(mid.node_ok(k));
                assert(mid.node_ok(mid.parent@[k]));
                assert(mid.node_ok(ra));
                assert(mid.node_ok(rb));
                assert(mid.class_ok(mid.root@[k]));
            }
            assert forall|r: u64| self.classes@.contains_key(r) implies #[trigger] self.class_ok(
                r,
            ) by {
                assert(mid.class_ok(r));
                assert(mid.class_ok(ra));
                assert(mid.class_ok(rb));
                assert(mid.node_ok(r));
                assert((large + small).finite());
                assert forall|k: u64| #[trigger] self.classes@[r].contains(k) implies self.parent@.contains_key(
                k) && self.root@[k] == r by {
                    if r == ra {
                        assert(large.contains(k) || small.contains(k));
                    } else {
                        assert(mid.classes@[r].contains(k));
                    }
                    assert(mid.parent@.contains_key(k));
                    assert(mid.node_ok(k));
                }
            }
            assert forall|k: u64|
                self.rep(k) == if start.rep(k) == start.rep(a) || start.rep(k) == start.rep(b) {
                    start.joined_rep(a, b)
                } else {
                    start.rep(k)
                } by {
                assert(mid.rep(k) == start.rep(k));
                if mid.parent@.contains_key(k) {
                    assert(mid.node_ok(k));
                }
            }
        }
    }

    /// The representative that stands for the classes of `a` and `b` once
    /// they are joined.
    pub closed spec fn joined_rep(&self, a: u64, b: u64) -> u64 {
        if self.rep(a) != self.rep(b) && self.class_of(a).len() < self.class_of(b).len() {
            self.rep(b)
        } else {
            self.rep(a)
        }
    }

    /// Whether `a` and `b` are in one class. Both are seen from now on.
    pub fn connected(&mut self, a: u64, b: u64) -> (same: bool)
        requires
            old(self).wf(),
        ensures
            final(self).wf(),
            final(self).members() == old(self).members().insert(a).insert(b),
            forall|k: u64| final(self).rep(k) == old(self).rep(k),
            forall|k: u64| final(self).class_of(k) == old(self).class_of(k),
            same == (old(self).rep(a) == old(self).rep(b)),
    {
        let ra = self.find(a);
        let rb = self.find(b);
        ra == rb
    }

    /// The number of classes.
    pub fn count(&self) -> (n: usize)
        requires
            self.wf(),
        ensures
            n == self.class_count(),
    {
        self.sets
    }

    /// The number of keys in the class of `a`, which is seen from now on.
    pub fn size_of(&mut self, a: u64) -> (n: usize)
        requires
            old(self).wf(),
        ensures
            final(self).wf(),
            final(self).members() == old(self).members().insert(a),
            forall|k: u64| final(self).rep(k) == old(self).rep(k),
            forall|k: u64| final(self).class_of(k) == old(self).class_of(k),
            n == old(self).class_of(a).len(),
    {
        let r = self.find(a);
        proof {
            assert(self.node_ok(a));
            assert(self.class_ok(r));
        }
        match self.size.get(&r) {
            Some(s) => *s,
            None => 0,
        }
    }
}

} // verus!
