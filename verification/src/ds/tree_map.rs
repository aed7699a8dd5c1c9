//! An ordered map kept as an unbalanced binary search tree.

use vstd::prelude::*;
use core::cmp::Ordering;
use vstd::std_specs::cmp::OrdSpec;

verus! {

/// `a` comes before `b` in the order of the keys.
pub open spec fn before<K: Ord>(a: K, b: K) -> bool {
    a.cmp_spec(&b) == Ordering::Less
}

/// The comparison of keys is a strict total order that tells two keys apart
/// exactly when they differ.
pub open spec fn keys_ordered<K: Ord>() -> bool {
    &&& K::obeys_cmp_spec()
    &&& forall|a: K, b: K| #[trigger] a.cmp_spec(&b) == Ordering::Equal <==> a == b
    &&& forall|a: K, b: K| #[trigger] a.cmp_spec(&b) == Ordering::Greater <==> before(b, a)
    &&& forall|a: K, b: K, c: K| #[trigger] before(a, b) && #[trigger] before(b, c) ==> before(a, c)
}

/// The keys of type `i32` are ordered.
pub proof fn lemma_i32_keys_ordered()
    ensures
        keys_ordered::<i32>(),
{
}

/// The keys of type `i64` are ordered.
pub proof fn lemma_i64_keys_ordered()
    ensures
        keys_ordered::<i64>(),
{
}

/// The keys of type `u64` are ordered.
pub proof fn lemma_u64_keys_ordered()
    ensures
        keys_ordered::<u64>(),
{
}

/// One node of the tree.
pub struct Node<K, V> {
    key: K,
    val: V,
    left: Option<Box<Node<K, V>>>,
    right: Option<Box<Node<K, V>>>,
}

/// The entries below a link.
pub closed spec fn link_map<K, V>(link: Option<Box<Node<K, V>>>) -> Map<K, V>
    decreases link,
{
    match link {
        None => Map::empty(),
        Some(node) => link_map(node.left).union_prefer_right(link_map(node.right)).insert(
            node.key,
            node.val,
        ),
    }
}

/// The number of nodes below a link.
pub closed spec fn link_size<K, V>(link: Option<Box<Node<K, V>>>) -> nat
    decreases link,
{
    match link {
        None => 0,
        Some(node) => 1 + link_size(node.left) + link_size(node.right),
    }
}

/// Below every node, the keys on the left come before the node's key, and
/// those on the right after it.
pub closed spec fn link_sorted<K: Ord, V>(link: Option<Box<Node<K, V>>>) -> bool
    decreases link,
{
    match link {
        None => true,
        Some(node) => {
            &&& forall|k: K| #[trigger] link_map(node.left).contains_key(k) ==> before(k, node.key)
            &&& forall|k: K| #[trigger] link_map(node.right).contains_key(k) ==> before(node.key, k)
            &&& link_sorted(node.left)
            &&& link_sorted(node.right)
        },
    }
}

/// A sorted tree holds each key once: it has as many nodes as keys.
proof fn lemma_size_is_len<K: Ord, V>(link: Option<Box<Node<K, V>>>)
    requires
        keys_ordered::<K>(),
        link_sorted(link),
    ensures
        link_map(link).dom().finite(),
        link_map(link).dom().len() == link_size(link),
    decreases link,
{
    match link {
        None => {},
        Some(node) => {
            lemma_size_is_len(node.left);
            lemma_size_is_len(node.right);
            let l = link_map(node.left).dom();
            let r = link_map(node.right).dom();
            assert(l.disjoint(r)) by {
                assert forall|k: K| l.contains(k) implies !r.contains(k) by {
                    if r.contains(k) {
                        assert(before(k, node.key) && before(node.key, k));
                        assert(before(k, k));
                    }
                }
            }
            vstd::set_lib::lemma_set_disjoint_lens(l, r);
            assert(!l.contains(node.key)) by {
                if l.contains(node.key) {
                    assert(before(node.key, node.key));
                }
            }
            assert(!r.contains(node.key)) by {
                if r.contains(node.key) {
                    assert(before(node.key, node.key));
                }
            }
            assert(link_map(link).dom() =~= (l + r).insert(node.key));
        },
    }
}

/// An ordered map from keys to values.
pub struct BstMap<K, V> {
    root: Option<Box<Node<K, V>>>,
    len: usize,
}

impl<K: Ord, V> View for BstMap<K, V> {
    type V = Map<K, V>;

    /// The entries of the map.
    closed spec fn view(&self) -> Map<K, V> {
        link_map(self.root)
    }
}

/// The value below `link` for `key`, if there is one.
fn get_link<'a, K: Ord, V>(link: &'a Option<Box<Node<K, V>>>, key: &K) -> (found: Option<&'a V>)
    requires
        link_sorted(*link),
    ensures
        keys_ordered::<K>() ==> match found {
            Some(v) => link_map(*link).contains_key(*key) && *v == link_map(*link)[*key],
            None => !link_map(*link).contains_key(*key),
        },
    decreases *link,
{
    match link {
        None => None,
        Some(node) => {
            match key.cmp(&node.key) {
                Ordering::Less => {
                    proof {
                        if keys_ordered::<K>() && link_map(node.right).contains_key(*key) {
                            assert(before(node.key, *key) && before(*key, node.key));
                            assert(before(*key, *key));
                        }
                    }
                    get_link(&node.left, key)
                },
                Ordering::Greater => {
                    proof {
                        if keys_ordered::<K>() && link_map(node.left).contains_key(*key) {
                            assert(before(node.key, *key) && before(*key, node.key));
                            assert(before(*key, *key));
                        }
                    }
                    get_link(&node.right, key)
                },
                Ordering::Equal => Some(&node.val),
            }
        },
    }
}

/// Puts the entry below `link`, and returns the value that `key` had.
fn insert_link<K: Ord, V>(link: &mut Option<Box<Node<K, V>>>, key: K, val: V) -> (was: Option<V>)
    requires
        link_sorted(*old(link)),
    ensures
        keys_ordered::<K>() ==> {
            &&& link_sorted(*final(link))
            &&& link_map(*final(link)) == link_map(*old(link)).insert(key, val)
            &&& match was {
                Some(v) => link_map(*old(link)).contains_key(key) && v == link_map(*old(link))[key]
                    && link_size(*final(link)) == link_size(*old(link)),
                None => !link_map(*old(link)).contains_key(key) && link_size(*final(link))
                    == link_size(*old(link)) + 1,
            }
        },
    decreases *old(link),
{
    match link.take() {
        None => {
            *link = Some(Box::new(Node { key, val, left: None, right: None }));
            proof {
                assert(link_map::<K, V>(None) =~= Map::<K, V>::empty());
                assert(link_map(*link) =~= Map::<K, V>::empty().insert(key, val));
                assert(link_size::<K, V>(None) == 0);
            }
            None
        },
        Some(mut node) => {
            let ghost before_map = link_map(Some(node));
            let ghost left_map = link_map(node.left);
            let ghost right_map = link_map(node.right);
            let was = match key.cmp(&node.key) {
                Ordering::Less => {
                    let was = insert_link(&mut node.left, key, val);
                    proof {
                        if keys_ordered::<K>() {
                            assert(!right_map.contains_key(key)) by {
                                if right_map.contains_key(key) {
                                    assert(before(node.key, key) && before(key, node.key));
                                    assert(before(key, key));
                                }
                            }
                            assert(link_map(Some(node)) =~= before_map.insert(key, val));
                        }
                    }
                    was
                },
                Ordering::Greater => {
                    let was = insert_link(&mut node.right, key, val);
                    proof {
                        if keys_ordered::<K>() {
                            assert(!left_map.contains_key(key)) by {
                                if left_map.contains_key(key) {
                                    assert(before(node.key, key) && before(key, node.key));
                                    assert(before(key, key));
                                }
                            }
                            assert(link_map(Some(node)) =~= before_map.insert(key, val));
                        }
                    }
                    was
                },
                Ordering::Equal => {
                    let mut held = val;
                    core::mem::swap(&mut node.val, &mut held);
                    proof {
                        if keys_ordered::<K>() {
                            assert(link_map(Some(node)) =~= before_map.insert(key, val));
                        }
                    }
                    Some(held)
                },
            };
            *link = Some(node);
            was
        },
    }
}

/// Takes the entry with the least key out of the tree below `node`.
fn pop_min<K: Ord, V>(node: Box<Node<K, V>>) -> (out: ((K, V), Option<Box<Node<K, V>>>))
    requires
        link_sorted(Some(node)),
    ensures
        keys_ordered::<K>() ==> {
            &&& link_map(Some(node)).contains_key(out.0.0)
            &&& link_map(Some(node))[out.0.0] == out.0.1
            &&& forall|k: K| #[trigger]
                link_map(Some(node)).contains_key(k) && k != out.0.0 ==> before(out.0.0, k)
            &&& link_sorted(out.1)
            &&& link_map(out.1) == link_map(Some(node)).remove(out.0.0)
            &&& link_size(out.1) + 1 == link_size(Some(node))
        },
    decreases node,
{
    let ghost whole = link_map(Some(node));
    let ghost size = link_size(Some(node));
    let Node { key, val, left, right } = *node;
    let ghost left_map = link_map(left);
    let ghost right_map = link_map(right);
    proof {
        assert(whole == left_map.union_prefer_right(right_map).insert(key, val));
        assert(size == 1 + link_size(left) + link_size(right));
    }
    match left {
        None => {
            proof {
                if keys_ordered::<K>() {
                    assert(left_map =~= Map::<K, V>::empty());
                    assert forall|k: K| #[trigger] whole.contains_key(k) && k != key implies before(
                        key,
                        k,
                    ) by {
                        assert(right_map.contains_key(k));
                    }
                    assert(!right_map.contains_key(key)) by {
                        if right_map.contains_key(key) {
                            assert(before(key, key));
                        }
                    }
                    assert(right_map =~= whole.remove(key));
                }
            }
            ((key, val), right)
        },
        Some(child) => {
            let ((k, v), new_left) = pop_min(child);
            let rest = Some(Box::new(Node { key, val, left: new_left, right }));
            proof {
                if keys_ordered::<K>() {
                    assert(before(k, key));
                    assert(!right_map.contains_key(k)) by {
                        if right_map.contains_key(k) {
                            assert(before(key, k) && before(k, key));
                            assert(before(k, k));
                        }
                    }
                    assert(link_map(rest) =~= whole.remove(k));
                    assert forall|other: K| #[trigger]
                        whole.contains_key(other) && other != k implies before(k, other) by {
                        if left_map.contains_key(other) {
                        } else if other == key {
                        } else {
                            assert(right_map.contains_key(other));
                            assert(before(k, key) && before(key, other));
                        }
                    }
                }
            }
            ((k, v), rest)
        },
    }
}

/// Takes the entry of `key` out of the tree below `link`, and returns its
/// value.
fn remove_node<K: Ord, V>(link: &mut Option<Box<Node<K, V>>>, key: &K) -> (was: Option<V>)
    requires
        link_sorted(*old(link)),
    ensures
        keys_ordered::<K>() ==> {
            &&& link_sorted(*final(link))
            &&& link_map(*final(link)) == link_map(*old(link)).remove(*key)
            &&& match was {
                Some(v) => link_map(*old(link)).contains_key(*key) && v == link_map(*old(link))[*key]
                    && link_size(*final(link)) + 1 == link_size(*old(link)),
                None => !link_map(*old(link)).contains_key(*key) && link_size(*final(link))
                    == link_size(*old(link)),
            }
        },
    decreases *old(link),
{
    match link.take() {
        None => {
            proof {
                assert(link_map::<K, V>(None) =~= Map::<K, V>::empty().remove(*key));
            }
            None
        },
        Some(mut node) => {
            let ghost whole = link_map(Some(node));
            let ghost size = link_size(Some(node));
            let ghost left_map = link_map(node.left);
            let ghost right_map = link_map(node.right);
            let ghost left_size = link_size(node.left);
            let ghost right_size = link_size(node.right);
            proof {
                assert(whole == left_map.union_prefer_right(right_map).insert(node.key, node.val));
                assert(size == 1 + left_size + right_size);
                assert(link_sorted(node.left) && link_sorted(node.right));
            }
            match key.cmp(&node.key) {
                Ordering::Less => {
                    let was = remove_node(&mut node.left, key);
                    proof {
                        if keys_ordered::<K>() {
                            assert(!right_map.contains_key(*key)) by {
                                if right_map.contains_key(*key) {
                                    assert(before(node.key, *key) && before(*key, node.key));
                                    assert(before(*key, *key));
                                }
                            }
                            assert(link_map(Some(node)) =~= whole.remove(*key));
                            assert(link_sorted(Some(node)));
                            assert(link_size(Some(node)) == 1 + link_size(node.left) + right_size);
                        }
                    }
                    *link = Some(node);
                    was
                },
                Ordering::Greater => {
                    let was = remove_node(&mut node.right, key);
                    proof {
                        if keys_ordered::<K>() {
                            assert(!left_map.contains_key(*key)) by {
                                if left_map.contains_key(*key) {
                                    assert(before(node.key, *key) && before(*key, node.key));
                                    assert(before(*key, *key));
                                }
                            }
                            assert(link_map(Some(node)) =~= whole.remove(*key));
                            assert(link_sorted(Some(node)));
                            assert(link_size(Some(node)) == 1 + left_size + link_size(node.right));
                        }
                    }
                    *link = Some(node);
                    was
                },
                Ordering::Equal => {
                    let Node { key: _, val, left, right } = *node;
                    proof {
                        if keys_ordered::<K>() {
                            assert(whole == left_map.union_prefer_right(right_map).insert(*key, val));
                            assert(whole.contains_key(*key) && whole[*key] == val);
                            assert(!left_map.contains_key(*key)) by {
                                if left_map.contains_key(*key) {
                                    assert(before(*key, *key));
                                }
                            }
                            assert(!right_map.contains_key(*key)) by {
                                if right_map.contains_key(*key) {
                                    assert(before(*key, *key));
                                }
                            }
                        }
                    }
                    match (left, right) {
                        (None, None) => {
                            proof {
                                if keys_ordered::<K>() {
                                    assert(link_map::<K, V>(None) =~= whole.remove(*key));
                                }
                            }
                            *link = None;
                        },
                        (Some(l), None) => {
                            proof {
                                if keys_ordered::<K>() {
                                    assert(right_map =~= Map::<K, V>::empty());
                                    assert(left_map =~= whole.remove(*key));
                                }
                            }
                            *link = Some(l);
                        },
                        (None, Some(r)) => {
                            proof {
                                if keys_ordered::<K>() {
                                    assert(left_map =~= Map::<K, V>::empty());
                                    assert(right_map =~= whole.remove(*key));
                                }
                            }
                            *link = Some(r);
                        },
                        (Some(l), Some(r)) => {
                            let ((min_k, min_v), new_right) = pop_min(r);
                            let joined = Some(
                                Box::new(
                                    Node { key: min_k, val: min_v, left: Some(l), right: new_right },
                                ),
                            );
                            proof {
                                if keys_ordered::<K>() {
                                    assert(before(*key, min_k));
                                    assert forall|k: K| #[trigger]
                                        left_map.contains_key(k) implies before(k, min_k) by {
                                        assert(before(k, *key) && before(*key, min_k));
                                    }
                                    assert(!left_map.contains_key(min_k)) by {
                                        if left_map.contains_key(min_k) {
                                            assert(before(min_k, *key) && before(*key, min_k));
                                            assert(before(min_k, min_k));
                                        }
                                    }
                                    assert(link_map(joined) =~= whole.remove(*key));
                                    assert(link_sorted(joined));
                                    assert(link_size(joined) == 1 + left_size + link_size(new_right));
                                }
                            }
                            *link = joined;
                        },
                    }
                    Some(val)
                },
            }
        },
    }
}

/// The value below `link` for `key`, to be changed in place, if there is
/// one.
fn get_mut_link<'a, K: Ord, V>(link: &'a mut Option<Box<Node<K, V>>>, key: &K) -> (found: Option<
    &'a mut V,
>)
    requires
        link_sorted(*old(link)),
    ensures
        keys_ordered::<K>() ==> {
            &&& link_sorted(*final(link))
            &&& link_size(*final(link)) == link_size(*old(link))
            &&& match found {
                Some(v) => link_map(*old(link)).contains_key(*key) && *v == link_map(*old(link))[*key]
                    && link_map(*final(link)) == link_map(*old(link)).insert(*key, *final(v)),
                None => !link_map(*old(link)).contains_key(*key) && link_map(*final(link))
                    == link_map(*old(link)),
            }
        },
    decreases *old(link),
{
    match link {
        None => None,
        Some(node) => {
            let ghost whole = link_map(Some(*node));
            let ghost left_map = link_map(node.left);
            let ghost right_map = link_map(node.right);
            match key.cmp(&node.key) {
                Ordering::Less => {
                    proof {
                        if keys_ordered::<K>() && right_map.contains_key(*key) {
                            assert(before(node.key, *key) && before(*key, node.key));
                            assert(before(*key, *key));
                        }
                    }
                    get_mut_link(&mut node.left, key)
                },
                Ordering::Greater => {
                    proof {
                        if keys_ordered::<K>() && left_map.contains_key(*key) {
                            assert(before(node.key, *key) && before(*key, node.key));
                            assert(before(*key, *key));
                        }
                    }
                    get_mut_link(&mut node.right, key)
                },
                Ordering::Equal => Some(&mut node.val),
            }
        },
    }
}

impl<K: Ord, V> BstMap<K, V> {
    /// The tree is sorted and the length kept is its number of nodes.
    pub closed spec fn wf(&self) -> bool {
        link_sorted(self.root) && self.len == link_size(self.root)
    }

    /// A well-formed map has finitely many entries.
    pub proof fn lemma_finite(&self)
        requires
            self.wf(),
            keys_ordered::<K>(),
        ensures
            self@.dom().finite(),
    {
        lemma_size_is_len(self.root);
    }

    /// The empty map.
    pub fn new() -> (m: Self)
        ensures
            m.wf(),
            m@ == Map::<K, V>::empty(),
            m@.dom().finite(),
    {
        BstMap { root: None, len: 0 }
    }

    /// Whether the map holds no entry.
    pub fn is_empty(&self) -> (empty: bool)
        requires
            self.wf(),
        ensures
            keys_ordered::<K>() ==> empty == (self@.len() == 0),
    {
        proof {
            if keys_ordered::<K>() {
                lemma_size_is_len(self.root);
            }
        }
        self.len == 0
    }

    /// The number of entries.
    pub fn len(&self) -> (n: usize)
        requires
            self.wf(),
        ensures
            keys_ordered::<K>() ==> n == self@.len() && self@.dom().finite(),
    {
        proof {
            if keys_ordered::<K>() {
                lemma_size_is_len(self.root);
            }
        }
        self.len
    }

    /// Gives `key` the value `val`, and returns the value it had.
    pub fn insert(&mut self, key: K, val: V) -> (was: Option<V>)
        requires
            old(self).wf(),
            old(self)@.len() < usize::MAX,
        ensures
            keys_ordered::<K>() ==> {
                &&& final(self).wf()
                &&& final(self)@ == old(self)@.insert(key, val)
                &&& old(self)@.dom().finite()
                &&& final(self)@.dom().finite()
                &&& final(self)@.len() == old(self)@.len() + (if old(self)@.contains_key(key) {
                    0int
                } else {
                    1int
                })
                &&& match was {
                    Some(v) => old(self)@.contains_key(key) && v == old(self)@[key],
                    None => !old(self)@.contains_key(key),
                }
            },
    {
        proof {
            if keys_ordered::<K>() {
                lemma_size_is_len(self.root);
            }
        }
        let was = insert_link(&mut self.root, key, val);
        if was.is_none() && self.len < usize::MAX {
            self.len += 1;
        }
        was
    }

    /// The value of `key`, if it has one.
    pub fn get(&self, key: &K) -> (found: Option<&V>)
        requires
            self.wf(),
        ensures
            keys_ordered::<K>() ==> match found {
                Some(v) => self@.contains_key(*key) && *v == self@[*key],
                None => !self@.contains_key(*key),
            },
    {
        get_link(&self.root, key)
    }

    /// The value of `key`, to be changed in place, if it has one. The other
    /// entries stay as they are.
    pub fn get_mut(&mut self, key: &K) -> (found: Option<&mut V>)
        requires
            old(self).wf(),
        ensures
            keys_ordered::<K>() ==> {
                &&& final(self).wf()
                &&& match found {
                    Some(v) => old(self)@.contains_key(*key) && *v == old(self)@[*key]
                        && final(self)@ == old(self)@.insert(*key, *final(v)),
                    None => !old(self)@.contains_key(*key) && final(self)@ == old(self)@,
                }
            },
    {
        get_mut_link(&mut self.root, key)
    }

    /// Takes the entry of `key` out, and returns its value.
    pub fn remove(&mut self, key: &K) -> (was: Option<V>)
        requires
            old(self).wf(),
        ensures
            keys_ordered::<K>() ==> {
                &&& final(self).wf()
                &&& final(self)@ == old(self)@.remove(*key)
                &&& old(self)@.dom().finite()
                &&& final(self)@.dom().finite()
                &&& final(self)@.len() == old(self)@.len() - (if old(self)@.contains_key(*key) {
                    1int
                } else {
                    0int
                })
                &&& match was {
                    Some(v) => old(self)@.contains_key(*key) && v == old(self)@[*key],
                    None => !old(self)@.contains_key(*key),
                }
            },
    {
        proof {
            if keys_ordered::<K>() {
                lemma_size_is_len(self.root);
            }
        }
        let removed = remove_node(&mut self.root, key);
        if removed.is_some() && self.len > 0 {
            self.len -= 1;
        }
        removed
    }

    /// Whether `key` has a value.
    pub fn contains_key(&self, key: &K) -> (has: bool)
        requires
            self.wf(),
        ensures
            keys_ordered::<K>() ==> has == self@.contains_key(*key),
    {
        self.get(key).is_some()
    }
}

} // verus!
