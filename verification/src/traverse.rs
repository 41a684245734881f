//! The iterator family: read-only, mutable, and consuming in-order
//! traversals, all driven by the successor protocol (or, for the consuming
//! one, by repeated minimum removal).  Each yields keys in strictly ascending
//! order; what remains to be yielded is always the ascending listing of the
//! keys at or beyond the iterator's position.

use vstd::prelude::*;

use vstd::pervasive::unreached;

use crate::bst::{
    has_key, idx_of, key_of, live, min_link, next_link, node_at, tree_map, Node, BST,
};
use crate::order::{ascending_keys, lemma_ascending_unfold};
use crate::shape::{lemma_dom_finite, lemma_idx_of, lemma_value_update};

verus! {

/// The keys a traversal standing on the node of `cur` has yet to yield: every
/// stored key at or beyond that node's own.
pub(crate) open spec fn rem_set<V>(s: Seq<Option<Node<V>>>, cur: Option<usize>) -> Set<u64> {
    match cur {
        None => Set::<u64>::empty(),
        Some(c) => Set::new(|k: u64| has_key(s, k) && k >= node_at(s, c as int).key),
    }
}

/// What remains is a subset of the stored keys, hence finite.
pub(crate) proof fn lemma_rem_set_finite<V>(s: Seq<Option<Node<V>>>, cur: Option<usize>)
    ensures
        rem_set(s, cur).finite(),
        rem_set(s, cur).subset_of(tree_map(s).dom()),
{
    lemma_dom_finite(s);
    match cur {
        None => {
            assert(rem_set(s, cur) =~= Set::<u64>::empty());
        },
        Some(c) => {
            assert(rem_set(s, cur).subset_of(tree_map(s).dom()));
            vstd::set_lib::lemma_set_subset_finite(tree_map(s).dom(), rem_set(s, cur));
        },
    }
}

/// The read-only in-order traversal: a position in a borrowed tree, advanced
/// by the successor protocol.  The tree must not be structurally mutated
/// while the iterator is live; the borrow enforces that.
pub struct Iter<'a, V> {
    pub(crate) tree: &'a BST<V>,
    pub(crate) cur: Option<usize>,
}

impl<'a, V> Iter<'a, V> {
    /// The iterator stands on a live node of a well-formed tree.
    pub closed spec fn wf(self) -> bool {
        &&& self.tree.wf()
        &&& (match self.cur {
            None => true,
            Some(c) => live(self.tree.nodes@, c as int),
        })
    }

    /// The content of the traversed tree.
    pub closed spec fn contents(self) -> Map<u64, V> {
        self.tree@
    }

    /// The ascending run of keys the iterator has yet to yield.
    pub closed spec fn remaining(self) -> Seq<u64> {
        ascending_keys(rem_set(self.tree.nodes@, self.cur))
    }

    /// Yields the least unvisited key with a view of its payload, and steps
    /// to its successor; `None` once every key has been yielded.
    #[verifier::rlimit(100)]
    pub fn next(&mut self) -> (r: Option<(u64, &'a V)>)
        requires
            old(self).wf(),
        ensures
            final(self).wf(),
            final(self).contents() == old(self).contents(),
            match r {
                None => old(self).remaining() == Seq::<u64>::empty() && final(self).remaining()
                    == Seq::<u64>::empty(),
                Some(kv) => {
                    &&& old(self).remaining().len() > 0
                    &&& kv.0 == old(self).remaining()[0]
                    &&& final(self).remaining() == old(self).remaining().drop_first()
                    &&& old(self).contents().dom().contains(kv.0)
                    &&& *kv.1 == old(self).contents()[kv.0]
                },
            },
    {
        let ghost s = self.tree.nodes@;
        let ghost root = self.tree.root;
        match self.cur {
            None => {
                proof {
                    assert(rem_set(s, self.cur) =~= Set::<u64>::empty());
                }
                None
            },
            Some(c) => {
                let t = self.tree;
                let ghost ci = c as int;
                let ghost rem_old = rem_set(s, self.cur);
                let (k, vref) = match &t.nodes[c] {
                    Some(n) => (n.key, &n.value),
                    None => unreached(),
                };
                self.cur = next_link(&t.nodes, c, Ghost(t.root));
                proof {
                    lemma_rem_set_finite(s, Some(c));
                    assert(live(s, ci) && key_of(s, ci) == k as int);
                    assert(has_key(s, k));
                    assert(rem_old.contains(k));
                    lemma_ascending_unfold(rem_old, k);
                    assert(ascending_keys(rem_old)[0] == k);
                    assert(ascending_keys(rem_old).drop_first() =~= ascending_keys(
                        rem_old.remove(k),
                    ));
                    lemma_idx_of(s, root, k);
                    assert(idx_of(s, k) == ci);
                    assert(tree_map(s)[k] == *vref);
                    let rem_new = rem_set(s, self.cur);
                    assert(rem_new =~= rem_old.remove(k)) by {
                        match self.cur {
                            None => {
                                assert forall|k2: u64| rem_old.remove(k).contains(k2) implies
                                    rem_new.contains(k2) by {
                                    assert(has_key(s, k2) && k2 >= k && k2 != k);
                                    let j = choose|j: int|
                                        live(s, j) && key_of(s, j) == k2 as int;
                                    assert(key_of(s, j) <= key_of(s, ci));
                                }
                            },
                            Some(n) => {
                                let ghost nk = node_at(s, n as int).key;
                                assert forall|k2: u64| rem_old.remove(k).contains(k2) implies
                                    rem_new.contains(k2) by {
                                    let j = choose|j: int|
                                        live(s, j) && key_of(s, j) == k2 as int;
                                    assert(key_of(s, j) > key_of(s, ci));
                                    assert(nk <= k2);
                                }
                            },
                        }
                    }
                }
                Some((k, vref))
            },
        }
    }
}

impl<V> BST<V> {
    /// A read-only in-order traversal, restartable each call: it will yield
    /// every stored key in ascending order, each with a view of its payload.
    pub fn iter<'a>(&'a self) -> (it: Iter<'a, V>)
        requires
            self.wf(),
        ensures
            it.wf(),
            it.contents() == self@,
            it.remaining() == ascending_keys(self@.dom()),
    {
        let m = self.min();
        proof {
            match m {
                None => {
                    assert(rem_set(self.nodes@, m) =~= self@.dom());
                },
                Some(mm) => {
                    assert(self@.dom().contains(node_at(self.nodes@, mm as int).key));
                    assert(rem_set(self.nodes@, m) =~= self@.dom());
                },
            }
        }
        Iter { tree: self, cur: m }
    }

    /// Starts a mutable in-order traversal: a cursor which, handed the tree
    /// back at each step, yields every key in ascending order with exclusive
    /// access to its payload — and never to the links or the key.
    pub fn iter_mut(&mut self) -> (it: IterMut)
        requires
            old(self).wf(),
        ensures
            *final(self) == *old(self),
            it.valid(*old(self)),
            it.remaining(*old(self)) == ascending_keys(old(self)@.dom()),
    {
        let m = self.min();
        proof {
            match m {
                None => {
                    assert(rem_set(self.nodes@, m) =~= self@.dom());
                },
                Some(mm) => {
                    assert(self@.dom().contains(node_at(self.nodes@, mm as int).key));
                    assert(rem_set(self.nodes@, m) =~= self@.dom());
                },
            }
        }
        IterMut { cur: m }
    }

    /// Hands the tree over to a consuming in-order traversal, which drains it
    /// as it is pulled.
    pub fn into_iterator(self) -> (it: IntoIter<V>)
        requires
            self.wf(),
        ensures
            it.wf(),
            it@ == self@,
            it.remaining() == ascending_keys(self@.dom()),
    {
        IntoIter { bst: self }
    }
}

/// The consuming in-order traversal: owns the tree and drains it by repeated
/// minimum removal, yielding each key with its moved-out payload.  Full
/// consumption leaves the tree empty.
pub struct IntoIter<V> {
    pub(crate) bst: BST<V>,
}

impl<V> IntoIter<V> {
    /// The owned tree is still well-formed.
    pub closed spec fn wf(self) -> bool {
        self.bst.wf()
    }

    /// The ascending run of keys still to be yielded: everything the owned
    /// tree still holds.
    pub closed spec fn remaining(self) -> Seq<u64> {
        ascending_keys(self.bst@.dom())
    }
}

impl<V> View for IntoIter<V> {
    type V = Map<u64, V>;

    closed spec fn view(&self) -> Map<u64, V> {
        self.bst@
    }
}

impl<V> IntoIter<V> {
    /// Extracts the least remaining key and moves its payload out, shrinking
    /// the tree; `None` once the tree has been fully drained.
    #[verifier::rlimit(100)]
    pub fn next(&mut self) -> (r: Option<(u64, V)>)
        requires
            old(self).wf(),
        ensures
            final(self).wf(),
            match r {
                None => old(self).remaining() == Seq::<u64>::empty() && old(self)@.dom()
                    == Set::<u64>::empty() && final(self)@ == old(self)@,
                Some(kv) => {
                    &&& old(self).remaining().len() > 0
                    &&& kv.0 == old(self).remaining()[0]
                    &&& kv.1 == old(self)@[kv.0]
                    &&& final(self)@ == old(self)@.remove(kv.0)
                    &&& final(self).remaining() == old(self).remaining().drop_first()
                },
            },
    {
        let ghost dom0 = self.bst@.dom();
        proof {
            lemma_dom_finite(self.bst.nodes@);
        }
        let r = self.bst.remove_min();
        proof {
            if r is Some {
                let kv = r->Some_0;
                lemma_ascending_unfold(dom0, kv.0);
                assert(ascending_keys(dom0)[0] == kv.0);
                assert(ascending_keys(dom0).drop_first() =~= ascending_keys(dom0.remove(kv.0)));
                assert(self.bst@.dom() =~= dom0.remove(kv.0));
            } else {
                assert(ascending_keys(dom0) == Seq::<u64>::empty());
            }
        }
        r
    }
}

/// The read-only and the consuming traversal of one tree content yield the
/// same run of keys: each starts pinned to the ascending listing of the key
/// set, as `iter` and `into_iterator` guarantee.
pub proof fn lemma_traversals_agree<V>(it: Iter<V>, ii: IntoIter<V>)
    requires
        it.contents() == ii@,
        it.remaining() == ascending_keys(it.contents().dom()),
        ii.remaining() == ascending_keys(ii@.dom()),
    ensures
        it.remaining() == ii.remaining(),
{
}

/// The mutable in-order traversal: a cursor over a tree handed to each step,
/// yielding the least unvisited key with exclusive access to its payload —
/// and only its payload, never the links or the key, so traversal state
/// cannot be corrupted and the ascending order is preserved whatever the
/// caller writes.
pub struct IterMut {
    pub(crate) cur: Option<usize>,
}

impl IterMut {
    /// The cursor stands on a live node of the given well-formed tree.
    pub closed spec fn valid<V>(self, tree: BST<V>) -> bool {
        &&& tree.wf()
        &&& (match self.cur {
            None => true,
            Some(c) => live(tree.nodes@, c as int),
        })
    }

    /// The ascending run of keys the cursor has yet to visit in `tree`.
    pub closed spec fn remaining<V>(self, tree: BST<V>) -> Seq<u64> {
        ascending_keys(rem_set(tree.nodes@, self.cur))
    }

    /// The cursor has visited every node.
    pub closed spec fn done(self) -> bool {
        self.cur is None
    }

    /// A finished cursor has nothing left, an unfinished one has at least its
    /// own node's key left.
    pub proof fn lemma_done<V>(self, tree: BST<V>)
        requires
            self.valid(tree),
        ensures
            self.done() <==> self.remaining(tree).len() == 0,
    {
        lemma_rem_set_finite(tree.nodes@, self.cur);
        crate::order::lemma_ascending_len(rem_set(tree.nodes@, self.cur));
        match self.cur {
            None => {
                assert(rem_set(tree.nodes@, self.cur) =~= Set::<u64>::empty());
            },
            Some(c) => {
                let s = tree.nodes@;
                let k = node_at(s, c as int).key;
                assert(live(s, c as int) && key_of(s, c as int) == k as int);
                assert(has_key(s, k));
                assert(rem_set(s, self.cur).contains(k));
            },
        }
    }

    /// Whether another element awaits.
    pub fn has_next(&self) -> (b: bool)
        ensures
            b == !self.done(),
    {
        self.cur.is_some()
    }

    /// Yields the least unvisited key with exclusive access to its payload,
    /// and steps to its successor.  Whatever the caller writes through the
    /// returned reference, only that key's payload changes: the key set, and
    /// with it the traversal order, is untouched.
    #[verifier::rlimit(100)]
    pub fn next<'b, V>(&mut self, tree: &'b mut BST<V>) -> (ret: (u64, &'b mut V))
        requires
            old(self).valid(*old(tree)),
            !old(self).done(),
        ensures
            old(self).remaining(*old(tree)).len() > 0,
            ret.0 == old(self).remaining(*old(tree))[0],
            old(tree)@.dom().contains(ret.0),
            *ret.1 == old(tree)@[ret.0],
            final(tree)@ == old(tree)@.insert(ret.0, *final(ret.1)),
            final(tree)@.dom() == old(tree)@.dom(),
            final(self).valid(*final(tree)),
            final(self).remaining(*final(tree)) == old(self).remaining(*old(tree)).drop_first(),
    {
        let ghost s = tree.nodes@;
        let ghost root = tree.root;
        match self.cur {
            None => unreached(),
            Some(c) => {
                let ghost ci = c as int;
                let ghost rem_old = rem_set(s, Some(c));
                self.cur = next_link(&tree.nodes, c, Ghost(tree.root));
                let ghost cur_new = self.cur;
                let (k, v) = match &mut tree.nodes[c] {
                    Some(n) => {
                        let k = n.key;
                        (k, &mut n.value)
                    },
                    None => unreached(),
                };
                proof {
                    let n0 = node_at(s, ci);
                    let s2 = s.update(
                        ci,
                        Some(
                            Node::<V> {
                                key: n0.key,
                                value: *final(v),
                                parent: n0.parent,
                                left: n0.left,
                                right: n0.right,
                            },
                        ),
                    );
                    lemma_value_update(s, s2, root, ci);
                    lemma_rem_set_finite(s, Some(c));
                    assert(live(s, ci) && key_of(s, ci) == k as int);
                    assert(has_key(s, k));
                    assert(rem_old.contains(k));
                    lemma_ascending_unfold(rem_old, k);
                    lemma_idx_of(s, root, k);
                    assert(idx_of(s, k) == ci);
                    assert(tree_map(s)[k] == *v);
                    // the keys of the final tree are the keys of the old one
                    assert forall|k2: u64| #[trigger] has_key(s2, k2) == has_key(s, k2) by {
                        if has_key(s2, k2) {
                            let j = choose|j: int| live(s2, j) && key_of(s2, j) == k2 as int;
                            assert(live(s, j) && key_of(s, j) == k2 as int);
                        }
                        if has_key(s, k2) {
                            let j = choose|j: int| live(s, j) && key_of(s, j) == k2 as int;
                            assert(live(s2, j) && key_of(s2, j) == k2 as int);
                        }
                    }
                    assert(tree_map(s2).dom() =~= tree_map(s).dom());
                    let rem_new = rem_set(s2, cur_new);
                    assert(rem_new =~= rem_old.remove(k)) by {
                        match cur_new {
                            None => {
                                assert forall|k2: u64| rem_old.remove(k).contains(k2) implies
                                    rem_new.contains(k2) by {
                                    let j = choose|j: int|
                                        live(s, j) && key_of(s, j) == k2 as int;
                                    assert(key_of(s, j) <= key_of(s, ci));
                                }
                            },
                            Some(n) => {
                                let ghost nk = node_at(s, n as int).key;
                                assert(node_at(s2, n as int).key == nk);
                                assert forall|k2: u64| rem_old.remove(k).contains(k2) implies
                                    rem_new.contains(k2) by {
                                    let j = choose|j: int|
                                        live(s, j) && key_of(s, j) == k2 as int;
                                    assert(key_of(s, j) > key_of(s, ci));
                                    assert(nk <= k2);
                                }
                                assert forall|k2: u64| rem_new.contains(k2) implies
                                    rem_old.remove(k).contains(k2) by {
                                    assert(has_key(s, k2) && k2 >= nk);
                                    assert(nk > k);
                                }
                            },
                        }
                    }
                }
                (k, v)
            },
        }
    }
}

} // verus!
