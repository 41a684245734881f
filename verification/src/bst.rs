//! The tree itself: node storage, insertion, membership search, minimum
//! lookup and minimum removal.
//!
//! Nodes are kept in one growable arena (`Vec<Option<Node<V>>>`) owned by the
//! tree; links are arena indices.  A node is only ever attached below an
//! already-stored node, so every child index is strictly greater than its
//! parent's index.  That discipline makes the link graph acyclic by
//! construction: walks toward the root strictly decrease the index, walks away
//! from the root strictly increase it, which gives every traversal and every
//! recursive definition below an obvious termination measure.
//!
//! Removing a node never moves the others: its slot is simply cleared, so the
//! indices held by the remaining links stay valid.  Dropping the tree drops
//! the arena, one flat slot at a time — no recursion over the tree shape, so
//! teardown cannot exhaust the call stack even on a fully degenerate tree.

use vstd::prelude::*;

use vstd::pervasive::unreached;

use crate::shape::{
    lemma_attach, lemma_child_side, lemma_descend_left, lemma_descend_right, lemma_idx_of,
    lemma_iv_nested, lemma_key_unique_global, lemma_separation, lemma_splice, lemma_subtree_ge,
    lemma_subtree_trans, lemma_under_root, splice_rel,
};

verus! {

/// The storage unit: a key, its payload, and up to three links.  The `parent`
/// link is a non-owning back-reference used only for traversal.
pub(crate) struct Node<V> {
    pub(crate) key: u64,
    pub(crate) value: V,
    pub(crate) parent: Option<usize>,
    pub(crate) left: Option<usize>,
    pub(crate) right: Option<usize>,
}

/// An ordered container over `u64` keys, each carrying a payload of type `V`.
/// A key equal to one already present is rejected, not merged.
pub struct BST<V> {
    pub(crate) nodes: Vec<Option<Node<V>>>,
    pub(crate) root: Option<usize>,
}

/// Slot `i` of the arena holds a node.
pub(crate) open spec fn live<V>(s: Seq<Option<Node<V>>>, i: int) -> bool {
    0 <= i < s.len() && s[i] is Some
}

pub(crate) open spec fn node_at<V>(s: Seq<Option<Node<V>>>, i: int) -> Node<V> {
    s[i]->Some_0
}

pub(crate) open spec fn key_of<V>(s: Seq<Option<Node<V>>>, i: int) -> int {
    node_at(s, i).key as int
}

/// The link `o` points at slot `i`.
pub(crate) open spec fn some_eq(o: Option<usize>, i: int) -> bool {
    match o {
        Some(x) => x as int == i,
        None => false,
    }
}

/// The index of the left child of `i` (meaningful only when it has one).
pub(crate) open spec fn left_of<V>(s: Seq<Option<Node<V>>>, i: int) -> int {
    node_at(s, i).left->Some_0 as int
}

/// The index of the right child of `i` (meaningful only when it has one).
pub(crate) open spec fn right_of<V>(s: Seq<Option<Node<V>>>, i: int) -> int {
    node_at(s, i).right->Some_0 as int
}

/// One past the largest key; keys lie strictly between `-1` and `key_top()`.
pub(crate) open spec fn key_top() -> int {
    u64::MAX as int + 1
}

/// The strict lower bound that the ancestors of `i` impose on every key in the
/// subtree rooted at `i`: the key of the nearest ancestor that `i` sits to the
/// right of, or `-1` if there is none.
pub(crate) open spec fn lo<V>(s: Seq<Option<Node<V>>>, i: int) -> int
    decreases i,
{
    if !live(s, i) {
        -1
    } else {
        match node_at(s, i).parent {
            None => -1,
            Some(p) => if (p as int) < i && live(s, p as int) {
                if some_eq(node_at(s, p as int).left, i) {
                    lo(s, p as int)
                } else {
                    key_of(s, p as int)
                }
            } else {
                -1
            },
        }
    }
}

/// The strict upper bound imposed by the ancestors of `i`, or `key_top()`.
pub(crate) open spec fn hi<V>(s: Seq<Option<Node<V>>>, i: int) -> int
    decreases i,
{
    if !live(s, i) {
        key_top()
    } else {
        match node_at(s, i).parent {
            None => key_top(),
            Some(p) => if (p as int) < i && live(s, p as int) {
                if some_eq(node_at(s, p as int).left, i) {
                    key_of(s, p as int)
                } else {
                    hi(s, p as int)
                }
            } else {
                key_top()
            },
        }
    }
}

/// Slot `j` lies in the subtree rooted at slot `i` (following parent links
/// from `j` reaches `i`).
pub(crate) open spec fn in_subtree<V>(s: Seq<Option<Node<V>>>, i: int, j: int) -> bool
    decreases j,
{
    live(s, j) && (j == i || (match node_at(s, j).parent {
        None => false,
        Some(p) => 0 <= p as int && (p as int) < j && in_subtree(s, i, p as int),
    }))
}

/// Local well-formedness of slot `i`: links are mutually consistent, children
/// sit at larger indices than their parent, a parentless node is the root, and
/// the node's key lies strictly inside the interval its ancestors impose.
pub(crate) open spec fn wf_at<V>(s: Seq<Option<Node<V>>>, root: Option<usize>, i: int) -> bool {
    live(s, i) ==> {
        let n = node_at(s, i);
        &&& (match n.parent {
            None => some_eq(root, i),
            Some(p) => 0 <= p as int && (p as int) < i && live(s, p as int) && (some_eq(
                node_at(s, p as int).left,
                i,
            ) || some_eq(node_at(s, p as int).right, i)),
        })
        &&& (match n.left {
            None => true,
            Some(l) => i < l as int && live(s, l as int) && some_eq(
                node_at(s, l as int).parent,
                i,
            ),
        })
        &&& (match n.right {
            None => true,
            Some(r) => i < r as int && live(s, r as int) && some_eq(
                node_at(s, r as int).parent,
                i,
            ),
        })
        &&& (n.left is Some && n.right is Some ==> n.left != n.right)
        &&& lo(s, i) < key_of(s, i) < hi(s, i)
    }
}

/// Well-formedness of the whole arena: the root link is sound and every slot
/// is locally well-formed.
pub(crate) open spec fn wf_tree<V>(s: Seq<Option<Node<V>>>, root: Option<usize>) -> bool {
    &&& (match root {
        None => true,
        Some(r) => live(s, r as int) && node_at(s, r as int).parent is None,
    })
    &&& (forall|i: int| #[trigger] wf_at(s, root, i))
}

/// Some live slot holds key `k`.
pub(crate) open spec fn has_key<V>(s: Seq<Option<Node<V>>>, k: u64) -> bool {
    exists|i: int| live(s, i) && key_of(s, i) == k as int
}

/// The slot holding key `k` (meaningful only when `has_key(s, k)`).
pub(crate) open spec fn idx_of<V>(s: Seq<Option<Node<V>>>, k: u64) -> int {
    choose|i: int| live(s, i) && key_of(s, i) == k as int
}

/// The abstract content of the arena: the finite map from stored keys to
/// their payloads.
pub(crate) open spec fn tree_map<V>(s: Seq<Option<Node<V>>>) -> Map<u64, V> {
    Map::new(|k: u64| has_key(s, k), |k: u64| node_at(s, idx_of(s, k)).value)
}

impl<V> BST<V> {
    /// The structural invariant; every operation requires and preserves it.
    pub open(crate) spec fn wf(self) -> bool {
        wf_tree(self.nodes@, self.root)
    }
}

impl<V> BST<V> {
    /// Inserts `value` under `key`: true if stored, false — and the tree left
    /// unchanged — if an equal key is already present.  Walks from the root,
    /// left on smaller, right on greater, and attaches a fresh node at the
    /// first absent child slot, linked back to its parent.
    pub fn insert(&mut self, key: u64, value: V) -> (r: bool)
        requires
            old(self).wf(),
        ensures
            final(self).wf(),
            r == !old(self)@.dom().contains(key),
            r ==> final(self)@ == old(self)@.insert(key, value),
            !r ==> final(self)@ == old(self)@,
    {
        let ghost s0 = self.nodes@;
        let ghost root0 = self.root;
        match self.root {
            None => {
                proof {
                    assert forall|j: int| !live(s0, j) by {
                        if live(s0, j) {
                            lemma_under_root(s0, root0, j);
                        }
                    }
                    assert(!has_key(s0, key));
                }
                let i = new_link(&mut self.nodes, key, value, None);
                self.root = Some(i);
                proof {
                    let s2 = self.nodes@;
                    let ni = i as int;
                    assert forall|x: int| wf_at(s2, self.root, x) by {
                        if live(s2, x) {
                            if x != ni {
                                assert(s2[x] == s0[x]);
                                assert(!live(s0, x));
                                assert(false);
                            } else {
                                assert(lo(s2, ni) == -1 && hi(s2, ni) == key_top());
                            }
                        }
                    }
                    assert(self.wf());
                    assert forall|j: int|
                        live(s2, j) && key_of(s2, j) == key as int implies j == ni by {
                        if j != ni {
                            assert(s2[j] == s0[j]);
                            assert(!live(s0, j));
                            assert(false);
                        }
                    }
                    assert forall|k: u64| #[trigger] has_key(s2, k) implies k == key by {
                        let j = choose|j: int| live(s2, j) && key_of(s2, j) == k as int;
                        if j != ni {
                            assert(s2[j] == s0[j]);
                            assert(!live(s0, j));
                            assert(false);
                        }
                    }
                    assert(live(s2, ni) && key_of(s2, ni) == key as int);
                    assert(has_key(s2, key));
                    assert(idx_of(s2, key) == ni);
                    assert(tree_map(s0) =~= Map::<u64, V>::empty());
                    assert(tree_map(s2) =~= tree_map(s0).insert(key, value));
                }
                true
            },
            Some(rt) => {
                let mut cur: usize = rt;
                let mut found = false;
                let mut done = false;
                let mut dir_left = false;
                proof {
                    assert(wf_at(s0, root0, rt as int));
                    assert(lo(s0, rt as int) == -1 && hi(s0, rt as int) == key_top());
                    assert forall|j: int|
                        live(s0, j) && key_of(s0, j) == key as int implies in_subtree(
                        s0,
                        rt as int,
                        j,
                    ) by {
                        lemma_under_root(s0, root0, j);
                    }
                }
                while !done
                    invariant
                        self.wf(),
                        s0 == self.nodes@,
                        root0 == self.root,
                        live(s0, cur as int),
                        lo(s0, cur as int) < (key as int) < hi(s0, cur as int),
                        forall|j: int|
                            live(s0, j) && key_of(s0, j) == key as int ==> in_subtree(
                                s0,
                                cur as int,
                                j,
                            ),
                        !done ==> !found,
                        done && found ==> key_of(s0, cur as int) == key as int,
                        done && !found ==> !has_key(s0, key) && (if dir_left {
                            node_at(s0, cur as int).left is None && (key as int) < key_of(
                                s0,
                                cur as int,
                            )
                        } else {
                            node_at(s0, cur as int).right is None && (key as int) > key_of(
                                s0,
                                cur as int,
                            )
                        }),
                    decreases (if done {
                        0int
                    } else {
                        1int
                    }), s0.len() - cur,
                {
                    proof {
                        assert(wf_at(s0, root0, cur as int));
                    }
                    match &self.nodes[cur] {
                        Some(n) => {
                            if key == n.key {
                                found = true;
                                done = true;
                            } else if key < n.key {
                                proof {
                                    assert forall|j: int|
                                        live(s0, j) && key_of(s0, j) == key as int implies (node_at(
                                        s0,
                                        cur as int,
                                    ).left is Some && in_subtree(s0, left_of(s0, cur as int), j)) by {
                                        lemma_descend_left(s0, root0, cur as int, j);
                                    }
                                }
                                match n.left {
                                    Some(l) => {
                                        proof {
                                            assert(wf_at(s0, root0, l as int));
                                            assert(lo(s0, l as int) == lo(s0, cur as int));
                                            assert(hi(s0, l as int) == key_of(s0, cur as int));
                                        }
                                        cur = l;
                                    },
                                    None => {
                                        dir_left = true;
                                        done = true;
                                    },
                                }
                            } else {
                                proof {
                                    assert forall|j: int|
                                        live(s0, j) && key_of(s0, j) == key as int implies (node_at(
                                        s0,
                                        cur as int,
                                    ).right is Some && in_subtree(s0, right_of(s0, cur as int), j)) by {
                                        lemma_descend_right(s0, root0, cur as int, j);
                                    }
                                }
                                match n.right {
                                    Some(rc) => {
                                        proof {
                                            assert(wf_at(s0, root0, rc as int));
                                            assert(lo(s0, rc as int) == key_of(s0, cur as int));
                                            assert(hi(s0, rc as int) == hi(s0, cur as int));
                                        }
                                        cur = rc;
                                    },
                                    None => {
                                        dir_left = false;
                                        done = true;
                                    },
                                }
                            }
                        },
                        None => {
                            proof {
                                assert(false);
                            }
                        },
                    }
                }
                if found {
                    proof {
                        assert(has_key(s0, key));
                    }
                    return false;
                }
                let at = cur;
                let i = new_link(&mut self.nodes, key, value, Some(at));
                if dir_left {
                    match &mut self.nodes[at] {
                        Some(n) => {
                            n.left = Some(i);
                        },
                        None => {
                            proof {
                                assert(false);
                            }
                        },
                    }
                } else {
                    match &mut self.nodes[at] {
                        Some(n) => {
                            n.right = Some(i);
                        },
                        None => {
                            proof {
                                assert(false);
                            }
                        },
                    }
                }
                proof {
                    lemma_attach(s0, self.nodes@, root0, at, i, key, value, dir_left);
                }
                true
            },
        }
    }

    /// The slot of the node holding the least key, or nothing on an empty
    /// tree.  Used to seed iteration and by minimum removal.
    pub(crate) fn min(&self) -> (r: Option<usize>)
        requires
            self.wf(),
        ensures
            match r {
                None => self@.dom() == Set::<u64>::empty(),
                Some(m) => live(self.nodes@, m as int) && self@.dom().contains(
                    node_at(self.nodes@, m as int).key,
                ) && (forall|k2: u64|
                    self@.dom().contains(k2) ==> node_at(self.nodes@, m as int).key <= k2),
            },
    {
        let ghost s = self.nodes@;
        match self.root {
            None => {
                proof {
                    assert forall|k: u64| !(#[trigger] has_key(s, k)) by {
                        if has_key(s, k) {
                            let j = choose|j: int| live(s, j) && key_of(s, j) == k as int;
                            lemma_under_root(s, self.root, j);
                        }
                    }
                    assert(self@.dom() =~= Set::<u64>::empty());
                }
                None
            },
            Some(rt) => {
                let m = min_link(&self.nodes, rt, Ghost(self.root));
                proof {
                    assert(has_key(s, node_at(s, m as int).key));
                    assert forall|k2: u64| self@.dom().contains(k2) implies node_at(
                        s,
                        m as int,
                    ).key <= k2 by {
                        let j = choose|j: int| live(s, j) && key_of(s, j) == k2 as int;
                        lemma_under_root(s, self.root, j);
                    }
                }
                Some(m)
            },
        }
    }

    /// Detaches the node holding the least key — by definition it has no left
    /// child — and hands back its key and payload.  Its parent's left link
    /// (or the root, when the minimum is the root) is spliced onto the
    /// removed node's right subtree.  On an empty tree, nothing happens.
    pub fn remove_min(&mut self) -> (r: Option<(u64, V)>)
        requires
            old(self).wf(),
        ensures
            final(self).wf(),
            match r {
                None => old(self)@.dom() == Set::<u64>::empty() && *final(self) == *old(self),
                Some(kv) => {
                    &&& old(self)@.dom().contains(kv.0)
                    &&& (forall|k2: u64| old(self)@.dom().contains(k2) ==> kv.0 <= k2)
                    &&& kv.1 == old(self)@[kv.0]
                    &&& final(self)@ == old(self)@.remove(kv.0)
                },
            },
    {
        let ghost s0 = self.nodes@;
        let ghost root0 = self.root;
        match self.root {
            None => {
                proof {
                    assert forall|k: u64| !(#[trigger] has_key(s0, k)) by {
                        if has_key(s0, k) {
                            let j = choose|j: int| live(s0, j) && key_of(s0, j) == k as int;
                            lemma_under_root(s0, root0, j);
                        }
                    }
                    assert(old(self)@.dom() =~= Set::<u64>::empty());
                }
                None
            },
            Some(rt) => {
                let m = min_link(&self.nodes, rt, Ghost(self.root));
                let ghost mi = m as int;
                proof {
                    assert(wf_at(s0, root0, mi));
                }
                let slot = &mut self.nodes[m];
                let node = slot.take().unwrap();
                proof {
                    assert(node == node_at(s0, mi));
                }
                match node.parent {
                    Some(p) => {
                        match &mut self.nodes[p] {
                            Some(pn) => {
                                pn.left = node.right;
                            },
                            None => {
                                proof {
                                    assert(false);
                                }
                            },
                        }
                        match node.right {
                            Some(rc) => {
                                proof {
                                    assert((rc as int) != (p as int));
                                }
                                match &mut self.nodes[rc] {
                                    Some(rn) => {
                                        rn.parent = Some(p);
                                    },
                                    None => {
                                        proof {
                                            assert(false);
                                        }
                                    },
                                }
                            },
                            None => {},
                        }
                    },
                    None => {
                        self.root = node.right;
                        match node.right {
                            Some(rc) => {
                                match &mut self.nodes[rc] {
                                    Some(rn) => {
                                        rn.parent = None;
                                    },
                                    None => {
                                        proof {
                                            assert(false);
                                        }
                                    },
                                }
                            },
                            None => {},
                        }
                    },
                }
                proof {
                    assert(splice_rel(s0, self.nodes@, root0, self.root, mi));
                    lemma_splice(s0, self.nodes@, root0, self.root, mi);
                    assert(has_key(s0, node.key)) by {
                        assert(live(s0, mi) && key_of(s0, mi) == node.key as int);
                    }
                    assert forall|k2: u64| old(self)@.dom().contains(k2) implies node.key <= k2 by {
                        let j = choose|j: int| live(s0, j) && key_of(s0, j) == k2 as int;
                        lemma_under_root(s0, root0, j);
                    }
                    lemma_idx_of(s0, root0, node.key);
                    assert(idx_of(s0, node.key) == mi);
                    assert(old(self)@[node.key] == node.value);
                }
                let k = node.key;
                let v = node.into_inner();
                Some((k, v))
            },
        }
    }

    /// Whether a value equal to `key` is present: walk from the root, left on
    /// smaller, right on greater; an exhausted descent means absent.
    pub fn search(&self, key: u64) -> (r: bool)
        requires
            self.wf(),
        ensures
            r == self@.dom().contains(key),
    {
        let ghost s = self.nodes@;
        let ghost root = self.root;
        let mut cur_opt: Option<usize> = self.root;
        let mut found = false;
        let mut done = false;
        proof {
            assert forall|j: int| live(s, j) && key_of(s, j) == key as int implies (root is Some
                && in_subtree(s, root->Some_0 as int, j)) by {
                lemma_under_root(s, root, j);
            }
        }
        while !done
            invariant
                self.wf(),
                s == self.nodes@,
                root == self.root,
                done ==> found == has_key(s, key),
                !done ==> !found,
                !done ==> (match cur_opt {
                    Some(c) => live(s, c as int) && (forall|j: int|
                        live(s, j) && key_of(s, j) == key as int ==> in_subtree(s, c as int, j)),
                    None => !has_key(s, key),
                }),
            decreases (if done { 0int } else { 1int }), (match cur_opt {
                Some(c) => s.len() - c,
                None => 0int,
            }),
        {
            match cur_opt {
                None => {
                    found = false;
                    done = true;
                },
                Some(c) => {
                    proof {
                        assert(wf_at(s, root, c as int));
                    }
                    match &self.nodes[c] {
                        Some(n) => {
                            if key == n.key {
                                proof {
                                    assert(live(s, c as int) && key_of(s, c as int) == key as int);
                                }
                                found = true;
                                done = true;
                            } else if key < n.key {
                                proof {
                                    assert forall|j: int|
                                        live(s, j) && key_of(s, j) == key as int implies (node_at(
                                        s,
                                        c as int,
                                    ).left is Some && in_subtree(s, left_of(s, c as int), j)) by {
                                        lemma_descend_left(s, root, c as int, j);
                                    }
                                }
                                cur_opt = n.left;
                            } else {
                                proof {
                                    assert forall|j: int|
                                        live(s, j) && key_of(s, j) == key as int implies (node_at(
                                        s,
                                        c as int,
                                    ).right is Some && in_subtree(s, right_of(s, c as int), j)) by {
                                        lemma_descend_right(s, root, c as int, j);
                                    }
                                }
                                cur_opt = n.right;
                            }
                        },
                        None => {
                            proof {
                                assert(false);
                            }
                        },
                    }
                },
            }
        }
        found
    }
}

impl<V> View for BST<V> {
    type V = Map<u64, V>;

    open(crate) spec fn view(&self) -> Map<u64, V> {
        tree_map(self.nodes@)
    }
}

impl<V> Default for BST<V> {
    /// The empty tree.
    fn default() -> (t: Self)
        ensures
            t.wf(),
            t@ == Map::<u64, V>::empty(),
    {
        let t = BST::<V> { nodes: Vec::new(), root: None };
        proof {
            assert(t@ =~= Map::<u64, V>::empty());
        }
        t
    }
}

impl<V> Node<V> {
    /// A fresh node holding `value` under `key`, with no links set.
    pub(crate) fn new(key: u64, value: V) -> (n: Node<V>)
        ensures
            n == (Node::<V> { key, value, parent: None, left: None, right: None }),
    {
        Node { key, value, parent: None, left: None, right: None }
    }

    /// Moves the payload out of a detached node.
    pub(crate) fn into_inner(self) -> (v: V)
        ensures
            v == self.value,
    {
        self.value
    }
}

/// The leftmost node of the subtree rooted at `start`: follow left links
/// until none remains.  It holds the least key of that subtree, has no left
/// child, and — unless it is `start` itself — is its parent's left child.
pub(crate) fn min_link<V>(
    nodes: &Vec<Option<Node<V>>>,
    start: usize,
    Ghost(root): Ghost<Option<usize>>,
) -> (m: usize)
    requires
        wf_tree(nodes@, root),
        live(nodes@, start as int),
    ensures
        live(nodes@, m as int),
        in_subtree(nodes@, start as int, m as int),
        node_at(nodes@, m as int).left is None,
        forall|j: int|
            in_subtree(nodes@, start as int, j) ==> key_of(nodes@, m as int) <= key_of(nodes@, j),
        m != start ==> node_at(nodes@, m as int).parent is Some && some_eq(
            node_at(nodes@, node_at(nodes@, m as int).parent->Some_0 as int).left,
            m as int,
        ),
{
    let ghost s = nodes@;
    let mut cur = start;
    let mut done = false;
    proof {
        assert(in_subtree(s, start as int, start as int));
    }
    while !done
        invariant
            wf_tree(s, root),
            s == nodes@,
            live(s, cur as int),
            in_subtree(s, start as int, cur as int),
            forall|j: int|
                in_subtree(s, start as int, j) && key_of(s, j) < key_of(s, cur as int)
                    ==> in_subtree(s, cur as int, j),
            cur != start ==> node_at(s, cur as int).parent is Some && some_eq(
                node_at(s, node_at(s, cur as int).parent->Some_0 as int).left,
                cur as int,
            ),
            done ==> node_at(s, cur as int).left is None,
        decreases (if done {
            0int
        } else {
            1int
        }), s.len() - cur,
    {
        proof {
            assert(wf_at(s, root, cur as int));
        }
        match &nodes[cur] {
            Some(n) => {
                match n.left {
                    Some(l) => {
                        proof {
                            assert(wf_at(s, root, l as int));
                            assert(hi(s, l as int) == key_of(s, cur as int));
                            assert(key_of(s, l as int) < key_of(s, cur as int));
                            assert(in_subtree(s, cur as int, cur as int));
                            assert(in_subtree(s, cur as int, l as int));
                            lemma_subtree_trans(s, start as int, cur as int, l as int);
                            assert forall|j: int|
                                in_subtree(s, start as int, j) && key_of(s, j) < key_of(
                                    s,
                                    l as int,
                                ) implies in_subtree(s, l as int, j) by {
                                assert(in_subtree(s, cur as int, j));
                                lemma_descend_left(s, root, cur as int, j);
                            }
                        }
                        cur = l;
                    },
                    None => {
                        done = true;
                    },
                }
            },
            None => {
                proof {
                    assert(false);
                }
            },
        }
    }
    proof {
        assert forall|j: int| in_subtree(s, start as int, j) implies key_of(s, cur as int)
            <= key_of(s, j) by {
            if key_of(s, j) < key_of(s, cur as int) {
                lemma_descend_left(s, root, cur as int, j);
                assert(false);
            }
        }
    }
    cur
}

/// The in-order successor of the node at `c`, computed purely from stored
/// links: the leftmost node of its right subtree if it has one, else the
/// nearest ancestor with a strictly greater key (the first ancestor that `c`
/// hangs to the left of).  `None` when `c` holds the greatest key.  No stack,
/// no recursion: a single upward or downward walk.
pub(crate) fn next_link<V>(
    nodes: &Vec<Option<Node<V>>>,
    c: usize,
    Ghost(root): Ghost<Option<usize>>,
) -> (r: Option<usize>)
    requires
        wf_tree(nodes@, root),
        live(nodes@, c as int),
    ensures
        match r {
            None => forall|j: int|
                live(nodes@, j) ==> key_of(nodes@, j) <= key_of(nodes@, c as int),
            Some(n) => live(nodes@, n as int) && key_of(nodes@, n as int) > key_of(
                nodes@,
                c as int,
            ) && (forall|j: int|
                live(nodes@, j) && key_of(nodes@, j) > key_of(nodes@, c as int) ==> key_of(
                    nodes@,
                    n as int,
                ) <= key_of(nodes@, j)),
        },
{
    let ghost s = nodes@;
    let ghost ck = key_of(s, c as int);
    proof {
        assert(wf_at(s, root, c as int));
    }
    let (ckey, cright) = match &nodes[c] {
        Some(n) => (n.key, n.right),
        None => unreached(),
    };
    match cright {
        Some(rt) => {
            let m = min_link(nodes, rt, Ghost(root));
            proof {
                assert(wf_at(s, root, rt as int));
                assert(wf_at(s, root, m as int));
                assert(lo(s, rt as int) == ck);
                assert(hi(s, rt as int) == hi(s, c as int));
                lemma_iv_nested(s, root, rt as int, m as int);
                assert(key_of(s, m as int) > ck);
                assert forall|j: int| live(s, j) && key_of(s, j) > ck implies key_of(s, m as int)
                    <= key_of(s, j) by {
                    if !in_subtree(s, rt as int, j) {
                        lemma_separation(s, root, rt as int, j);
                        assert(key_of(s, j) >= hi(s, rt as int));
                        assert(key_of(s, m as int) < hi(s, m as int));
                    }
                }
            }
            Some(m)
        },
        None => {
            let mut a = c;
            let mut result: Option<usize> = None;
            let mut done = false;
            proof {
                assert forall|j: int| in_subtree(s, c as int, j) implies key_of(s, j) <= ck by {
                    if j != c as int {
                        lemma_child_side(s, root, c as int, j);
                    }
                }
            }
            while !done
                invariant
                    wf_tree(s, root),
                    s == nodes@,
                    ck == key_of(s, c as int),
                    ckey as int == ck,
                    live(s, c as int),
                    live(s, a as int),
                    in_subtree(s, a as int, c as int),
                    forall|j: int| in_subtree(s, a as int, j) ==> key_of(s, j) <= ck,
                    !done ==> result is None,
                    done ==> (match result {
                        Some(n) => live(s, n as int) && key_of(s, n as int) > ck && (forall|j: int|
                            live(s, j) && key_of(s, j) > ck ==> key_of(s, n as int) <= key_of(
                                s,
                                j,
                            )),
                        None => forall|j: int| live(s, j) ==> key_of(s, j) <= ck,
                    }),
                decreases (if done {
                    0int
                } else {
                    1int
                }), a,
            {
                proof {
                    assert(wf_at(s, root, a as int));
                    lemma_subtree_ge(s, a as int, c as int);
                }
                let parent = match &nodes[a] {
                    Some(n) => n.parent,
                    None => unreached(),
                };
                match parent {
                    Some(p) => {
                        let ghost pi = p as int;
                        let pk = match &nodes[p] {
                            Some(n) => n.key,
                            None => unreached(),
                        };
                        proof {
                            assert(wf_at(s, root, pi));
                            assert(in_subtree(s, pi, pi));
                            assert(in_subtree(s, pi, a as int));
                            lemma_subtree_trans(s, pi, a as int, c as int);
                            if pk == ckey {
                                lemma_key_unique_global(s, root, pi, c as int);
                                assert(false);
                            }
                        }
                        if pk > ckey {
                            proof {
                                // `a` hangs to the left of `p`: were it the
                                // right child, every key below it would
                                // exceed `p`'s, including `c`'s.
                                assert(some_eq(node_at(s, pi).left, a as int)) by {
                                    if !some_eq(node_at(s, pi).left, a as int) {
                                        assert(lo(s, a as int) == key_of(s, pi));
                                        lemma_iv_nested(s, root, a as int, c as int);
                                        assert(wf_at(s, root, c as int));
                                        assert(false);
                                    }
                                }
                                assert forall|j: int|
                                    live(s, j) && key_of(s, j) > ck implies key_of(s, pi)
                                    <= key_of(s, j) by {
                                    if j != pi {
                                        if in_subtree(s, pi, j) {
                                            lemma_child_side(s, root, pi, j);
                                            if key_of(s, j) < key_of(s, pi) {
                                                assert(in_subtree(s, left_of(s, pi), j));
                                                assert(left_of(s, pi) == a as int);
                                                assert(key_of(s, j) <= ck);
                                                assert(false);
                                            }
                                        } else {
                                            lemma_separation(s, root, pi, j);
                                            lemma_iv_nested(s, root, pi, c as int);
                                            assert(wf_at(s, root, c as int));
                                            assert(lo(s, pi) <= lo(s, c as int) < ck);
                                            assert(key_of(s, j) >= hi(s, pi));
                                            assert(key_of(s, pi) < hi(s, pi));
                                        }
                                    }
                                }
                            }
                            result = Some(p);
                            done = true;
                        } else {
                            proof {
                                // `a` is the right child of `p`, so the rest
                                // of `p`'s subtree sits at or below `p`'s key,
                                // which is below `c`'s.
                                assert(some_eq(node_at(s, pi).right, a as int)) by {
                                    if !some_eq(node_at(s, pi).right, a as int) {
                                        assert(hi(s, a as int) == key_of(s, pi));
                                        lemma_iv_nested(s, root, a as int, c as int);
                                        assert(wf_at(s, root, c as int));
                                        assert(false);
                                    }
                                }
                                assert forall|j: int| in_subtree(s, pi, j) implies key_of(s, j)
                                    <= ck by {
                                    if j != pi {
                                        lemma_child_side(s, root, pi, j);
                                        if key_of(s, j) > key_of(s, pi) {
                                            assert(in_subtree(s, right_of(s, pi), j));
                                            assert(right_of(s, pi) == a as int);
                                        }
                                    }
                                }
                            }
                            a = p;
                        }
                    },
                    None => {
                        proof {
                            assert(some_eq(root, a as int));
                            assert forall|j: int| live(s, j) implies key_of(s, j) <= ck by {
                                lemma_under_root(s, root, j);
                            }
                        }
                        done = true;
                    },
                }
            }
            result
        },
    }
}

/// Stores a fresh childless node in the arena, already carrying its parent
/// back-reference, and returns its index: one past every existing slot.
pub(crate) fn new_link<V>(
    nodes: &mut Vec<Option<Node<V>>>,
    key: u64,
    value: V,
    parent: Option<usize>,
) -> (i: usize)
    ensures
        i == old(nodes)@.len(),
        final(nodes)@ == old(nodes)@.push(
            Some(Node::<V> { key, value, parent, left: None, right: None }),
        ),
{
    let i = nodes.len();
    let mut n = Node::new(key, value);
    n.parent = parent;
    nodes.push(Some(n));
    i
}

} // verus!
