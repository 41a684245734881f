//! Facts about the arena's link graph: where subtrees lie, how the key
//! intervals of ancestors and descendants nest, and why two separate subtrees
//! cannot hold keys in each other's range.

use vstd::prelude::*;

use crate::bst::{
    has_key, hi, idx_of, in_subtree, key_of, key_top, left_of, live, lo, node_at, right_of,
    some_eq, tree_map, wf_at, wf_tree, Node,
};

verus! {

/// Everything in the subtree of `i` sits at index `i` or beyond.
pub(crate) proof fn lemma_subtree_ge<V>(s: Seq<Option<Node<V>>>, i: int, j: int)
    requires
        in_subtree(s, i, j),
    ensures
        i <= j,
        live(s, j),
        live(s, i),
    decreases j,
{
    if j != i {
        match node_at(s, j).parent {
            Some(p) => lemma_subtree_ge(s, i, p as int),
            None => assert(false),
        }
    }
}

/// Subtree containment is transitive.
pub(crate) proof fn lemma_subtree_trans<V>(s: Seq<Option<Node<V>>>, i: int, c: int, j: int)
    requires
        in_subtree(s, i, c),
        in_subtree(s, c, j),
    ensures
        in_subtree(s, i, j),
    decreases j,
{
    if j != c {
        match node_at(s, j).parent {
            Some(p) => lemma_subtree_trans(s, i, c, p as int),
            None => assert(false),
        }
    }
}

/// Every live slot lies in the root's subtree; in particular a rootless
/// well-formed arena is empty.
pub(crate) proof fn lemma_under_root<V>(s: Seq<Option<Node<V>>>, root: Option<usize>, j: int)
    requires
        wf_tree(s, root),
        live(s, j),
    ensures
        root is Some,
        in_subtree(s, root->Some_0 as int, j),
    decreases j,
{
    assert(wf_at(s, root, j));
    match node_at(s, j).parent {
        None => {
            assert(some_eq(root, j));
        },
        Some(p) => {
            lemma_under_root(s, root, p as int);
        },
    }
}

/// A proper descendant of `i` lies in the subtree of one of `i`'s children.
pub(crate) proof fn lemma_descend<V>(s: Seq<Option<Node<V>>>, root: Option<usize>, i: int, j: int)
    requires
        wf_tree(s, root),
        in_subtree(s, i, j),
        j != i,
    ensures
        live(s, i),
        (node_at(s, i).left is Some && in_subtree(s, left_of(s, i), j)) || (node_at(s, i).right
            is Some && in_subtree(s, right_of(s, i), j)),
    decreases j,
{
    assert(wf_at(s, root, j));
    match node_at(s, j).parent {
        None => {
            assert(false);
        },
        Some(p) => {
            if p as int == i {
                assert(some_eq(node_at(s, i).left, j) || some_eq(node_at(s, i).right, j));
                assert(in_subtree(s, j, j));
            } else {
                lemma_descend(s, root, i, p as int);
            }
        },
    }
}

/// The key interval of a descendant nests inside the key interval of each of
/// its ancestors.
pub(crate) proof fn lemma_iv_nested<V>(
    s: Seq<Option<Node<V>>>,
    root: Option<usize>,
    i: int,
    j: int,
)
    requires
        wf_tree(s, root),
        in_subtree(s, i, j),
    ensures
        lo(s, i) <= lo(s, j),
        hi(s, j) <= hi(s, i),
    decreases j,
{
    if j != i {
        assert(wf_at(s, root, j));
        match node_at(s, j).parent {
            None => {
                assert(false);
            },
            Some(p) => {
                assert(wf_at(s, root, p as int));
                lemma_iv_nested(s, root, i, p as int);
            },
        }
    }
}

/// A proper descendant of `i` sits in the subtree of exactly the child that
/// its key lies on the side of, and its key differs from `i`'s.
pub(crate) proof fn lemma_child_side<V>(
    s: Seq<Option<Node<V>>>,
    root: Option<usize>,
    i: int,
    j: int,
)
    requires
        wf_tree(s, root),
        in_subtree(s, i, j),
        j != i,
    ensures
        (node_at(s, i).left is Some && in_subtree(s, left_of(s, i), j) && key_of(s, j) < key_of(
            s,
            i,
        )) || (node_at(s, i).right is Some && in_subtree(s, right_of(s, i), j) && key_of(s, j)
            > key_of(s, i)),
{
    lemma_descend(s, root, i, j);
    lemma_subtree_ge(s, i, j);
    assert(wf_at(s, root, i));
    assert(wf_at(s, root, j));
    if node_at(s, i).left is Some && in_subtree(s, left_of(s, i), j) {
        let c = left_of(s, i);
        assert(wf_at(s, root, c));
        assert(hi(s, c) == key_of(s, i));
        lemma_iv_nested(s, root, c, j);
    } else {
        let c = right_of(s, i);
        assert(wf_at(s, root, c));
        assert(lo(s, c) == key_of(s, i));
        lemma_iv_nested(s, root, c, j);
    }
}

/// Keys lower than `i`'s that lie in `i`'s subtree lie in its left child's.
pub(crate) proof fn lemma_descend_left<V>(
    s: Seq<Option<Node<V>>>,
    root: Option<usize>,
    i: int,
    j: int,
)
    requires
        wf_tree(s, root),
        in_subtree(s, i, j),
        key_of(s, j) < key_of(s, i),
    ensures
        node_at(s, i).left is Some,
        in_subtree(s, left_of(s, i), j),
{
    lemma_child_side(s, root, i, j);
}

/// Keys greater than `i`'s that lie in `i`'s subtree lie in its right child's.
pub(crate) proof fn lemma_descend_right<V>(
    s: Seq<Option<Node<V>>>,
    root: Option<usize>,
    i: int,
    j: int,
)
    requires
        wf_tree(s, root),
        in_subtree(s, i, j),
        key_of(s, j) > key_of(s, i),
    ensures
        node_at(s, i).right is Some,
        in_subtree(s, right_of(s, i), j),
{
    lemma_child_side(s, root, i, j);
}

/// No two slots of one subtree hold the same key.
pub(crate) proof fn lemma_key_unique<V>(
    s: Seq<Option<Node<V>>>,
    root: Option<usize>,
    i: int,
    j1: int,
    j2: int,
)
    requires
        wf_tree(s, root),
        in_subtree(s, i, j1),
        in_subtree(s, i, j2),
        key_of(s, j1) == key_of(s, j2),
    ensures
        j1 == j2,
    decreases s.len() - i,
{
    lemma_subtree_ge(s, i, j1);
    lemma_subtree_ge(s, i, j2);
    assert(wf_at(s, root, i));
    if j1 == i && j2 == i {
    } else if j1 == i {
        lemma_child_side(s, root, i, j2);
        assert(false);
    } else if j2 == i {
        lemma_child_side(s, root, i, j1);
        assert(false);
    } else {
        lemma_child_side(s, root, i, j1);
        lemma_child_side(s, root, i, j2);
        if key_of(s, j1) < key_of(s, i) {
            assert(i < left_of(s, i) < s.len());
            lemma_key_unique(s, root, left_of(s, i), j1, j2);
        } else {
            assert(i < right_of(s, i) < s.len());
            lemma_key_unique(s, root, right_of(s, i), j1, j2);
        }
    }
}

/// Two separate subtrees cover disjoint key intervals.
pub(crate) proof fn lemma_disjoint<V>(s: Seq<Option<Node<V>>>, root: Option<usize>, c: int, j: int)
    requires
        wf_tree(s, root),
        live(s, c),
        live(s, j),
        !in_subtree(s, c, j),
        !in_subtree(s, j, c),
    ensures
        hi(s, j) <= lo(s, c) + 1 || hi(s, c) <= lo(s, j) + 1,
    decreases j,
{
    assert(wf_at(s, root, j));
    match node_at(s, j).parent {
        None => {
            lemma_under_root(s, root, c);
            assert(false);
        },
        Some(p) => {
            let q = p as int;
            assert(wf_at(s, root, q));
            assert(in_subtree(s, q, q));
            assert(in_subtree(s, q, j));
            if in_subtree(s, q, c) {
                if q == c {
                    assert(in_subtree(s, c, j));
                    assert(false);
                }
                lemma_descend(s, root, q, c);
                if node_at(s, q).left is Some && in_subtree(s, left_of(s, q), c) {
                    let cc = left_of(s, q);
                    if cc == j {
                        assert(false);
                    }
                    // j must then be the right child of q.
                    assert(some_eq(node_at(s, q).right, j));
                    assert(wf_at(s, root, cc));
                    assert(hi(s, cc) == key_of(s, q));
                    assert(lo(s, j) == key_of(s, q));
                    lemma_iv_nested(s, root, cc, c);
                } else {
                    let cc = right_of(s, q);
                    if cc == j {
                        assert(false);
                    }
                    assert(some_eq(node_at(s, q).left, j));
                    assert(wf_at(s, root, cc));
                    assert(lo(s, cc) == key_of(s, q));
                    assert(hi(s, j) == key_of(s, q));
                    lemma_iv_nested(s, root, cc, c);
                }
            } else {
                if in_subtree(s, c, q) {
                    assert(in_subtree(s, c, j));
                    assert(false);
                }
                lemma_disjoint(s, root, c, q);
                lemma_iv_nested(s, root, q, j);
            }
        },
    }
}

/// A live slot outside the subtree of `c` holds a key outside the open key
/// interval that bounds `c`'s subtree.
pub(crate) proof fn lemma_separation<V>(
    s: Seq<Option<Node<V>>>,
    root: Option<usize>,
    c: int,
    j: int,
)
    requires
        wf_tree(s, root),
        live(s, c),
        live(s, j),
        !in_subtree(s, c, j),
    ensures
        key_of(s, j) <= lo(s, c) || key_of(s, j) >= hi(s, c),
{
    assert(wf_at(s, root, j));
    if in_subtree(s, j, c) {
        assert(j != c);
        lemma_descend(s, root, j, c);
        assert(wf_at(s, root, j));
        if node_at(s, j).left is Some && in_subtree(s, left_of(s, j), c) {
            let cc = left_of(s, j);
            assert(wf_at(s, root, cc));
            assert(hi(s, cc) == key_of(s, j));
            lemma_iv_nested(s, root, cc, c);
        } else {
            let cc = right_of(s, j);
            assert(wf_at(s, root, cc));
            assert(lo(s, cc) == key_of(s, j));
            lemma_iv_nested(s, root, cc, c);
        }
    } else {
        lemma_disjoint(s, root, c, j);
        assert(wf_at(s, root, c));
    }
}

/// No two live slots anywhere in a well-formed arena hold the same key.
pub(crate) proof fn lemma_key_unique_global<V>(
    s: Seq<Option<Node<V>>>,
    root: Option<usize>,
    i: int,
    j: int,
)
    requires
        wf_tree(s, root),
        live(s, i),
        live(s, j),
        key_of(s, i) == key_of(s, j),
    ensures
        i == j,
{
    lemma_under_root(s, root, i);
    lemma_under_root(s, root, j);
    lemma_key_unique(s, root, root->Some_0 as int, i, j);
}

/// `idx_of` picks the one live slot holding key `k`.
pub(crate) proof fn lemma_idx_of<V>(s: Seq<Option<Node<V>>>, root: Option<usize>, k: u64)
    requires
        wf_tree(s, root),
        has_key(s, k),
    ensures
        live(s, idx_of(s, k)),
        key_of(s, idx_of(s, k)) == k as int,
        forall|j: int| live(s, j) && key_of(s, j) == k as int ==> j == idx_of(s, k),
{
    let i = idx_of(s, k);
    assert(live(s, i) && key_of(s, i) == k as int);
    assert forall|j: int| live(s, j) && key_of(s, j) == k as int implies j == i by {
        lemma_key_unique_global(s, root, i, j);
    }
}

/// The arena holds no more keys than slots, so its key set is finite.
pub(crate) proof fn lemma_dom_finite<V>(s: Seq<Option<Node<V>>>)
    ensures
        tree_map(s).dom().finite(),
{
    let dom = tree_map(s).dom();
    let idxs = vstd::set_lib::set_int_range(0, s.len() as int);
    vstd::set_lib::lemma_int_range(0, s.len() as int);
    let f = |i: int| node_at(s, i).key;
    let keys = idxs.map(f);
    idxs.lemma_map_finite(f);
    assert forall|k: u64| dom.contains(k) implies keys.contains(k) by {
        let i = choose|i: int| live(s, i) && key_of(s, i) == k as int;
        assert(idxs.contains(i) && f(i) == k);
    }
    vstd::set_lib::lemma_set_subset_finite(keys, dom);
}

/// An edit that keeps every live slot live with the same parent, key, and
/// side under its parent (and revives no dead slot) moves no slot's bounds.
pub(crate) proof fn lemma_iv_frame<V>(s1: Seq<Option<Node<V>>>, s2: Seq<Option<Node<V>>>, j: int)
    requires
        forall|x: int| #[trigger] live(s1, x) ==> live(s2, x),
        forall|x: int| 0 <= x < s1.len() && !(#[trigger] live(s1, x)) ==> !live(s2, x),
        forall|x: int| #[trigger] live(s1, x) ==> node_at(s2, x).parent == node_at(s1, x).parent
            && node_at(s2, x).key == node_at(s1, x).key,
        forall|x: int| #[trigger] live(s1, x) ==> (match node_at(s1, x).parent {
            Some(p) => live(s1, p as int) ==> (some_eq(node_at(s2, p as int).left, x) == some_eq(
                node_at(s1, p as int).left,
                x,
            )),
            None => true,
        }),
        live(s1, j),
    ensures
        lo(s2, j) == lo(s1, j),
        hi(s2, j) == hi(s1, j),
    decreases j,
{
    match node_at(s1, j).parent {
        None => {},
        Some(p) => {
            if 0 <= p as int && (p as int) < j && live(s1, p as int) {
                lemma_iv_frame(s1, s2, p as int);
            }
        },
    }
}

/// Attaching a fresh node with an unoccupied key below a slot with the
/// matching free link keeps the arena well-formed and inserts the key.
pub(crate) proof fn lemma_attach<V>(
    s1: Seq<Option<Node<V>>>,
    s2: Seq<Option<Node<V>>>,
    root: Option<usize>,
    at: usize,
    ii: usize,
    key: u64,
    value: V,
    dir_left: bool,
)
    requires
        wf_tree(s1, root),
        live(s1, at as int),
        !has_key(s1, key),
        lo(s1, at as int) < (key as int) < hi(s1, at as int),
        dir_left ==> node_at(s1, at as int).left is None && (key as int) < key_of(s1, at as int),
        !dir_left ==> node_at(s1, at as int).right is None && (key as int) > key_of(s1, at as int),
        ii as int == s1.len(),
        s2.len() == s1.len() + 1,
        s2[ii as int] == Some(
            Node::<V> { key, value, parent: Some(at), left: None, right: None },
        ),
        live(s2, at as int),
        node_at(s2, at as int).key == node_at(s1, at as int).key,
        node_at(s2, at as int).value == node_at(s1, at as int).value,
        node_at(s2, at as int).parent == node_at(s1, at as int).parent,
        dir_left ==> node_at(s2, at as int).left == Some(ii) && node_at(s2, at as int).right
            == node_at(s1, at as int).right,
        !dir_left ==> node_at(s2, at as int).right == Some(ii) && node_at(s2, at as int).left
            == node_at(s1, at as int).left,
        forall|x: int| 0 <= x < s1.len() && x != at as int ==> s2[x] == s1[x],
    ensures
        wf_tree(s2, root),
        tree_map(s2) == tree_map(s1).insert(key, value),
{
    let ai = at as int;
    let ni = ii as int;
    assert forall|x: int| live(s1, x) implies lo(s2, x) == lo(s1, x) && hi(s2, x) == hi(s1, x) by {
        lemma_iv_frame(s1, s2, x);
    }
    assert forall|x: int| wf_at(s2, root, x) by {
        assert(wf_at(s1, root, x));
        assert(wf_at(s1, root, ai));
        if live(s2, x) {
            if x == ni {
                if dir_left {
                    assert(some_eq(node_at(s2, ai).left, ni));
                    assert(lo(s2, ni) == lo(s2, ai));
                    assert(hi(s2, ni) == key_of(s2, ai));
                } else {
                    assert(!some_eq(node_at(s2, ai).left, ni));
                    assert(lo(s2, ni) == key_of(s2, ai));
                    assert(hi(s2, ni) == hi(s2, ai));
                }
            } else {
                assert(live(s1, x));
                assert(key_of(s2, x) == key_of(s1, x));
                match node_at(s1, x).parent {
                    None => {},
                    Some(p) => {
                        assert(wf_at(s1, root, p as int));
                    },
                }
            }
        }
    }
    assert(wf_tree(s2, root));
    assert forall|k: u64| #[trigger] has_key(s2, k) implies (has_key(s1, k) || k == key) by {
        let j = choose|j: int| live(s2, j) && key_of(s2, j) == k as int;
        if j != ni {
            assert(live(s1, j) && key_of(s1, j) == k as int);
        }
    }
    assert forall|k: u64| has_key(s1, k) implies #[trigger] has_key(s2, k) by {
        let j = choose|j: int| live(s1, j) && key_of(s1, j) == k as int;
        assert(live(s2, j) && key_of(s2, j) == k as int);
    }
    assert(live(s2, ni) && key_of(s2, ni) == key as int);
    assert(has_key(s2, key));
    assert forall|k: u64| has_key(s2, k) implies tree_map(s2)[k] == tree_map(s1).insert(
        key,
        value,
    )[k] by {
        lemma_idx_of(s2, root, k);
        if k == key {
            assert(idx_of(s2, k) == ni);
        } else {
            let j = idx_of(s2, k);
            assert(j != ni);
            assert(live(s1, j) && key_of(s1, j) == k as int);
            lemma_idx_of(s1, root, k);
            assert(idx_of(s1, k) == j);
            assert(node_at(s2, j).value == node_at(s1, j).value);
        }
    }
    assert(tree_map(s2) =~= tree_map(s1).insert(key, value));
}

/// How the arena looks after the minimum node at `mi` (which has no left
/// child) is spliced out: its right subtree takes its place under its parent
/// (whose left link held `mi`), or becomes the root; every other slot is
/// untouched and slot `mi` is cleared.
pub(crate) open spec fn splice_rel<V>(
    s1: Seq<Option<Node<V>>>,
    s2: Seq<Option<Node<V>>>,
    root1: Option<usize>,
    root2: Option<usize>,
    mi: int,
) -> bool {
    let m = node_at(s1, mi);
    &&& live(s1, mi)
    &&& m.left is None
    &&& s2.len() == s1.len()
    &&& s2[mi] is None
    &&& (match m.parent {
        Some(p) => {
            &&& root2 == root1
            &&& some_eq(node_at(s1, p as int).left, mi)
            &&& live(s2, p as int)
            &&& node_at(s2, p as int).key == node_at(s1, p as int).key
            &&& node_at(s2, p as int).value == node_at(s1, p as int).value
            &&& node_at(s2, p as int).parent == node_at(s1, p as int).parent
            &&& node_at(s2, p as int).right == node_at(s1, p as int).right
            &&& node_at(s2, p as int).left == m.right
        },
        None => root2 == m.right,
    })
    &&& (match m.right {
        Some(rc) => {
            &&& live(s2, rc as int)
            &&& node_at(s2, rc as int).key == node_at(s1, rc as int).key
            &&& node_at(s2, rc as int).value == node_at(s1, rc as int).value
            &&& node_at(s2, rc as int).left == node_at(s1, rc as int).left
            &&& node_at(s2, rc as int).right == node_at(s1, rc as int).right
            &&& node_at(s2, rc as int).parent == m.parent
        },
        None => true,
    })
    &&& (forall|x: int|
        0 <= x < s1.len() && x != mi && !some_eq(node_at(s1, mi).parent, x) && !some_eq(
            node_at(s1, mi).right,
            x,
        ) ==> s2[x] == s1[x])
}

/// Whether slot `j` hangs below the spliced-in right subtree after the splice.
pub(crate) open spec fn under_splice<V>(
    s1: Seq<Option<Node<V>>>,
    s2: Seq<Option<Node<V>>>,
    mi: int,
    j: int,
) -> bool {
    match node_at(s1, mi).right {
        Some(rc) => in_subtree(s2, rc as int, j),
        None => false,
    }
}

/// After the splice, the bounds of the moved subtree only widen, and the
/// bounds of every other slot are unchanged.
pub(crate) proof fn lemma_splice_iv<V>(
    s1: Seq<Option<Node<V>>>,
    s2: Seq<Option<Node<V>>>,
    root1: Option<usize>,
    root2: Option<usize>,
    mi: int,
    j: int,
)
    requires
        wf_tree(s1, root1),
        splice_rel(s1, s2, root1, root2, mi),
        live(s2, j),
    ensures
        live(s1, j),
        j != mi,
        node_at(s2, j).key == node_at(s1, j).key,
        node_at(s2, j).value == node_at(s1, j).value,
        under_splice(s1, s2, mi, j) ==> lo(s2, j) <= lo(s1, j) && hi(s2, j) >= hi(s1, j),
        !under_splice(s1, s2, mi, j) ==> lo(s2, j) == lo(s1, j) && hi(s2, j) == hi(s1, j),
    decreases j,
{
    let m = node_at(s1, mi);
    assert(wf_at(s1, root1, mi));
    assert(j != mi);
    if !some_eq(m.parent, j) && !some_eq(m.right, j) {
        assert(s2[j] == s1[j]);
    }
    assert(live(s1, j));
    assert(wf_at(s1, root1, j));
    if m.right is Some && m.right->Some_0 as int == j {
        let rci = j;
        assert(in_subtree(s2, rci, rci));
        assert(lo(s1, rci) == key_of(s1, mi));
        assert(hi(s1, rci) == hi(s1, mi));
        match m.parent {
            Some(p) => {
                let pi = p as int;
                assert(wf_at(s1, root1, pi));
                assert(some_eq(node_at(s2, pi).left, rci));
                assert(pi < mi < rci);
                assert(lo(s2, rci) == lo(s2, pi));
                assert(hi(s2, rci) == key_of(s2, pi));
                if in_subtree(s2, rci, pi) {
                    lemma_subtree_ge(s2, rci, pi);
                    assert(false);
                }
                lemma_splice_iv(s1, s2, root1, root2, mi, pi);
                assert(lo(s2, pi) == lo(s1, pi));
                assert(lo(s1, mi) == lo(s1, pi) && hi(s1, mi) == key_of(s1, pi));
                assert(lo(s1, pi) < key_of(s1, mi));
            },
            None => {
                assert(node_at(s2, j).parent is None);
                assert(lo(s2, j) == -1 && hi(s2, j) == key_top());
                assert(lo(s1, mi) == -1 && hi(s1, mi) == key_top());
                assert(lo(s1, mi) < key_of(s1, mi));
            },
        }
    } else {
        assert(node_at(s2, j).parent == node_at(s1, j).parent);
        match node_at(s1, j).parent {
            None => {
                assert(lo(s1, j) == -1 && hi(s1, j) == key_top());
                assert(lo(s2, j) == -1 && hi(s2, j) == key_top());
                if under_splice(s1, s2, mi, j) {
                    let rci = m.right->Some_0 as int;
                    assert(in_subtree(s2, rci, j));
                    assert(false);
                }
            },
            Some(q) => {
                let qi = q as int;
                if qi == mi {
                    assert(some_eq(m.left, j) || some_eq(m.right, j));
                    assert(false);
                }
                assert(live(s1, qi));
                assert(live(s2, qi)) by {
                    if !some_eq(m.parent, qi) && !some_eq(m.right, qi) {
                        assert(s2[qi] == s1[qi]);
                    }
                }
                lemma_splice_iv(s1, s2, root1, root2, mi, qi);
                assert(some_eq(node_at(s2, qi).left, j) == some_eq(node_at(s1, qi).left, j)) by {
                    if some_eq(m.parent, qi) {
                        assert(node_at(s2, qi).left == m.right);
                    } else if !some_eq(m.right, qi) {
                        assert(s2[qi] == s1[qi]);
                    }
                }
                assert(under_splice(s1, s2, mi, j) == under_splice(s1, s2, mi, qi)) by {
                    if m.right is Some {
                        let rci = m.right->Some_0 as int;
                        assert(j != rci);
                        if in_subtree(s2, rci, qi) {
                            assert(in_subtree(s2, rci, j));
                        }
                        if in_subtree(s2, rci, j) {
                            assert(in_subtree(s2, rci, qi));
                        }
                    }
                }
            },
        }
    }
}

/// Splicing the minimum node out keeps the arena well-formed and removes
/// exactly its key from the abstract map.
pub(crate) proof fn lemma_splice<V>(
    s1: Seq<Option<Node<V>>>,
    s2: Seq<Option<Node<V>>>,
    root1: Option<usize>,
    root2: Option<usize>,
    mi: int,
)
    requires
        wf_tree(s1, root1),
        splice_rel(s1, s2, root1, root2, mi),
    ensures
        wf_tree(s2, root2),
        tree_map(s2) == tree_map(s1).remove(node_at(s1, mi).key),
{
    let m = node_at(s1, mi);
    assert(wf_at(s1, root1, mi));
    // the root link of s2 is sound
    match m.parent {
        Some(p) => {
            lemma_under_root(s1, root1, mi);
            let rt = root1->Some_0 as int;
            assert(live(s1, rt) && node_at(s1, rt).parent is None);
            assert(rt != mi);
            assert(live(s2, rt) && node_at(s2, rt).parent is None) by {
                if !some_eq(m.parent, rt) && !some_eq(m.right, rt) {
                    assert(s2[rt] == s1[rt]);
                } else if some_eq(m.right, rt) {
                    assert(wf_at(s1, root1, rt));
                    assert(false);
                }
            }
        },
        None => {},
    }
    assert forall|x: int| wf_at(s2, root2, x) by {
        if live(s2, x) {
            lemma_splice_iv(s1, s2, root1, root2, mi, x);
            assert(wf_at(s1, root1, x));
            let n1 = node_at(s1, x);
            let n2 = node_at(s2, x);
            // the parent clause
            assert(match n2.parent {
                None => some_eq(root2, x),
                Some(q) => 0 <= q as int && (q as int) < x && live(s2, q as int) && (some_eq(
                    node_at(s2, q as int).left,
                    x,
                ) || some_eq(node_at(s2, q as int).right, x)),
            }) by {
                if some_eq(m.right, x) {
                    // x heads the moved subtree: its new parent is m's old one
                    assert(n2.parent == m.parent);
                    match m.parent {
                        Some(p) => {
                            assert(some_eq(node_at(s2, p as int).left, x));
                            assert((p as int) < mi < x);
                        },
                        None => {
                            assert(root2 == m.right);
                        },
                    }
                } else {
                    assert(n2.parent == n1.parent);
                    match n1.parent {
                        None => {
                            assert(some_eq(root1, x));
                            match m.parent {
                                Some(p) => {},
                                None => {
                                    assert(x == mi);
                                    assert(false);
                                },
                            }
                        },
                        Some(q) => {
                            let qi = q as int;
                            if qi == mi {
                                assert(some_eq(m.left, x) || some_eq(m.right, x));
                                assert(false);
                            }
                            assert(live(s2, qi)) by {
                                if !some_eq(m.parent, qi) && !some_eq(m.right, qi) {
                                    assert(s2[qi] == s1[qi]);
                                }
                            }
                            if some_eq(m.parent, qi) {
                                assert(node_at(s2, qi).right == node_at(s1, qi).right);
                                assert(some_eq(node_at(s1, qi).left, mi));
                                assert(some_eq(node_at(s1, qi).left, x) ==> x == mi);
                                assert(some_eq(node_at(s1, qi).right, x));
                            } else if some_eq(m.right, qi) {
                                assert(node_at(s2, qi).left == node_at(s1, qi).left);
                                assert(node_at(s2, qi).right == node_at(s1, qi).right);
                            } else {
                                assert(s2[qi] == s1[qi]);
                            }
                        },
                    }
                }
            }
            // the child clauses
            assert(match n2.left {
                None => true,
                Some(l) => x < l as int && live(s2, l as int) && some_eq(
                    node_at(s2, l as int).parent,
                    x,
                ),
            }) by {
                if n2.left is Some {
                    let li = n2.left->Some_0 as int;
                    if some_eq(m.parent, x) && n2.left == m.right {
                        // the spliced-in child
                        assert(some_eq(m.right, li));
                        assert(x < mi < li);
                        assert(node_at(s2, li).parent == m.parent);
                    } else {
                        assert(n2.left == n1.left);
                        assert(some_eq(node_at(s1, li).parent, x));
                        assert(li != mi) by {
                            if li == mi {
                                // then x would be m's parent, whose left link
                                // the splice rewrote
                                assert(some_eq(m.parent, x));
                                assert(node_at(s2, x).left == m.right);
                                assert(false);
                            }
                        }
                        assert(live(s2, li) && node_at(s2, li).parent == node_at(s1, li).parent)
                            by {
                            if some_eq(m.right, li) {
                                assert(node_at(s1, li).parent == Some(mi as usize));
                                assert(x == mi);
                                assert(false);
                            } else if !some_eq(m.parent, li) {
                                assert(s2[li] == s1[li]);
                            }
                        }
                    }
                }
            }
            assert(match n2.right {
                None => true,
                Some(rr) => x < rr as int && live(s2, rr as int) && some_eq(
                    node_at(s2, rr as int).parent,
                    x,
                ),
            }) by {
                if n2.right is Some {
                    let ri = n2.right->Some_0 as int;
                    assert(n2.right == n1.right) by {
                        if !some_eq(m.parent, x) && !some_eq(m.right, x) {
                            assert(s2[x] == s1[x]);
                        }
                    }
                    assert(some_eq(node_at(s1, ri).parent, x));
                    assert(ri != mi) by {
                        if ri == mi {
                            assert(some_eq(m.parent, x));
                            assert(some_eq(node_at(s1, x).left, mi));
                            assert(node_at(s1, x).left is Some && node_at(s1, x).right is Some);
                            assert(node_at(s1, x).left != node_at(s1, x).right);
                        }
                    }
                    assert(live(s2, ri) && node_at(s2, ri).parent == node_at(s1, ri).parent) by {
                        if some_eq(m.right, ri) {
                            assert(node_at(s1, ri).parent == Some(mi as usize));
                            assert(x == mi);
                            assert(false);
                        } else if !some_eq(m.parent, ri) {
                            assert(s2[ri] == s1[ri]);
                        }
                    }
                }
            }
            // children remain distinct
            assert(n2.left is Some && n2.right is Some ==> n2.left != n2.right) by {
                if n2.left is Some && n2.right is Some && n2.left == n2.right {
                    assert(n2.right == n1.right) by {
                        if !some_eq(m.parent, x) && !some_eq(m.right, x) {
                            assert(s2[x] == s1[x]);
                        }
                    }
                    if some_eq(m.parent, x) && n2.left == m.right {
                        // right child of x would be the spliced node's right child
                        let ri = n2.right->Some_0 as int;
                        assert(some_eq(node_at(s1, ri).parent, x));
                        assert(some_eq(m.right, ri));
                        assert(node_at(s1, ri).parent == Some(mi as usize));
                        assert(x == mi);
                        assert(false);
                    } else {
                        assert(n2.left == n1.left);
                        assert(false);
                    }
                }
            }
            // the key stays inside its (possibly widened) bounds
            assert(lo(s2, x) < key_of(s2, x) < hi(s2, x));
        }
    }
    assert(wf_tree(s2, root2));
    // the abstract map loses exactly m's key
    let mk = m.key;
    assert forall|k: u64| #[trigger] has_key(s2, k) implies has_key(s1, k) && k != mk by {
        let j = choose|j: int| live(s2, j) && key_of(s2, j) == k as int;
        lemma_splice_iv(s1, s2, root1, root2, mi, j);
        assert(live(s1, j) && key_of(s1, j) == k as int);
        if k == mk {
            lemma_key_unique_global(s1, root1, j, mi);
            assert(false);
        }
    }
    assert forall|k: u64| has_key(s1, k) && k != mk implies #[trigger] has_key(s2, k) by {
        let j = choose|j: int| live(s1, j) && key_of(s1, j) == k as int;
        assert(j != mi);
        assert(live(s2, j)) by {
            if !some_eq(m.parent, j) && !some_eq(m.right, j) {
                assert(s2[j] == s1[j]);
            }
        }
        lemma_splice_iv(s1, s2, root1, root2, mi, j);
        assert(live(s2, j) && key_of(s2, j) == k as int);
    }
    assert forall|k: u64| #[trigger] has_key(s2, k) implies tree_map(s2)[k] == tree_map(
        s1,
    ).remove(mk)[k] by {
        lemma_idx_of(s2, root2, k);
        let j = idx_of(s2, k);
        lemma_splice_iv(s1, s2, root1, root2, mi, j);
        lemma_idx_of(s1, root1, k);
        assert(idx_of(s1, k) == j);
        assert(node_at(s2, j).value == node_at(s1, j).value);
    }
    assert(tree_map(s2) =~= tree_map(s1).remove(mk));
}

/// Replacing only the payload of one live slot leaves the structure — links,
/// keys, bounds — untouched: the arena stays well-formed and only that slot's
/// key is re-mapped.
pub(crate) proof fn lemma_value_update<V>(
    s1: Seq<Option<Node<V>>>,
    s2: Seq<Option<Node<V>>>,
    root: Option<usize>,
    ci: int,
)
    requires
        wf_tree(s1, root),
        live(s1, ci),
        s2.len() == s1.len(),
        live(s2, ci),
        node_at(s2, ci).key == node_at(s1, ci).key,
        node_at(s2, ci).parent == node_at(s1, ci).parent,
        node_at(s2, ci).left == node_at(s1, ci).left,
        node_at(s2, ci).right == node_at(s1, ci).right,
        forall|x: int| 0 <= x < s1.len() && x != ci ==> s2[x] == s1[x],
    ensures
        wf_tree(s2, root),
        tree_map(s2) == tree_map(s1).insert(node_at(s1, ci).key, node_at(s2, ci).value),
{
    assert forall|x: int| live(s1, x) implies lo(s2, x) == lo(s1, x) && hi(s2, x) == hi(s1, x) by {
        lemma_iv_frame(s1, s2, x);
    }
    assert forall|x: int| wf_at(s2, root, x) by {
        if live(s2, x) {
            assert(live(s1, x));
            assert(wf_at(s1, root, x));
        }
    }
    assert(wf_tree(s2, root));
    let k0 = node_at(s1, ci).key;
    assert forall|k: u64| #[trigger] has_key(s2, k) implies has_key(s1, k) by {
        let j = choose|j: int| live(s2, j) && key_of(s2, j) == k as int;
        assert(live(s1, j) && key_of(s1, j) == k as int);
    }
    assert forall|k: u64| has_key(s1, k) implies #[trigger] has_key(s2, k) by {
        let j = choose|j: int| live(s1, j) && key_of(s1, j) == k as int;
        assert(live(s2, j) && key_of(s2, j) == k as int);
    }
    assert(has_key(s1, k0)) by {
        assert(live(s1, ci) && key_of(s1, ci) == k0 as int);
    }
    assert forall|k: u64| #[trigger] has_key(s2, k) implies tree_map(s2)[k] == tree_map(s1).insert(
        k0,
        node_at(s2, ci).value,
    )[k] by {
        lemma_idx_of(s2, root, k);
        lemma_idx_of(s1, root, k);
        let j = idx_of(s2, k);
        assert(live(s1, j) && key_of(s1, j) == k as int);
        assert(idx_of(s1, k) == j);
        if k == k0 {
            assert(j == ci);
        } else {
            assert(j != ci);
            assert(node_at(s2, j).value == node_at(s1, j).value);
        }
    }
    assert(tree_map(s2) =~= tree_map(s1).insert(k0, node_at(s2, ci).value));
}

} // verus!
