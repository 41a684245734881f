//! Key ordering as seen by callers: the ascending listing of a finite set of
//! keys, with the facts the traversal contracts are stated over.

use vstd::prelude::*;

verus! {

/// The least element of a nonempty finite set of keys.
pub open spec fn set_min(s: Set<u64>) -> u64 {
    choose|m: u64| s.contains(m) && (forall|k: u64| s.contains(k) ==> m <= k)
}

/// A nonempty finite set of keys has a least element, and `set_min` is it.
pub proof fn lemma_set_min(s: Set<u64>)
    requires
        s.finite(),
        !s.is_empty(),
    ensures
        s.contains(set_min(s)),
        forall|k: u64| s.contains(k) ==> set_min(s) <= k,
    decreases s.len(),
{
    let x = s.choose();
    assert(s.contains(x));
    let rest = s.remove(x);
    if rest.is_empty() {
        assert forall|k: u64| s.contains(k) implies x <= k by {
            if k != x {
                assert(rest.contains(k));
            }
        }
        assert(s.contains(x) && (forall|k: u64| s.contains(k) ==> x <= k));
    } else {
        lemma_set_min(rest);
        let m = set_min(rest);
        let w: u64 = if m <= x {
            m
        } else {
            x
        };
        assert forall|k: u64| s.contains(k) implies w <= k by {
            if k != x {
                assert(rest.contains(k));
            }
        }
        assert(s.contains(w) && (forall|k: u64| s.contains(k) ==> w <= k));
    }
}

/// The ascending listing of a finite set of keys: the least key, then the
/// listing of the rest.
pub open spec fn ascending_keys(s: Set<u64>) -> Seq<u64>
    decreases s.len()
        when s.finite()
{
    if !s.finite() || s.is_empty() {
        Seq::<u64>::empty()
    } else if s.contains(set_min(s)) {
        seq![set_min(s)] + ascending_keys(s.remove(set_min(s)))
    } else {
        Seq::<u64>::empty()
    }
}

/// Unfolding law: when `m` is a least element of a finite nonempty key set,
/// its ascending listing is `m` followed by the listing of the rest.
pub proof fn lemma_ascending_unfold(s: Set<u64>, m: u64)
    requires
        s.finite(),
        s.contains(m),
        forall|k: u64| s.contains(k) ==> m <= k,
    ensures
        ascending_keys(s) == seq![m] + ascending_keys(s.remove(m)),
{
    lemma_set_min(s);
    let m2 = set_min(s);
    assert(m <= m2 && m2 <= m);
    assert(!s.is_empty());
}

/// The listing of a finite key set has one entry per element.
pub proof fn lemma_ascending_len(s: Set<u64>)
    requires
        s.finite(),
    ensures
        ascending_keys(s).len() == s.len(),
    decreases s.len(),
{
    if !s.is_empty() {
        lemma_set_min(s);
        lemma_ascending_len(s.remove(set_min(s)));
    }
}

/// The listing of a finite key set holds exactly its elements.
pub proof fn lemma_ascending_members(s: Set<u64>)
    requires
        s.finite(),
    ensures
        forall|k: u64| #[trigger] ascending_keys(s).contains(k) <==> s.contains(k),
    decreases s.len(),
{
    if s.is_empty() {
    } else {
        lemma_set_min(s);
        let m = set_min(s);
        let rest = s.remove(m);
        lemma_ascending_members(rest);
        let tail = ascending_keys(rest);
        let whole = ascending_keys(s);
        assert(whole == seq![m] + tail);
        assert forall|k: u64| #[trigger] whole.contains(k) implies s.contains(k) by {
            let i = choose|i: int| 0 <= i < whole.len() && whole[i] == k;
            if i > 0 {
                assert(tail[i - 1] == k);
                assert(tail.contains(k));
            }
        }
        assert forall|k: u64| s.contains(k) implies #[trigger] whole.contains(k) by {
            if k == m {
                assert(whole[0] == k);
            } else {
                assert(rest.contains(k));
                assert(tail.contains(k));
                let i = choose|i: int| 0 <= i < tail.len() && tail[i] == k;
                assert(whole[i + 1] == k);
            }
        }
    }
}

/// The listing of a finite key set is strictly ascending.
pub proof fn lemma_ascending_sorted(s: Set<u64>)
    requires
        s.finite(),
    ensures
        forall|a: int, b: int|
            0 <= a < b < ascending_keys(s).len() ==> ascending_keys(s)[a] < ascending_keys(s)[b],
    decreases s.len(),
{
    if !s.is_empty() {
        lemma_set_min(s);
        let m = set_min(s);
        let rest = s.remove(m);
        lemma_ascending_sorted(rest);
        lemma_ascending_members(rest);
        let tail = ascending_keys(rest);
        let whole = ascending_keys(s);
        assert(whole == seq![m] + tail);
        assert forall|a: int, b: int| 0 <= a < b < whole.len() implies whole[a] < whole[b] by {
            if a == 0 {
                assert(whole[b] == tail[b - 1]);
                assert(tail.contains(tail[b - 1]));
                assert(rest.contains(whole[b]));
                assert(m <= whole[b] && whole[b] != m);
            } else {
                assert(whole[a] == tail[a - 1] && whole[b] == tail[b - 1]);
            }
        }
    }
}

/// The listing of a finite key set contains exactly its elements, in strictly
/// ascending order: listing a set of distinct keys sorts them, and no key is
/// listed twice.
pub proof fn lemma_ascending_keys(s: Set<u64>)
    requires
        s.finite(),
    ensures
        ascending_keys(s).to_set() == s,
        ascending_keys(s).len() == s.len(),
        forall|a: int, b: int|
            0 <= a < b < ascending_keys(s).len() ==> ascending_keys(s)[a] < ascending_keys(s)[b],
{
    lemma_ascending_len(s);
    lemma_ascending_members(s);
    lemma_ascending_sorted(s);
    assert(ascending_keys(s).to_set() =~= s);
}

/// Traversal order depends on the keys alone: two trees holding the same key
/// set — say, before and after payload-only mutation — are traversed in the
/// same ascending key order.
pub proof fn lemma_order_from_keys_alone<V>(m1: Map<u64, V>, m2: Map<u64, V>)
    requires
        m1.dom() == m2.dom(),
    ensures
        ascending_keys(m1.dom()) == ascending_keys(m2.dom()),
{
}

/// The key set left behind by a run of insertions, each call adding its key
/// to the set it found — which is what `insert`'s contract guarantees whether
/// the key was fresh or a rejected duplicate.
pub open spec fn keys_after(ks: Seq<u64>, start: Set<u64>) -> Set<u64>
    decreases ks.len(),
{
    if ks.len() == 0 {
        start
    } else {
        keys_after(ks.drop_first(), start.insert(ks[0]))
    }
}

/// A run of insertions adds exactly the sequence's keys to whatever it found.
proof fn lemma_keys_after_union(ks: Seq<u64>, start: Set<u64>)
    ensures
        keys_after(ks, start) == start.union(ks.to_set()),
    decreases ks.len(),
{
    if ks.len() == 0 {
        assert(keys_after(ks, start) =~= start.union(ks.to_set()));
    } else {
        let rest = ks.drop_first();
        lemma_keys_after_union(rest, start.insert(ks[0]));
        assert(rest.to_set().insert(ks[0]) =~= ks.to_set()) by {
            assert forall|k: u64| rest.to_set().insert(ks[0]).contains(k) implies
                ks.to_set().contains(k) by {
                if k != ks[0] {
                    let i = choose|i: int| 0 <= i < rest.len() && rest[i] == k;
                    assert(ks[i + 1] == k);
                }
            }
            assert forall|k: u64| ks.to_set().contains(k) implies rest.to_set().insert(
                ks[0],
            ).contains(k) by {
                let i = choose|i: int| 0 <= i < ks.len() && ks[i] == k;
                if i > 0 {
                    assert(rest[i - 1] == k);
                }
            }
        }
        assert(keys_after(ks, start) =~= start.union(ks.to_set()));
    }
}

/// Inserting any finite sequence of keys into an empty tree stores exactly
/// the distinct keys of that sequence — duplicates collapse to one membership
/// — so `search`, whose result is membership in the tree's key set, then
/// holds for precisely the keys inserted and fails for every other key.
pub proof fn lemma_distinct_membership(ks: Seq<u64>)
    ensures
        keys_after(ks, Set::<u64>::empty()) == ks.to_set(),
{
    lemma_keys_after_union(ks, Set::<u64>::empty());
    assert(Set::<u64>::empty().union(ks.to_set()) =~= ks.to_set());
}

} // verus!
