//! General properties of the map, stated over the abstract values that the
//! operations' contracts use and proved once for every key and value type.

use vstd::prelude::*;

use crate::key::HashKey;
use crate::pairs_distinct;
use crate::pairs_to_map;

verus! {

broadcast use vstd::set::group_set_axioms;

/// A key is in the map a sequence of pairs denotes exactly when some pair of
/// the sequence carries it.
pub proof fn lemma_pairs_to_map_membership<K: HashKey, V>(s: Seq<(K, V)>, kv: K::V)
    ensures
        pairs_to_map(s).dom().contains(kv) <==> exists|i: int|
            0 <= i < s.len() && (#[trigger] s[i]).0@ == kv,
    decreases s.len(),
{
    if s.len() == 0 {
    } else {
        let d = s.drop_last();
        lemma_pairs_to_map_membership(d, kv);
        if s.last().0@ == kv {
            assert((s[s.len() - 1]).0@ == kv);
        } else {
            if pairs_to_map(s).dom().contains(kv) {
                let i = choose|i: int| 0 <= i < d.len() && (#[trigger] d[i]).0@ == kv;
                assert((s[i]).0@ == kv);
            }
            if exists|i: int| 0 <= i < s.len() && (#[trigger] s[i]).0@ == kv {
                let i = choose|i: int| 0 <= i < s.len() && (#[trigger] s[i]).0@ == kv;
                assert(i < s.len() - 1);
                assert((d[i]).0@ == kv);
            }
        }
    }
}

/// The map a sequence of pairs denotes has a finite domain, no larger than
/// the sequence.
pub proof fn lemma_pairs_to_map_finite<K: HashKey, V>(s: Seq<(K, V)>)
    ensures
        pairs_to_map(s).dom().finite(),
        pairs_to_map(s).len() <= s.len(),
    decreases s.len(),
{
    if s.len() > 0 {
        lemma_pairs_to_map_finite(s.drop_last());
    }
}

/// Inserting any number of pairs with pairwise distinct keys into an empty
/// map gives a map with exactly that many entries.
pub proof fn lemma_distinct_pairs_len<K: HashKey, V>(s: Seq<(K, V)>)
    requires
        pairs_distinct(s),
    ensures
        pairs_to_map(s).dom().finite(),
        pairs_to_map(s).len() == s.len(),
    decreases s.len(),
{
    if s.len() > 0 {
        let d = s.drop_last();
        assert forall|a: int, b: int| 0 <= a < b < d.len() implies (#[trigger] d[a]).0@ != (
        #[trigger] d[b]).0@ by {
            assert((s[a]).0@ != (s[b]).0@);
        }
        lemma_distinct_pairs_len(d);
        lemma_pairs_to_map_membership(d, s.last().0@);
        if exists|i: int| 0 <= i < d.len() && (#[trigger] d[i]).0@ == s.last().0@ {
            let i = choose|i: int| 0 <= i < d.len() && (#[trigger] d[i]).0@ == s.last().0@;
            assert((s[i]).0@ == (s[s.len() - 1]).0@);
            assert(false);
        }
    }
}

/// Inserting under a key already present replaces its value and leaves the
/// number of entries and the set of keys unchanged.
pub proof fn lemma_replace_keeps_len<K, V>(m: Map<K, V>, kv: K, v: V)
    requires
        m.dom().finite(),
        m.dom().contains(kv),
    ensures
        m.insert(kv, v).len() == m.len(),
        m.insert(kv, v)[kv] == v,
        m.insert(kv, v).dom() == m.dom(),
{
    assert(m.insert(kv, v).dom() =~= m.dom());
}

/// A lookup right after an insertion returns the inserted value, and leaves
/// every other key's binding alone.
pub proof fn lemma_insert_then_get<K, V>(m: Map<K, V>, kv: K, v: V)
    ensures
        m.insert(kv, v).dom().contains(kv),
        m.insert(kv, v)[kv] == v,
        forall|kv2: K|
            kv2 != kv ==> (#[trigger] m.insert(kv, v).dom().contains(kv2) == m.dom().contains(
                kv2,
            )),
        forall|kv2: K|
            kv2 != kv && m.dom().contains(kv2) ==> #[trigger] m.insert(kv, v)[kv2] == m[kv2],
{
}

/// A key no pair of the sequence carries is absent from the map the sequence
/// denotes.
pub proof fn lemma_absent_key<K: HashKey, V>(s: Seq<(K, V)>, kv: K::V)
    requires
        forall|i: int| 0 <= i < s.len() ==> (#[trigger] s[i]).0@ != kv,
    ensures
        !pairs_to_map(s).dom().contains(kv),
{
    lemma_pairs_to_map_membership(s, kv);
}

/// Removing a key right after inserting it yields the inserted value's
/// binding gone, a length one smaller, and further lookups and removals of
/// the key finding nothing.
pub proof fn lemma_remove_after_insert<K, V>(m: Map<K, V>, kv: K, v: V)
    requires
        m.dom().finite(),
    ensures
        m.insert(kv, v)[kv] == v,
        !m.insert(kv, v).remove(kv).dom().contains(kv),
        m.insert(kv, v).remove(kv).len() == m.insert(kv, v).len() - 1,
        m.insert(kv, v).remove(kv).remove(kv) == m.insert(kv, v).remove(kv),
{
    let m2 = m.insert(kv, v);
    assert(m2.dom().finite());
    assert(m2.remove(kv).remove(kv) =~= m2.remove(kv));
}

/// Round trip: the map a sequence of distinct-key pairs denotes binds a key
/// to a value exactly when the sequence holds that pair, so traversing the
/// map yields, as a set, exactly the pairs that were inserted.
pub proof fn lemma_round_trip<K: HashKey, V>(s: Seq<(K, V)>, kv: K::V, v: V)
    requires
        pairs_distinct(s),
    ensures
        (pairs_to_map(s).dom().contains(kv) && pairs_to_map(s)[kv] == v) <==> exists|i: int|
            0 <= i < s.len() && (#[trigger] s[i]).0@ == kv && s[i].1 == v,
    decreases s.len(),
{
    lemma_pairs_to_map_membership(s, kv);
    if s.len() > 0 {
        let d = s.drop_last();
        assert forall|a: int, b: int| 0 <= a < b < d.len() implies (#[trigger] d[a]).0@ != (
        #[trigger] d[b]).0@ by {
            assert((s[a]).0@ != (s[b]).0@);
        }
        lemma_round_trip(d, kv, v);
        lemma_pairs_to_map_membership(d, kv);
        if s.last().0@ == kv {
            if exists|i: int| 0 <= i < s.len() && (#[trigger] s[i]).0@ == kv && s[i].1 == v {
                let i = choose|i: int|
                    0 <= i < s.len() && (#[trigger] s[i]).0@ == kv && s[i].1 == v;
                if i < s.len() - 1 {
                    assert((s[i]).0@ != (s[s.len() - 1]).0@);
                    assert(false);
                }
            }
            if exists|i: int| 0 <= i < d.len() && (#[trigger] d[i]).0@ == kv {
                let i = choose|i: int| 0 <= i < d.len() && (#[trigger] d[i]).0@ == kv;
                assert((s[i]).0@ == (s[s.len() - 1]).0@);
                assert(false);
            }
        } else {
            if exists|i: int| 0 <= i < s.len() && (#[trigger] s[i]).0@ == kv && s[i].1 == v {
                let i = choose|i: int|
                    0 <= i < s.len() && (#[trigger] s[i]).0@ == kv && s[i].1 == v;
                assert(i < s.len() - 1);
                assert((d[i]).0@ == kv && d[i].1 == v);
            }
            if exists|i: int| 0 <= i < d.len() && (#[trigger] d[i]).0@ == kv && d[i].1 == v {
                let i = choose|i: int|
                    0 <= i < d.len() && (#[trigger] d[i]).0@ == kv && d[i].1 == v;
                assert((s[i]).0@ == kv && s[i].1 == v);
            }
        }
    }
}

} // verus!
